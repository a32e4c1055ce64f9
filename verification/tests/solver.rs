use sudoku::solver::strategies::all_strategies;
use sudoku::solver::strategies::Difficulty;
use sudoku::solver::strategies::Strategy;
use sudoku::solver::Solver;
use sudoku::Grid;

fn solve_to_string(puzzle: &str) -> (String, usize, bool) {
    let solver = Solver::new(all_strategies());
    let mut grid = Grid::from_string(puzzle).unwrap();
    let solution = solver.solve(&mut grid);
    (grid.to_string(), solution.steps.len(), grid.is_solved())
}

#[test]
fn test_solve_singles() {
    // solvable with the trivial strategy plus naked and hidden singles
    let (s, steps, solved) = solve_to_string(
        "000120000900005060075040093092050007164030528300010640680090750020500001000082000",
    );
    assert!(solved);
    assert!(steps > 0);
    assert_eq!(
        s,
        "436129875918375264275846193892654317164937528357218649683491752729563481541782936"
    );
}

#[test]
fn test_solve_hidden_single() {
    let (s, _, solved) = solve_to_string(
        "000031026000000000000507180049000200003070400008000590025906000000000000690850000",
    );
    assert!(solved);
    assert_eq!(
        s,
        "857431926412698375936527184149385267563279418278164593725946831384712659691853742"
    );
}

#[test]
fn test_solve_naked_pair() {
    let (s, _, solved) = solve_to_string(
        "400000038002004100005300240070609004020000070600703090057008300003900400240000009",
    );
    assert!(solved);
    assert_eq!(
        s,
        "461572938732894156895316247378629514529481673614753892957248361183967425246135789"
    );
}

#[test]
fn test_solve_naked_triple() {
    let (s, _, solved) = solve_to_string(
        "070008029002000004854020000008374200000000000003261700000090612200000400130600070",
    );
    assert!(solved);
    assert_eq!(
        s,
        "671438529392715864854926137518374296726859341943261785487593612269187453135642978"
    );
}

#[test]
fn test_all_unknown_grid_is_a_fixpoint() {
    // pruning is immediately a no-op and no hidden or naked set exists: the
    // solver terminates at once with an empty trace
    let all_zero = "0".repeat(81);
    let (s, steps, solved) = solve_to_string(&all_zero);
    assert!(!solved);
    assert_eq!(steps, 0);
    assert_eq!(s, all_zero);
}

#[test]
fn test_solve_step_reports_first_strategy() {
    let solver = Solver::new(all_strategies());
    let grid = Grid::from_string(
        "000120000900005060075040093092050007164030528300010640680090750020500001000082000",
    )
    .unwrap();
    let (strategy, delta, _time) = solver.solve_step(&grid).unwrap();
    // the first applicable strategy on a fresh puzzle is candidate pruning
    assert_eq!(strategy.name(), "Prune Candidates");
    assert!(matches!(strategy.difficulty(), Difficulty::Trivial));
    assert!(!delta.is_empty());
}

#[test]
fn test_strategy_names_and_order() {
    let strategies = all_strategies();
    let names: Vec<String> = strategies.iter().map(|s| s.name()).collect();
    assert_eq!(
        names,
        vec![
            "Prune Candidates",
            "Naked Single",
            "Hidden Single",
            "Naked Pair",
            "Hidden Pair",
            "Naked Triple",
            "Hidden Triple",
            "Naked Quad",
            "Hidden Quad",
        ]
    );
    assert!(matches!(strategies[0].difficulty(), Difficulty::Trivial));
    for s in &strategies[1..] {
        assert!(matches!(s.difficulty(), Difficulty::Standard));
    }
}

#[test]
fn test_step_trace_records_strategies() {
    let solver = Solver::new(all_strategies());
    let mut grid = Grid::from_string(
        "400000038002004100005300240070609004020000070600703090057008300003900400240000009",
    )
    .unwrap();
    let solution = solver.solve(&mut grid);
    assert!(solution.grid.is_solved());
    assert_eq!(solution.grid.to_string(), grid.to_string());
    // a naked pair is indispensable for this puzzle, so it appears in the trace
    assert!(solution.steps.iter().any(|st| st.strategy.name() == "Naked Pair"));
    // every recorded delta is non-empty
    for st in &solution.steps {
        assert!(!st.delta.is_empty());
    }
}
