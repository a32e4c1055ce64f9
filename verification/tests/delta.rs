use sudoku::solver::strategies::StrategyDelta;
use sudoku::solver::strategies::StrategyResult;
use sudoku::Candidates;
use sudoku::Cell;
use sudoku::CellValue;
use sudoku::Grid;
use sudoku::Position;

fn two_candidates(a: u8, b: u8) -> Candidates {
    let mut c = Candidates::new([false; 9]);
    c.add(&CellValue::new(a));
    c.add(&CellValue::new(b));
    c
}

#[test]
fn test_delta_empty() {
    let d = StrategyDelta::new();
    assert!(d.is_empty());
    assert!(matches!(d.result(), StrategyResult::Failure));
}

#[test]
fn test_delta_result_success() {
    let mut d = StrategyDelta::new();
    d.eliminate(Position::new(1, 1), CellValue::new(4));
    assert!(!d.is_empty());
    assert!(matches!(d.result(), StrategyResult::Success));
}

#[test]
fn test_apply_solves_before_eliminations() {
    // the delta solves one cell and prunes another in a single application
    let mut grid = Grid::new();
    let a = Position::new(3, 3);
    let b = Position::new(5, 5);
    grid.set_cell(a, Cell::Unsolved(two_candidates(1, 2)));
    let mut d = StrategyDelta::new();
    d.solve(b, CellValue::new(5));
    d.eliminate(a, CellValue::new(2));
    d.apply(&mut grid);
    assert_eq!(grid.get_cell(b), Cell::Solved(CellValue::new(5)));
    // the cell at a collapsed: its candidates were reduced to exactly one
    assert_eq!(grid.get_cell(a), Cell::Solved(CellValue::new(1)));
}

#[test]
fn test_apply_absent_elimination_is_noop() {
    let mut grid = Grid::new();
    let a = Position::new(2, 7);
    grid.set_cell(a, Cell::Unsolved(two_candidates(3, 4)));
    let mut d = StrategyDelta::new();
    d.eliminate(a, CellValue::new(9));
    d.apply(&mut grid);
    // 9 was already absent: the candidate set is unchanged
    assert_eq!(grid.get_cell(a), Cell::Unsolved(two_candidates(3, 4)));
}

#[test]
fn test_apply_elimination_on_solved_cell_is_skipped() {
    let mut grid = Grid::new();
    let a = Position::new(9, 9);
    grid.set_cell(a, Cell::Solved(CellValue::new(6)));
    let mut d = StrategyDelta::new();
    d.eliminate(a, CellValue::new(6));
    d.apply(&mut grid);
    assert_eq!(grid.get_cell(a), Cell::Solved(CellValue::new(6)));
}

#[test]
fn test_extend_merges_disjoint_deltas() {
    let mut d = StrategyDelta::new();
    d.eliminate(Position::new(1, 1), CellValue::new(1));
    let mut other = StrategyDelta::new();
    other.eliminate(Position::new(2, 2), CellValue::new(2));
    other.solve(Position::new(3, 3), CellValue::new(3));
    d.extend(other);
    assert!(!d.is_empty());
    let mut grid = Grid::new();
    grid.set_cell(Position::new(1, 1), Cell::Unsolved(two_candidates(1, 2)));
    d.apply(&mut grid);
    assert_eq!(grid.get_cell(Position::new(1, 1)), Cell::Solved(CellValue::new(2)));
    assert_eq!(grid.get_cell(Position::new(3, 3)), Cell::Solved(CellValue::new(3)));
}
