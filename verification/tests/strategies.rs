use sudoku::solver::hidden_n::HiddenN;
use sudoku::solver::hidden_single::HiddenSingle;
use sudoku::solver::naked_n::NakedN;
use sudoku::solver::naked_pair::NakedPair;
use sudoku::solver::naked_triple::NakedTriple;
use sudoku::solver::strategies::UnitStrategy;
use sudoku::{Candidates, Cell, CellValue, Grid, Position};

fn cands(vals: &[u8]) -> Candidates {
    let mut c = Candidates::new([false; 9]);
    for v in vals {
        c.add(&CellValue::new(*v));
    }
    c
}

/// Row 1 with the given cells, the rest of the grid left unknown.
fn row_grid(cells: &[Cell]) -> Grid {
    let mut grid = Grid::new();
    for (i, cell) in cells.iter().enumerate() {
        grid.set_cell(Position::new((i + 1) as u8, 1), *cell);
    }
    grid
}

fn row_unit(grid: &Grid) -> sudoku::Unit {
    grid.get_cells(Position::new(1, 1).row_vec(true))
}

fn solved(v: u8) -> Cell {
    Cell::Solved(CellValue::new(v))
}

#[test]
fn test_naked_pair_unit() {
    // two cells carry exactly {1,2}; a third loses both
    let mut grid = row_grid(&[
        Cell::Unsolved(cands(&[1, 2])),
        Cell::Unsolved(cands(&[1, 2])),
        Cell::Unsolved(cands(&[1, 2, 3])),
        solved(4),
        solved(5),
        solved(6),
        solved(7),
        solved(8),
        solved(9),
    ]);
    let d = NakedPair.solve_unit(&row_unit(&grid));
    d.apply(&mut grid);
    assert_eq!(grid.get_cell(Position::new(3, 1)), solved(3));
    // the pair cells themselves keep their candidates
    assert_eq!(grid.get_cell(Position::new(1, 1)), Cell::Unsolved(cands(&[1, 2])));
}

#[test]
fn test_naked_pair_needs_exactly_two() {
    // three cells with the same pair propose nothing
    let mut grid = row_grid(&[
        Cell::Unsolved(cands(&[1, 2])),
        Cell::Unsolved(cands(&[1, 2])),
        Cell::Unsolved(cands(&[1, 2])),
        Cell::Unsolved(cands(&[1, 2, 3])),
        solved(5),
        solved(6),
        solved(7),
        solved(8),
        solved(9),
    ]);
    let d = NakedPair.solve_unit(&row_unit(&grid));
    assert!(d.is_empty());
    d.apply(&mut grid);
    assert_eq!(grid.get_cell(Position::new(4, 1)), Cell::Unsolved(cands(&[1, 2, 3])));
}

#[test]
fn test_naked_triple_unit() {
    // {1,2}, {2,3}, {1,3} form a triple; a fourth cell loses all three
    let mut grid = row_grid(&[
        Cell::Unsolved(cands(&[1, 2])),
        Cell::Unsolved(cands(&[2, 3])),
        Cell::Unsolved(cands(&[1, 3])),
        Cell::Unsolved(cands(&[1, 4])),
        solved(5),
        solved(6),
        solved(7),
        solved(8),
        solved(9),
    ]);
    let d = NakedTriple.solve_unit(&row_unit(&grid));
    d.apply(&mut grid);
    assert_eq!(grid.get_cell(Position::new(4, 1)), solved(4));
    assert_eq!(grid.get_cell(Position::new(1, 1)), Cell::Unsolved(cands(&[1, 2])));
}

#[test]
fn test_hidden_single_unit() {
    // value 4 is open in exactly one cell: that cell is proposed as solved
    let mut grid = row_grid(&[
        solved(1),
        Cell::Unsolved(cands(&[2, 3])),
        Cell::Unsolved(cands(&[2, 3])),
        Cell::Unsolved(cands(&[2, 3, 4])),
        solved(5),
        solved(6),
        solved(7),
        solved(8),
        solved(9),
    ]);
    let d = HiddenSingle.solve_unit(&row_unit(&grid));
    assert!(!d.is_empty());
    d.apply(&mut grid);
    assert_eq!(grid.get_cell(Position::new(4, 1)), solved(4));
}

#[test]
fn test_hidden_naked_agreement() {
    // the same open-candidate relation read both ways: the naked pair
    // {2,3} over two cells and the hidden single 4 make the same deduction
    let cells = [
        solved(1),
        Cell::Unsolved(cands(&[2, 3])),
        Cell::Unsolved(cands(&[2, 3])),
        Cell::Unsolved(cands(&[2, 3, 4])),
        solved(5),
        solved(6),
        solved(7),
        solved(8),
        solved(9),
    ];
    let mut by_naked = row_grid(&cells);
    let d = NakedN::<2>.solve_unit(&row_unit(&by_naked));
    d.apply(&mut by_naked);
    let mut by_hidden = row_grid(&cells);
    let d = HiddenN::<1>.solve_unit(&row_unit(&by_hidden));
    d.apply(&mut by_hidden);
    assert_eq!(by_naked.to_string(), by_hidden.to_string());
    assert_eq!(by_naked.get_cell(Position::new(4, 1)), solved(4));
}

#[test]
fn test_hidden_pair_unit() {
    // values 1 and 2 are confined to two cells: their other candidates go
    let mut grid = row_grid(&[
        Cell::Unsolved(cands(&[1, 2, 5])),
        Cell::Unsolved(cands(&[1, 2, 6])),
        Cell::Unsolved(cands(&[3, 4, 5, 6])),
        Cell::Unsolved(cands(&[3, 4, 5, 6])),
        Cell::Unsolved(cands(&[3, 4, 5, 6])),
        Cell::Unsolved(cands(&[3, 4, 5, 6])),
        solved(7),
        solved(8),
        solved(9),
    ]);
    let d = HiddenN::<2>.solve_unit(&row_unit(&grid));
    d.apply(&mut grid);
    assert_eq!(grid.get_cell(Position::new(1, 1)), Cell::Unsolved(cands(&[1, 2])));
    assert_eq!(grid.get_cell(Position::new(2, 1)), Cell::Unsolved(cands(&[1, 2])));
}
