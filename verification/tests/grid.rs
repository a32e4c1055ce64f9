use sudoku::Candidates;
use sudoku::Cell;
use sudoku::CellValue;
use sudoku::Grid;
use sudoku::Position;

#[test]
fn test_round_trip() {
    let s = "000120000900005060075040093092050007164030528300010640680090750020500001000082000";
    let grid = Grid::from_string(s).unwrap();
    assert_eq!(grid.to_string().as_str(), s);
}

#[test]
fn test_round_trip_all_unknown() {
    let s = "0".repeat(81);
    let grid = Grid::from_string(&s).unwrap();
    assert_eq!(grid.to_string(), s);
}

#[test]
fn test_from_string_wrong_length() {
    assert!(Grid::from_string("123").is_err());
    assert!(Grid::from_string(&"0".repeat(80)).is_err());
    assert!(Grid::from_string(&"0".repeat(82)).is_err());
    let err = Grid::from_string("").unwrap_err();
    assert_eq!(err.message().as_str(), "Puzzle string must have 81 characters");
}

#[test]
fn test_from_string_non_digits_are_unknown() {
    let mut s = String::new();
    s.push_str("12345678.");
    s.push_str(&"x".repeat(72));
    let grid = Grid::from_string(&s).unwrap();
    let mut expected = String::new();
    expected.push_str("123456780");
    expected.push_str(&"0".repeat(72));
    assert_eq!(grid.to_string(), expected);
}

#[test]
fn test_candidates_ops() {
    let mut c = Candidates::new([false; 9]);
    assert_eq!(c.count(), 0);
    let five = CellValue::new(5);
    c.add(&five);
    assert!(c.can_be(&five));
    assert_eq!(c.count(), 1);
    let two = CellValue::new(2);
    c.add(&two);
    assert_eq!(c.count(), 2);
    let vals: Vec<u8> = c.to_vec().iter().map(|v| v.get()).collect();
    assert_eq!(vals, vec![2, 5]);
    c.remove(&five);
    assert!(!c.can_be(&five));
    assert_eq!(c.count(), 1);
    // removing an absent candidate changes nothing
    c.remove(&five);
    assert_eq!(c.count(), 1);
    assert!(c.can_be(&two));
}

#[test]
fn test_candidates_combine() {
    let mut a = Candidates::new([false; 9]);
    let mut b = Candidates::new([false; 9]);
    a.add(&CellValue::new(1));
    b.add(&CellValue::new(9));
    let c = a.combine(&b);
    assert!(c.can_be(&CellValue::new(1)));
    assert!(c.can_be(&CellValue::new(9)));
    assert!(!c.can_be(&CellValue::new(5)));
    assert_eq!(c.count(), 2);
}

#[test]
fn test_cell_collapse() {
    // a cell whose candidates are reduced to one member becomes solved
    let mut c = Candidates::new([false; 9]);
    c.add(&CellValue::new(7));
    let cell = Cell::Unsolved(c).to_solved();
    assert_eq!(cell, Cell::Solved(CellValue::new(7)));
    // two candidates stay unsolved
    c.add(&CellValue::new(3));
    let cell = Cell::Unsolved(c).to_solved();
    assert!(matches!(cell, Cell::Unsolved(_)));
    // a solved cell is unchanged
    let cell = Cell::Solved(CellValue::new(2)).to_solved();
    assert_eq!(cell, Cell::Solved(CellValue::new(2)));
}

#[test]
fn test_cell_from_u8() {
    assert_eq!(Cell::from_u8(4), Cell::Solved(CellValue::new(4)));
    let unknown = Cell::from_u8(0);
    match unknown {
        Cell::Unsolved(c) => assert_eq!(c.count(), 9),
        _ => panic!("expected an unsolved cell"),
    }
    assert!(unknown.can_be(&CellValue::new(1)));
    assert!(unknown.can_be(&CellValue::new(9)));
}

#[test]
fn test_position_vecs() {
    let p = Position::new(2, 3);
    assert_eq!(p.col(), 2);
    assert_eq!(p.row(), 3);
    assert_eq!(p.row_vec(true).len(), 9);
    assert_eq!(p.row_vec(false).len(), 8);
    assert_eq!(p.col_vec(true).len(), 9);
    assert_eq!(p.col_vec(false).len(), 8);
    assert_eq!(p.box_vec(true).len(), 9);
    assert_eq!(p.box_vec(false).len(), 8);
    // row, column and box overlap: 8 + 8 + 8 minus 2 + 2 double-counted
    assert_eq!(p.seen_vec(false).len(), 20);
    assert_eq!(p.seen_vec(true).len(), 21);
    assert_eq!(Position::grid_vec().len(), 81);
    assert_eq!(Position::unit_vecs().len(), 27);
    for unit in Position::unit_vecs() {
        assert_eq!(unit.len(), 9);
    }
}

#[test]
fn test_grid_cells() {
    let mut grid = Grid::new();
    assert!(!grid.is_solved());
    let p = Position::new(4, 6);
    grid.set_cell(p, Cell::Solved(CellValue::new(8)));
    assert_eq!(grid.get_cell(p), Cell::Solved(CellValue::new(8)));
    // writing a one-candidate cell normalizes it to solved
    let mut c = Candidates::new([false; 9]);
    c.add(&CellValue::new(2));
    let q = Position::new(1, 1);
    grid.set_cell(q, Cell::Unsolved(c));
    assert_eq!(grid.get_cell(q), Cell::Solved(CellValue::new(2)));
    // get_cells snapshots a unit in position order
    let unit = grid.get_cells(q.row_vec(true));
    assert_eq!(unit.len(), 9);
    assert_eq!(unit[0], (q, Cell::Solved(CellValue::new(2))));
}

#[test]
fn test_set_cells_round_trip() {
    let s = "400000038002004100005300240070609004020000070600703090057008300003900400240000009";
    let grid = Grid::from_string(s).unwrap();
    let mut copy = Grid::new();
    for unit_positions in Position::unit_vecs() {
        let unit = grid.get_cells(unit_positions);
        copy.set_cells(unit);
    }
    assert_eq!(copy.to_string(), grid.to_string());
}
