//! The 81-cell grid, its serialization, and the format error raised for a
//! puzzle string of the wrong length.

use vstd::prelude::*;
use vstd::string::*;

use crate::cells::candidate_list;
use crate::cells::full_candidates;
use crate::cells::Cell;
use crate::cells::CellValue;
use crate::pos::Position;

verus! {

/// A snapshot of one group: each of its positions with the cell found there.
pub type Unit = Vec<(Position, Cell)>;

/// The cell a serialized character stands for: digits `1` to `9` are a given
/// value, anything else leaves all nine candidates open.
pub open spec fn spec_cell_of_char(c: char) -> Cell {
    if c == '1' {
        Cell::Solved(CellValue::from_spec(1))
    } else if c == '2' {
        Cell::Solved(CellValue::from_spec(2))
    } else if c == '3' {
        Cell::Solved(CellValue::from_spec(3))
    } else if c == '4' {
        Cell::Solved(CellValue::from_spec(4))
    } else if c == '5' {
        Cell::Solved(CellValue::from_spec(5))
    } else if c == '6' {
        Cell::Solved(CellValue::from_spec(6))
    } else if c == '7' {
        Cell::Solved(CellValue::from_spec(7))
    } else if c == '8' {
        Cell::Solved(CellValue::from_spec(8))
    } else if c == '9' {
        Cell::Solved(CellValue::from_spec(9))
    } else {
        Cell::Unsolved(full_candidates())
    }
}

/// The character a cell serializes to: a solved cell its digit, an unsolved
/// cell `'0'`.
pub open spec fn spec_char_of_cell(cell: Cell) -> char {
    match cell {
        Cell::Solved(v) => if v.val() == 1 {
            '1'
        } else if v.val() == 2 {
            '2'
        } else if v.val() == 3 {
            '3'
        } else if v.val() == 4 {
            '4'
        } else if v.val() == 5 {
            '5'
        } else if v.val() == 6 {
            '6'
        } else if v.val() == 7 {
            '7'
        } else if v.val() == 8 {
            '8'
        } else if v.val() == 9 {
            '9'
        } else {
            '0'
        },
        Cell::Unsolved(_) => '0',
    }
}

/// The grid an 81-character puzzle string deserializes to, cell by cell in
/// row-major order.
pub open spec fn spec_parse(s: Seq<char>) -> Seq<Cell> {
    Seq::new(81, |i: int| spec_cell_of_char(s[i]))
}

/// The string a grid serializes to, cell by cell in row-major order.
pub open spec fn spec_render(cells: Seq<Cell>) -> Seq<char> {
    Seq::new(cells.len(), |i: int| spec_char_of_cell(cells[i]))
}

/// A character of the serialization format: the digits `0` to `9`, where `0`
/// stands for an unknown cell.
pub open spec fn is_digit_char(c: char) -> bool {
    c == '0' || c == '1' || c == '2' || c == '3' || c == '4' || c == '5' || c == '6' || c == '7'
        || c == '8' || c == '9'
}

/// Serializing is a left inverse of parsing: any 81-character string of
/// digits `0` to `9` comes back unchanged.
pub proof fn lemma_round_trip(s: Seq<char>)
    requires
        s.len() == 81,
        forall|i: int| 0 <= i < 81 ==> is_digit_char(#[trigger] s[i]),
    ensures
        spec_render(spec_parse(s)) == s,
{
    broadcast use CellValue::lemma_from_spec;

    assert forall|i: int| 0 <= i < 81 implies spec_char_of_cell(
        spec_cell_of_char(#[trigger] s[i]),
    ) == s[i] by {
        assert(is_digit_char(s[i]));
    }
    assert(spec_render(spec_parse(s)) =~= s);
}

/// The 81-cell state of a puzzle, indexed by position in row-major order.
#[derive(Copy, Clone, PartialEq, Eq, Debug)]
pub struct Grid {
    cells: [Cell; 81],
}

impl View for Grid {
    type V = Seq<Cell>;

    closed spec fn view(&self) -> Seq<Cell> {
        self.cells@
    }
}

/// Setting each listed cell in turn, with collapse-on-write normalization.
pub open spec fn spec_set_cells(cells: Seq<Cell>, entries: Seq<(Position, Cell)>) -> Seq<Cell>
    decreases entries.len(),
{
    if entries.len() == 0 {
        cells
    } else {
        spec_set_cells(cells, entries.drop_last()).update(
            entries.last().0.spec_index(),
            entries.last().1.normalize(),
        )
    }
}

impl Grid {
    /// A grid always holds exactly 81 cells.
    pub broadcast proof fn lemma_len(g: Grid)
        ensures
            (#[trigger] g@).len() == 81,
    {
    }

    /// The cell at position `p`.
    pub open spec fn cell_at(self, p: Position) -> Cell {
        self@[p.spec_index()]
    }

    /// Every cell is unknown with all nine candidates open.
    pub fn new() -> (r: Grid)
        ensures
            r@.len() == 81,
            forall|k: int| 0 <= k < 81 ==> r@[k] == Cell::Unsolved(full_candidates()),
    {
        let cell = Cell::from_u8(0);
        Grid { cells: [cell; 81] }
    }

    fn index_of(pos: &Position) -> (r: usize)
        ensures
            r == pos.spec_index(),
            r < 81,
    {
        pos.code() as usize
    }

    pub fn get_cell(&self, pos: Position) -> (r: Cell)
        ensures
            r == self.cell_at(pos),
    {
        self.cells[Self::index_of(&pos)]
    }

    /// Write a cell, normalizing: if its candidate set has exactly one member
    /// it is stored as solved.
    pub fn set_cell(&mut self, pos: Position, cell: Cell)
        ensures
            final(self)@ == old(self)@.update(pos.spec_index(), cell.normalize()),
    {
        let i = Self::index_of(&pos);
        self.cells[i] = cell.to_solved();
    }

    /// The snapshot of the listed positions.
    pub fn get_cells(&self, pos: Vec<Position>) -> (r: Unit)
        ensures
            r@.len() == pos@.len(),
            forall|i: int|
                0 <= i < pos@.len() ==> #[trigger] r@[i] == (pos@[i], self.cell_at(pos@[i])),
    {
        let mut unit: Unit = Vec::new();
        let mut i: usize = 0;
        while i < pos.len()
            invariant
                i <= pos@.len(),
                unit@.len() == i,
                forall|j: int|
                    0 <= j < i ==> #[trigger] unit@[j] == (pos@[j], self.cell_at(pos@[j])),
            decreases pos@.len() - i,
        {
            let p = pos[i];
            unit.push((p, self.get_cell(p)));
            i = i + 1;
        }
        unit
    }

    /// Write each cell of the snapshot back, in order, normalizing each.
    pub fn set_cells(&mut self, unit: Unit)
        ensures
            final(self)@ == spec_set_cells(old(self)@, unit@),
    {
        let mut i: usize = 0;
        while i < unit.len()
            invariant
                i <= unit@.len(),
                self@ == spec_set_cells(old(self)@, unit@.subrange(0, i as int)),
            decreases unit@.len() - i,
        {
            let (p, cell) = unit[i];
            self.set_cell(p, cell);
            proof {
                let pre = unit@.subrange(0, i as int);
                let cur = unit@.subrange(0, i + 1);
                assert(cur.drop_last() =~= pre);
                assert(cur.last() == unit@[i as int]);
            }
            i = i + 1;
        }
        proof {
            assert(unit@.subrange(0, unit@.len() as int) =~= unit@);
        }
    }

    /// Whether every cell is solved.
    pub fn is_solved(&self) -> (r: bool)
        ensures
            r == forall|k: int| 0 <= k < self@.len() ==> (#[trigger] self@[k]) is Solved,
    {
        let n = self.cells.len();
        let mut k: usize = 0;
        while k < n
            invariant
                n == self@.len(),
                k <= n,
                forall|j: int| 0 <= j < k ==> (#[trigger] self@[j]) is Solved,
            decreases n - k,
        {
            if let Cell::Unsolved(_) = self.cells[k] {
                return false;
            }
            k = k + 1;
        }
        true
    }

    /// Deserialize an 81-character puzzle string: digits `1` to `9` are a
    /// given value, any other character an unknown cell. Fails exactly when
    /// the string is not 81 characters long.
    pub fn from_string(s: &str) -> (r: Result<Grid, Error>)
        ensures
            r is Ok <==> s@.len() == 81,
            r matches Ok(g) ==> g@ == spec_parse(s@),
    {
        if s.unicode_len() != 81 {
            return Err(Error::new("Puzzle string must have 81 characters"));
        }
        let mut g = Grid::new();
        let mut i: usize = 0;
        while i < 81
            invariant
                i <= 81,
                s@.len() == 81,
                g@.len() == 81,
                forall|k: int| 0 <= k < i ==> g@[k] == spec_parse(s@)[k],
                forall|k: int| i <= k < 81 ==> g@[k] == Cell::Unsolved(full_candidates()),
            decreases 81 - i,
        {
            let c = s.get_char(i);
            let d: u8 = if c == '1' {
                1
            } else if c == '2' {
                2
            } else if c == '3' {
                3
            } else if c == '4' {
                4
            } else if c == '5' {
                5
            } else if c == '6' {
                6
            } else if c == '7' {
                7
            } else if c == '8' {
                8
            } else if c == '9' {
                9
            } else {
                0
            };
            let cell = Cell::from_u8(d);
            let col = (i % 9 + 1) as u8;
            let row = (i / 9 + 1) as u8;
            let p = Position::new(col, row);
            proof {
                assert(p.spec_index() == i);
                assert(cell == spec_cell_of_char(s@[i as int]));
                assert(cell.normalize() == cell) by {
                    if d == 0 {
                        assert(candidate_list(full_candidates().bits()).len() == 9);
                    }
                }
            }
            g.set_cell(p, cell);
            i = i + 1;
        }
        Ok(g)
    }

    /// Serialize the grid to its 81-character string: solved cells as their
    /// digit, unsolved cells as `'0'`.
    pub fn to_string(&self) -> (r: String)
        ensures
            r@ == spec_render(self@),
    {
        let mut out = String::new();
        let mut i: usize = 0;
        while i < 81
            invariant
                i <= 81,
                self@.len() == 81,
                out@ =~= spec_render(self@).subrange(0, i as int),
            decreases 81 - i,
        {
            let lit: &str = match self.cells[i] {
                Cell::Solved(v) => {
                    let d = v.get();
                    if d == 1 {
                        "1"
                    } else if d == 2 {
                        "2"
                    } else if d == 3 {
                        "3"
                    } else if d == 4 {
                        "4"
                    } else if d == 5 {
                        "5"
                    } else if d == 6 {
                        "6"
                    } else if d == 7 {
                        "7"
                    } else if d == 8 {
                        "8"
                    } else {
                        "9"
                    }
                },
                Cell::Unsolved(_) => "0",
            };
            proof {
                reveal_strlit("0");
                reveal_strlit("1");
                reveal_strlit("2");
                reveal_strlit("3");
                reveal_strlit("4");
                reveal_strlit("5");
                reveal_strlit("6");
                reveal_strlit("7");
                reveal_strlit("8");
                reveal_strlit("9");
                assert(lit@.len() == 1 && lit@[0] == spec_char_of_cell(self@[i as int]));
            }
            out.append(lit);
            proof {
                assert(out@ =~= spec_render(self@).subrange(0, i + 1));
            }
            i = i + 1;
        }
        proof {
            assert(spec_render(self@).subrange(0, 81) =~= spec_render(self@));
        }
        out
    }
}

/// The error raised when a puzzle string cannot be deserialized.
#[derive(Debug)]
pub struct Error {
    details: String,
}

impl Error {
    pub closed spec fn spec_details(&self) -> Seq<char> {
        self.details@
    }

    pub fn new(msg: &str) -> (r: Error)
        ensures
            r.spec_details() == msg@,
    {
        Error { details: msg.to_owned() }
    }

    /// The error's message.
    pub fn message(&self) -> (r: &String)
        ensures
            r@ == self.spec_details(),
    {
        &self.details
    }
}

} // verus!
