//! The coordinate system of the 9x9 grid: positions, and the 27 groups (rows,
//! columns, boxes) whose 9 cells must each contain every value exactly once.

use vstd::prelude::*;

verus! {

/// A grid coordinate: column and row, both in `[1, 9]`.
/// Out-of-range construction is a programming error, ruled out by `new`'s
/// precondition.
#[derive(Copy, Clone, PartialEq, Eq, Structural, PartialOrd, Ord, Hash, Debug)]
pub struct Position {
    col: u8,
    row: u8,
}

impl Position {
    pub closed spec fn spec_col(&self) -> u8 {
        self.col
    }

    pub closed spec fn spec_row(&self) -> u8 {
        self.row
    }

    /// The position at `(col, row)`, for use in specifications.
    pub closed spec fn from_spec(col: u8, row: u8) -> Position {
        Position { col, row }
    }

    #[verifier::type_invariant]
    pub open spec fn type_inv(&self) -> bool {
        1 <= self.spec_col() <= 9 && 1 <= self.spec_row() <= 9
    }

    /// `from_spec` holds exactly the coordinates given to it.
    pub broadcast proof fn lemma_from_spec(col: u8, row: u8)
        ensures
            (#[trigger] Position::from_spec(col, row)).spec_col() == col,
            Position::from_spec(col, row).spec_row() == row,
    {
    }

    /// Positions are equal exactly when both coordinates agree.
    pub proof fn lemma_eq(a: Position, b: Position)
        ensures
            (a == b) <==> (a.spec_col() == b.spec_col() && a.spec_row() == b.spec_row()),
            a == Position::from_spec(a.spec_col(), a.spec_row()),
    {
    }

    /// The 3x3 box a coordinate falls in: 0, 1 or 2.
    pub open spec fn band(coord: u8) -> int {
        (coord - 1) / 3
    }

    pub open spec fn same_row(a: Position, b: Position) -> bool {
        a.spec_row() == b.spec_row()
    }

    pub open spec fn same_col(a: Position, b: Position) -> bool {
        a.spec_col() == b.spec_col()
    }

    pub open spec fn same_box(a: Position, b: Position) -> bool {
        Self::band(a.spec_col()) == Self::band(b.spec_col())
            && Self::band(a.spec_row()) == Self::band(b.spec_row())
    }

    /// Whether two positions lie in a common group (row, column or box).
    /// Every position sees itself.
    pub open spec fn sees(a: Position, b: Position) -> bool {
        Self::same_row(a, b) || Self::same_col(a, b) || Self::same_box(a, b)
    }

    pub fn new(col: u8, row: u8) -> (r: Position)
        requires
            1 <= col <= 9,
            1 <= row <= 9,
        ensures
            r == Position::from_spec(col, row),
            r.spec_col() == col,
            r.spec_row() == row,
    {
        Position { col, row }
    }

    pub fn row(&self) -> (r: u8)
        ensures
            r == self.spec_row(),
            1 <= r <= 9,
    {
        proof {
            use_type_invariant(self);
        }
        self.row
    }

    pub fn col(&self) -> (r: u8)
        ensures
            r == self.spec_col(),
            1 <= r <= 9,
    {
        proof {
            use_type_invariant(self);
        }
        self.col
    }

    /// The cell's offset in a row-major 81-cell layout.
    pub open spec fn spec_index(&self) -> int {
        (self.spec_col() - 1) + (self.spec_row() - 1) * 9
    }

    /// The row-major offset as a single byte, for specifications.
    pub open spec fn spec_code(&self) -> u8 {
        self.spec_index() as u8
    }

    /// A single byte encoding the position: its row-major offset, in `[0, 80]`.
    pub fn code(&self) -> (r: u8)
        ensures
            r == self.spec_index(),
            r == self.spec_code(),
            r < 81,
    {
        proof {
            use_type_invariant(self);
        }
        (self.col - 1) + (self.row - 1) * 9
    }

    /// Distinct positions have distinct row-major offsets.
    pub proof fn lemma_index_injective(a: Position, b: Position)
        requires
            1 <= a.spec_col() <= 9,
            1 <= a.spec_row() <= 9,
            1 <= b.spec_col() <= 9,
            1 <= b.spec_row() <= 9,
            a.spec_index() == b.spec_index(),
        ensures
            a == b,
    {
        Position::lemma_eq(a, b);
    }

    /// The first coordinate of the 3-wide band containing `coord`.
    fn band_low(coord: u8) -> (r: u8)
        requires
            1 <= coord <= 9,
        ensures
            r == 1 + Self::band(coord) * 3,
            1 <= r <= 7,
            forall|c: u8| r <= c < r + 3 ==> Self::band(c) == Self::band(coord),
            forall|c: u8| 1 <= c <= 9 && Self::band(c) == Self::band(coord) ==> r <= c < r + 3,
    {
        1 + ((coord - 1) / 3) * 3
    }

    /// The positions of the row containing this position, by increasing
    /// column; `include_self` keeps this position itself in the list.
    pub fn row_vec(&self, include_self: bool) -> (r: Vec<Position>)
        ensures
            r@.no_duplicates(),
            forall|q: Position| #[trigger]
                r@.contains(q) <==> (q.spec_row() == self.spec_row() && 1 <= q.spec_col() <= 9
                    && (include_self || q.spec_col() != self.spec_col())),
            r@.len() == (if include_self { 9int } else { 8 }),
            forall|j: int| 0 <= j < r@.len() ==> (#[trigger] r@[j]).spec_row() == self.spec_row(),
    {
        proof {
            use_type_invariant(self);
        }
        let mut v: Vec<Position> = Vec::new();
        let mut col: u8 = 1;
        while col <= 9
            invariant
                1 <= col <= 10,
                1 <= self.spec_col() <= 9,
                1 <= self.spec_row() <= 9,
                forall|j: int| 0 <= j < v@.len() ==> {
                    let q = #[trigger] v@[j];
                    q.spec_row() == self.spec_row() && 1 <= q.spec_col() < col
                        && (include_self || q.spec_col() != self.spec_col())
                },
                forall|q: Position|
                    (q.spec_row() == self.spec_row() && 1 <= q.spec_col() < col
                        && (include_self || q.spec_col() != self.spec_col()))
                        ==> #[trigger] v@.contains(q),
                v@.no_duplicates(),
                v@.len() == col - 1 - (if !include_self && self.spec_col() < col { 1int } else { 0 }),
            decreases 10 - col,
        {
            if include_self || col != self.col {
                let q = Position::new(col, self.row());
                proof {
                    assert forall|j: int| 0 <= j < v@.len() implies v@[j] != q by {
                        Position::lemma_eq(v@[j], q);
                    }
                    assert forall|p: Position|
                        (p.spec_row() == self.spec_row() && 1 <= p.spec_col() < col + 1
                            && (include_self || p.spec_col() != self.spec_col()))
                            implies v@.push(q).contains(p) by {
                        if p.spec_col() < col {
                            assert(v@.contains(p));
                            let j = choose|j: int| 0 <= j < v@.len() && v@[j] == p;
                            assert(v@.push(q)[j] == p);
                        } else {
                            Position::lemma_eq(p, q);
                            assert(v@.push(q)[v@.len() as int] == q);
                        }
                    }
                }
                v.push(q);
            }
            col = col + 1;
        }
        v
    }

    /// The positions of the column containing this position, by increasing
    /// row; `include_self` keeps this position itself in the list.
    pub fn col_vec(&self, include_self: bool) -> (r: Vec<Position>)
        ensures
            r@.no_duplicates(),
            forall|q: Position| #[trigger]
                r@.contains(q) <==> (q.spec_col() == self.spec_col() && 1 <= q.spec_row() <= 9
                    && (include_self || q.spec_row() != self.spec_row())),
            r@.len() == (if include_self { 9int } else { 8 }),
            forall|j: int| 0 <= j < r@.len() ==> (#[trigger] r@[j]).spec_col() == self.spec_col(),
    {
        proof {
            use_type_invariant(self);
        }
        let mut v: Vec<Position> = Vec::new();
        let mut row: u8 = 1;
        while row <= 9
            invariant
                1 <= row <= 10,
                1 <= self.spec_col() <= 9,
                1 <= self.spec_row() <= 9,
                forall|j: int| 0 <= j < v@.len() ==> {
                    let q = #[trigger] v@[j];
                    q.spec_col() == self.spec_col() && 1 <= q.spec_row() < row
                        && (include_self || q.spec_row() != self.spec_row())
                },
                forall|q: Position|
                    (q.spec_col() == self.spec_col() && 1 <= q.spec_row() < row
                        && (include_self || q.spec_row() != self.spec_row()))
                        ==> #[trigger] v@.contains(q),
                v@.no_duplicates(),
                v@.len() == row - 1 - (if !include_self && self.spec_row() < row { 1int } else { 0 }),
            decreases 10 - row,
        {
            if include_self || row != self.row {
                let q = Position::new(self.col(), row);
                proof {
                    assert forall|j: int| 0 <= j < v@.len() implies v@[j] != q by {
                        Position::lemma_eq(v@[j], q);
                    }
                    assert forall|p: Position|
                        (p.spec_col() == self.spec_col() && 1 <= p.spec_row() < row + 1
                            && (include_self || p.spec_row() != self.spec_row()))
                            implies v@.push(q).contains(p) by {
                        if p.spec_row() < row {
                            assert(v@.contains(p));
                            let j = choose|j: int| 0 <= j < v@.len() && v@[j] == p;
                            assert(v@.push(q)[j] == p);
                        } else {
                            Position::lemma_eq(p, q);
                            assert(v@.push(q)[v@.len() as int] == q);
                        }
                    }
                }
                v.push(q);
            }
            row = row + 1;
        }
        v
    }

    /// The positions of the 3x3 box containing this position, columns outer
    /// and rows inner; `include_self` keeps this position itself in the list.
    pub fn box_vec(&self, include_self: bool) -> (r: Vec<Position>)
        ensures
            r@.no_duplicates(),
            forall|q: Position| #[trigger]
                r@.contains(q) <==> (1 <= q.spec_col() <= 9 && 1 <= q.spec_row() <= 9
                    && Self::same_box(*self, q) && (include_self || q != *self)),
            r@.len() == (if include_self { 9int } else { 8 }),
    {
        proof {
            use_type_invariant(self);
        }
        let col_low = Self::band_low(self.col());
        let row_low = Self::band_low(self.row());
        let mut v: Vec<Position> = Vec::new();
        let mut ci: u8 = 0;
        while ci < 3
            invariant
                ci <= 3,
                1 <= self.spec_col() <= 9,
                1 <= self.spec_row() <= 9,
                col_low == 1 + Self::band(self.spec_col()) * 3,
                row_low == 1 + Self::band(self.spec_row()) * 3,
                1 <= col_low <= 7,
                1 <= row_low <= 7,
                forall|j: int| 0 <= j < v@.len() ==> {
                    let q = #[trigger] v@[j];
                    1 <= q.spec_col() <= 9 && 1 <= q.spec_row() <= 9 && Self::same_box(*self, q)
                        && q.spec_col() < col_low + ci && (include_self || q != *self)
                },
                forall|q: Position|
                    (1 <= q.spec_col() <= 9 && 1 <= q.spec_row() <= 9 && Self::same_box(*self, q)
                        && q.spec_col() < col_low + ci && (include_self || q != *self))
                        ==> #[trigger] v@.contains(q),
                v@.no_duplicates(),
                v@.len() == ci * 3 - (if !include_self && self.spec_col() < col_low + ci { 1int } else { 0 }),
            decreases 3 - ci,
        {
            let col: u8 = col_low + ci;
            let mut ri: u8 = 0;
            while ri < 3
                invariant
                    ri <= 3,
                    ci < 3,
                    col == col_low + ci,
                    1 <= self.spec_col() <= 9,
                    1 <= self.spec_row() <= 9,
                    col_low == 1 + Self::band(self.spec_col()) * 3,
                    row_low == 1 + Self::band(self.spec_row()) * 3,
                    1 <= col_low <= 7,
                    1 <= row_low <= 7,
                    forall|j: int| 0 <= j < v@.len() ==> {
                        let q = #[trigger] v@[j];
                        1 <= q.spec_col() <= 9 && 1 <= q.spec_row() <= 9 && Self::same_box(*self, q)
                            && (q.spec_col() < col || (q.spec_col() == col && q.spec_row() < row_low
                                + ri)) && (include_self || q != *self)
                    },
                    forall|q: Position|
                        (1 <= q.spec_col() <= 9 && 1 <= q.spec_row() <= 9 && Self::same_box(
                            *self,
                            q,
                        ) && (q.spec_col() < col || (q.spec_col() == col && q.spec_row() < row_low
                            + ri)) && (include_self || q != *self))
                            ==> #[trigger] v@.contains(q),
                    v@.no_duplicates(),
                    v@.len() == ci * 3 + ri - (if !include_self && (self.spec_col() < col
                        || (self.spec_col() == col && self.spec_row() < row_low + ri)) { 1int } else { 0 }),
                decreases 3 - ri,
            {
                let row: u8 = row_low + ri;
                if include_self || row != self.row || col != self.col {
                    let q = Position::new(col, row);
                    proof {
                        Position::lemma_eq(q, *self);
                        assert forall|j: int| 0 <= j < v@.len() implies v@[j] != q by {
                            Position::lemma_eq(v@[j], q);
                        }
                        assert forall|p: Position|
                            (1 <= p.spec_col() <= 9 && 1 <= p.spec_row() <= 9 && Self::same_box(
                                *self,
                                p,
                            ) && (p.spec_col() < col || (p.spec_col() == col && p.spec_row()
                                < row_low + ri + 1)) && (include_self || p != *self))
                                implies v@.push(q).contains(p) by {
                            Position::lemma_eq(p, q);
                            if p == q {
                                assert(v@.push(q)[v@.len() as int] == q);
                            } else {
                                assert(v@.contains(p));
                                let j = choose|j: int| 0 <= j < v@.len() && v@[j] == p;
                                assert(v@.push(q)[j] == p);
                            }
                        }
                    }
                    v.push(q);
                }
                ri = ri + 1;
            }
            ci = ci + 1;
        }
        v
    }

    /// The de-duplicated union of this position's row, column and box;
    /// `include_self` keeps this position itself in the list.
    pub fn seen_vec(&self, include_self: bool) -> (r: Vec<Position>)
        ensures
            r@.no_duplicates(),
            forall|q: Position| #[trigger]
                r@.contains(q) <==> (1 <= q.spec_col() <= 9 && 1 <= q.spec_row() <= 9
                    && Self::sees(*self, q) && (include_self || q != *self)),
    {
        proof {
            use_type_invariant(self);
        }
        let mut v: Vec<Position> = Vec::new();
        let parts: [Vec<Position>; 3] = [
            self.col_vec(include_self),
            self.row_vec(include_self),
            self.box_vec(include_self),
        ];
        let mut pi: usize = 0;
        while pi < 3
            invariant
                pi <= 3,
                1 <= self.spec_col() <= 9,
                1 <= self.spec_row() <= 9,
                parts@.len() == 3,
                forall|q: Position| #[trigger]
                    parts@[0]@.contains(q) <==> (q.spec_col() == self.spec_col() && 1
                        <= q.spec_row() <= 9 && (include_self || q.spec_row() != self.spec_row())),
                forall|q: Position| #[trigger]
                    parts@[1]@.contains(q) <==> (q.spec_row() == self.spec_row() && 1
                        <= q.spec_col() <= 9 && (include_self || q.spec_col() != self.spec_col())),
                forall|q: Position| #[trigger]
                    parts@[2]@.contains(q) <==> (1 <= q.spec_col() <= 9 && 1 <= q.spec_row() <= 9
                        && Self::same_box(*self, q) && (include_self || q != *self)),
                v@.no_duplicates(),
                forall|m: int| 0 <= m < v@.len() ==> {
                    let q = #[trigger] v@[m];
                    1 <= q.spec_col() <= 9 && 1 <= q.spec_row() <= 9
                        && Self::sees(*self, q) && (include_self || q != *self)
                },
                forall|q: Position, k: int|
                    0 <= k < pi && #[trigger] parts@[k]@.contains(q) ==> v@.contains(q),
            decreases 3 - pi,
        {
            let part = &parts[pi];
            let mut j: usize = 0;
            while j < part.len()
                invariant
                    j <= part@.len(),
                    pi < 3,
                    parts@.len() == 3,
                    part == &parts@[pi as int],
                    1 <= self.spec_col() <= 9,
                    1 <= self.spec_row() <= 9,
                    forall|q: Position| #[trigger]
                        parts@[0]@.contains(q) <==> (q.spec_col() == self.spec_col() && 1
                            <= q.spec_row() <= 9 && (include_self || q.spec_row()
                            != self.spec_row())),
                    forall|q: Position| #[trigger]
                        parts@[1]@.contains(q) <==> (q.spec_row() == self.spec_row() && 1
                            <= q.spec_col() <= 9 && (include_self || q.spec_col()
                            != self.spec_col())),
                    forall|q: Position| #[trigger]
                        parts@[2]@.contains(q) <==> (1 <= q.spec_col() <= 9 && 1 <= q.spec_row()
                            <= 9 && Self::same_box(*self, q) && (include_self || q != *self)),
                    v@.no_duplicates(),
                    forall|m: int| 0 <= m < v@.len() ==> {
                        let q = #[trigger] v@[m];
                        1 <= q.spec_col() <= 9 && 1 <= q.spec_row() <= 9
                            && Self::sees(*self, q) && (include_self || q != *self)
                    },
                    forall|k: int| 0 <= k < j ==> v@.contains(#[trigger] part@[k]),
                    forall|q: Position, k: int|
                        0 <= k < pi && #[trigger] parts@[k]@.contains(q) ==> v@.contains(q),
                decreases part@.len() - j,
            {
                let q = part[j];
                assert(part@.contains(part@[j as int]));
                proof {
                    assert(parts@[pi as int]@.contains(q));
                    if pi == 0 {
                        assert(parts@[0]@.contains(q));
                    } else if pi == 1 {
                        assert(parts@[1]@.contains(q));
                    } else {
                        assert(parts@[2]@.contains(q));
                    }
                    Position::lemma_eq(q, *self);
                    assert(1 <= q.spec_col() <= 9 && 1 <= q.spec_row() <= 9
                        && Position::sees(*self, q) && (include_self || q != *self));
                }
                if !contains_position(&v, &q) {
                    proof {
                        let ghost old_v = v@;
                        assert forall|p: Position| old_v.contains(p) implies old_v.push(q).contains(
                            p,
                        ) by {
                            let k = choose|k: int| 0 <= k < old_v.len() && old_v[k] == p;
                            assert(old_v.push(q)[k] == p);
                        }
                    }
                    v.push(q);
                    assert(v@.contains(v@[v@.len() - 1]));
                }
                proof {
                    assert forall|k: int| 0 <= k < j + 1 implies v@.contains(
                        #[trigger] part@[k],
                    ) by {
                        if k < j {
                        } else {
                            assert(part@[k] == q);
                        }
                    }
                }
                j = j + 1;
            }
            proof {
                assert forall|q: Position, k: int|
                    0 <= k < pi + 1 && #[trigger] parts@[k]@.contains(q) implies v@.contains(q) by {
                    if k == pi {
                        let m = choose|m: int| 0 <= m < part@.len() && part@[m] == q;
                    }
                }
            }
            pi = pi + 1;
        }
        proof {
            assert forall|q: Position| #[trigger] v@.contains(q) implies (1 <= q.spec_col() <= 9
                && 1 <= q.spec_row() <= 9 && Self::sees(*self, q) && (include_self || q != *self))
                by {
                let m = choose|m: int| 0 <= m < v@.len() && v@[m] == q;
            }
            assert forall|q: Position|
                (1 <= q.spec_col() <= 9 && 1 <= q.spec_row() <= 9 && Self::sees(*self, q)
                    && (include_self || q != *self)) implies v@.contains(q) by {
                Position::lemma_eq(q, *self);
                if Self::same_col(*self, q) {
                    if include_self || q != *self {
                        if !include_self && q.spec_row() == self.spec_row() {
                            // q differs from self in some coordinate; same column
                            // and same row would make them equal.
                            assert(false);
                        }
                        assert(parts@[0]@.contains(q));
                    }
                } else if Self::same_row(*self, q) {
                    assert(parts@[1]@.contains(q));
                } else {
                    assert(parts@[2]@.contains(q));
                }
            }
        }
        v
    }
}

/// Whether `v` holds `q`.
pub fn contains_position(v: &Vec<Position>, q: &Position) -> (r: bool)
    ensures
        r == v@.contains(*q),
{
    let mut j: usize = 0;
    while j < v.len()
        invariant
            j <= v@.len(),
            forall|k: int| 0 <= k < j ==> v@[k] != *q,
        decreases v@.len() - j,
    {
        if v[j] == *q {
            return true;
        }
        j = j + 1;
    }
    proof {
        if v@.contains(*q) {
            let k = choose|k: int| 0 <= k < v@.len() && v@[k] == *q;
        }
    }
    false
}

/// A position within the 9x9 grid.
pub open spec fn pos_valid(p: Position) -> bool {
    1 <= p.spec_col() <= 9 && 1 <= p.spec_row() <= 9
}

/// The positions of `s` are exactly row `row`, each listed once.
pub open spec fn is_row_unit(s: Seq<Position>, row: u8) -> bool {
    &&& s.len() == 9
    &&& s.no_duplicates()
    &&& forall|q: Position| #[trigger]
        s.contains(q) <==> (q.spec_row() == row && 1 <= q.spec_col() <= 9)
}

/// The positions of `s` are exactly column `col`, each listed once.
pub open spec fn is_col_unit(s: Seq<Position>, col: u8) -> bool {
    &&& s.len() == 9
    &&& s.no_duplicates()
    &&& forall|q: Position| #[trigger]
        s.contains(q) <==> (q.spec_col() == col && 1 <= q.spec_row() <= 9)
}

/// The positions of `s` are exactly the box in column band `bc` and row band
/// `br`, each listed once.
pub open spec fn is_box_unit(s: Seq<Position>, bc: int, br: int) -> bool {
    &&& s.len() == 9
    &&& s.no_duplicates()
    &&& forall|q: Position| #[trigger]
        s.contains(q) <==> (1 <= q.spec_col() <= 9 && 1 <= q.spec_row() <= 9
            && Position::band(q.spec_col()) == bc && Position::band(q.spec_row()) == br)
}

/// The positions of `s` are exactly one of the 27 groups of the grid.
pub open spec fn is_unit(s: Seq<Position>) -> bool {
    ||| exists|row: u8| 1 <= row <= 9 && is_row_unit(s, row)
    ||| exists|col: u8| 1 <= col <= 9 && is_col_unit(s, col)
    ||| exists|bc: int, br: int| 0 <= bc < 3 && 0 <= br < 3 && is_box_unit(s, bc, br)
}

/// Any two positions of a group see each other.
pub proof fn lemma_unit_mutually_sees(s: Seq<Position>)
    requires
        is_unit(s),
    ensures
        forall|i: int, j: int|
            0 <= i < s.len() && 0 <= j < s.len() ==> Position::sees(#[trigger] s[i], #[trigger] s[j]),
        forall|i: int, j: int| 0 <= i < j < s.len() ==> s[i] != s[j],
        forall|i: int|
            0 <= i < s.len() ==> 1 <= (#[trigger] s[i]).spec_col() <= 9 && 1 <= s[i].spec_row()
                <= 9,
    {
    assert forall|i: int|
        0 <= i < s.len() implies 1 <= (#[trigger] s[i]).spec_col() <= 9 && 1 <= s[i].spec_row()
        <= 9 by {
        assert(s.contains(s[i]));
    }
    assert forall|i: int, j: int|
        0 <= i < s.len() && 0 <= j < s.len() implies Position::sees(
        #[trigger] s[i],
        #[trigger] s[j],
    ) by {
        assert(s.contains(s[i]));
        assert(s.contains(s[j]));
    }
}

impl Position {
    /// All 81 positions of the grid, columns outer and rows inner.
    pub fn grid_vec() -> (r: Vec<Position>)
        ensures
            r@.len() == 81,
            forall|k: int|
                0 <= k < 81 ==> #[trigger] r@[k] == Position::from_spec(
                    (k / 9 + 1) as u8,
                    (k % 9 + 1) as u8,
                ),
            forall|q: Position|
                (1 <= q.spec_col() <= 9 && 1 <= q.spec_row() <= 9) ==> #[trigger] r@.contains(q),
            r@.no_duplicates(),
    {
        let mut v: Vec<Position> = Vec::new();
        let mut col: u8 = 1;
        while col <= 9
            invariant
                1 <= col <= 10,
                v@.len() == (col - 1) * 9,
                forall|k: int|
                    0 <= k < v@.len() ==> #[trigger] v@[k] == Position::from_spec(
                        (k / 9 + 1) as u8,
                        (k % 9 + 1) as u8,
                    ),
            decreases 10 - col,
        {
            let mut row: u8 = 1;
            while row <= 9
                invariant
                    1 <= col <= 9,
                    1 <= row <= 10,
                    v@.len() == (col - 1) * 9 + (row - 1),
                    forall|k: int|
                        0 <= k < v@.len() ==> #[trigger] v@[k] == Position::from_spec(
                            (k / 9 + 1) as u8,
                            (k % 9 + 1) as u8,
                        ),
                decreases 10 - row,
            {
                v.push(Position::new(col, row));
                proof {
                    let k = v@.len() - 1;
                    assert(k / 9 + 1 == col && k % 9 + 1 == row) by (nonlinear_arith)
                        requires
                            k == (col - 1) * 9 + (row - 1),
                            1 <= col <= 9,
                            1 <= row <= 9,
                    ;
                }
                row = row + 1;
            }
            col = col + 1;
        }
        proof {
            assert forall|q: Position|
                (1 <= q.spec_col() <= 9 && 1 <= q.spec_row() <= 9) implies #[trigger] v@.contains(
                q,
            ) by {
                let k = (q.spec_col() - 1) * 9 + (q.spec_row() - 1);
                assert(k / 9 + 1 == q.spec_col() && k % 9 + 1 == q.spec_row())
                    by (nonlinear_arith)
                    requires
                        k == (q.spec_col() - 1) * 9 + (q.spec_row() - 1),
                        1 <= q.spec_col() <= 9,
                        1 <= q.spec_row() <= 9,
                ;
                Position::lemma_eq(q, v@[k]);
            }
            assert forall|i: int, j: int| 0 <= i < j < v@.len() implies v@[i] != v@[j] by {
                Position::lemma_eq(v@[i], v@[j]);
                assert(i / 9 != j / 9 || i % 9 != j % 9) by (nonlinear_arith)
                    requires
                        0 <= i < j,
                ;
            }
            // no_duplicates from pairwise distinctness
            assert(v@.no_duplicates());
        }
        v
    }

    /// The nine rows, as position lists: entry `i` is row `i + 1`.
    pub fn row_vecs() -> (r: Vec<Vec<Position>>)
        ensures
            r@.len() == 9,
            forall|i: int| 0 <= i < 9 ==> is_row_unit((#[trigger] r@[i])@, (i + 1) as u8),
    {
        let mut v: Vec<Vec<Position>> = Vec::new();
        let mut i: u8 = 1;
        while i <= 9
            invariant
                1 <= i <= 10,
                v@.len() == i - 1,
                forall|k: int| 0 <= k < v@.len() ==> is_row_unit((#[trigger] v@[k])@, (k + 1) as u8),
            decreases 10 - i,
        {
            let u = Position::new(1, i).row_vec(true);
            v.push(u);
            i = i + 1;
        }
        v
    }

    /// The nine columns, as position lists: entry `i` is column `i + 1`.
    pub fn col_vecs() -> (r: Vec<Vec<Position>>)
        ensures
            r@.len() == 9,
            forall|i: int| 0 <= i < 9 ==> is_col_unit((#[trigger] r@[i])@, (i + 1) as u8),
    {
        let mut v: Vec<Vec<Position>> = Vec::new();
        let mut i: u8 = 1;
        while i <= 9
            invariant
                1 <= i <= 10,
                v@.len() == i - 1,
                forall|k: int| 0 <= k < v@.len() ==> is_col_unit((#[trigger] v@[k])@, (k + 1) as u8),
            decreases 10 - i,
        {
            let u = Position::new(i, 1).col_vec(true);
            v.push(u);
            i = i + 1;
        }
        v
    }

    /// The nine boxes, as position lists: entry `k` is the box in column band
    /// `k / 3` and row band `k % 3`.
    pub fn box_vecs() -> (r: Vec<Vec<Position>>)
        ensures
            r@.len() == 9,
            forall|k: int| 0 <= k < 9 ==> is_box_unit((#[trigger] r@[k])@, k / 3, k % 3),
    {
        let mut v: Vec<Vec<Position>> = Vec::new();
        let mut bi: u8 = 0;
        while bi < 3
            invariant
                bi <= 3,
                v@.len() == bi * 3,
                forall|k: int| 0 <= k < v@.len() ==> is_box_unit((#[trigger] v@[k])@, k / 3, k % 3),
            decreases 3 - bi,
        {
            let mut bj: u8 = 0;
            while bj < 3
                invariant
                    bi < 3,
                    bj <= 3,
                    v@.len() == bi * 3 + bj,
                    forall|k: int|
                        0 <= k < v@.len() ==> is_box_unit((#[trigger] v@[k])@, k / 3, k % 3),
                decreases 3 - bj,
            {
                let anchor = Position::new(1 + bi * 3, 1 + bj * 3);
                let u = anchor.box_vec(true);
                proof {
                    assert(Position::band((1 + bi * 3) as u8) == bi as int);
                    assert(Position::band((1 + bj * 3) as u8) == bj as int);
                    let k = v@.len() as int;
                    assert(k / 3 == bi && k % 3 == bj) by (nonlinear_arith)
                        requires
                            k == bi * 3 + bj,
                            0 <= bi < 3,
                            0 <= bj < 3,
                    ;
                    assert forall|q: Position| #[trigger]
                        u@.contains(q) <==> (1 <= q.spec_col() <= 9 && 1 <= q.spec_row() <= 9
                            && Position::band(q.spec_col()) == bi && Position::band(q.spec_row())
                            == bj) by {}
                }
                v.push(u);
                bj = bj + 1;
            }
            bi = bi + 1;
        }
        v
    }

    /// All 27 groups: the nine rows, then the nine columns, then the nine
    /// boxes.
    pub fn unit_vecs() -> (r: Vec<Vec<Position>>)
        ensures
            r@.len() == 27,
            forall|i: int| 0 <= i < 9 ==> is_row_unit((#[trigger] r@[i])@, (i + 1) as u8),
            forall|i: int| 9 <= i < 18 ==> is_col_unit((#[trigger] r@[i])@, (i - 8) as u8),
            forall|i: int| 18 <= i < 27 ==> is_box_unit((#[trigger] r@[i])@, (i - 18) / 3, (i - 18) % 3),
            forall|i: int| 0 <= i < 27 ==> is_unit((#[trigger] r@[i])@),
    {
        let mut units: Vec<Vec<Position>> = Vec::new();
        let mut rows = Position::row_vecs();
        let mut cols = Position::col_vecs();
        let mut boxes = Position::box_vecs();
        units.append(&mut rows);
        units.append(&mut cols);
        units.append(&mut boxes);
        proof {
            assert forall|i: int| 0 <= i < 27 implies is_unit((#[trigger] units@[i])@) by {
                if i < 9 {
                    assert(is_row_unit(units@[i]@, (i + 1) as u8));
                } else if i < 18 {
                    assert(is_col_unit(units@[i]@, (i - 8) as u8));
                } else {
                    assert(is_box_unit(units@[i]@, (i - 18) / 3, (i - 18) % 3));
                }
            }
        }
        units
    }
}

} // verus!
