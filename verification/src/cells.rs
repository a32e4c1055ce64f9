//! The value domain of a grid cell: a solved value in `[1, 9]`, or the set of
//! candidate values the cell could still take.

use vstd::prelude::*;

verus! {

/// A solved cell's value: an integer in `[1, 9]`.
/// Out-of-range construction is a programming error, ruled out by `new`'s
/// precondition.
#[derive(Copy, Clone, PartialEq, Eq, Hash, Debug)]
pub struct CellValue(u8);

impl CellValue {
    /// The numeric value, for use in specifications.
    pub closed spec fn val(&self) -> u8 {
        self.0
    }

    /// The `CellValue` holding `v`, for use in specifications.
    pub closed spec fn from_spec(v: u8) -> CellValue {
        CellValue(v)
    }

    #[verifier::type_invariant]
    pub open spec fn type_inv(&self) -> bool {
        1 <= self.val() <= 9
    }

    /// Two values are equal exactly when they hold the same number.
    pub proof fn lemma_eq(a: CellValue, b: CellValue)
        ensures
            (a == b) <==> (a.val() == b.val()),
    {
    }

    pub broadcast proof fn lemma_from_spec(v: u8)
        ensures
            (#[trigger] CellValue::from_spec(v)).val() == v,
    {
    }

    pub fn new(val: u8) -> (r: Self)
        requires
            1 <= val <= 9,
        ensures
            r.val() == val,
    {
        Self(val)
    }

    pub fn get(&self) -> (r: u8)
        ensures
            r == self.val(),
            1 <= r <= 9,
    {
        proof {
            use_type_invariant(self);
        }
        self.0
    }
}

/// The candidate values of `bits` that lie in `[1, min(n, 9)]`, in increasing
/// order: value `v` is listed when `bits[v - 1]` is set.
pub closed spec fn candidate_list_up_to(bits: Seq<bool>, n: nat) -> Seq<u8>
    decreases n,
{
    if n == 0 {
        Seq::empty()
    } else {
        candidate_list_up_to(bits, (n - 1) as nat)
            + if bits[n - 1] {
                seq![n as u8]
            } else {
                Seq::empty()
            }
    }
}

/// All candidate values of `bits`, in increasing order.
pub open spec fn candidate_list(bits: Seq<bool>) -> Seq<u8> {
    candidate_list_up_to(bits, 9)
}

pub proof fn lemma_candidate_list_up_to(bits: Seq<bool>, n: nat)
    requires
        n <= 9,
        bits.len() == 9,
    ensures
        forall|j: int|
            0 <= j < candidate_list_up_to(bits, n).len() ==> {
                let v = #[trigger] candidate_list_up_to(bits, n)[j];
                1 <= v <= n && bits[v - 1]
            },
        forall|v: u8|
            1 <= v <= n && bits[v - 1] ==> candidate_list_up_to(bits, n).contains(v),
        candidate_list_up_to(bits, n).no_duplicates(),
        candidate_list_up_to(bits, n).len() <= n,
    decreases n,
{
    if n > 0 {
        lemma_candidate_list_up_to(bits, (n - 1) as nat);
        let prev = candidate_list_up_to(bits, (n - 1) as nat);
        let cur = candidate_list_up_to(bits, n);
        if bits[n - 1] {
            assert(cur == prev + seq![n as u8]);
            assert(cur.contains(n as u8)) by {
                assert(cur[cur.len() - 1] == n as u8);
            }
            assert forall|v: u8| 1 <= v <= n && bits[v - 1] implies cur.contains(v) by {
                if v < n {
                    assert(prev.contains(v));
                    let j = choose|j: int| 0 <= j < prev.len() && prev[j] == v;
                    assert(cur[j] == prev[j]);
                }
            }
        } else {
            assert(cur == prev + Seq::<u8>::empty());
            assert(cur =~= prev);
            assert forall|v: u8| 1 <= v <= n && bits[v - 1] implies cur.contains(v) by {
                assert(v != n);
                assert(prev.contains(v));
                let j = choose|j: int| 0 <= j < prev.len() && prev[j] == v;
                assert(cur[j] == prev[j]);
            }
        }
    }
}

/// The full candidate list mentions exactly the set values, each once.
pub proof fn lemma_candidate_list(bits: Seq<bool>)
    requires
        bits.len() == 9,
    ensures
        forall|j: int|
            0 <= j < candidate_list(bits).len() ==> {
                let v = #[trigger] candidate_list(bits)[j];
                1 <= v <= 9 && bits[v - 1]
            },
        forall|v: u8| 1 <= v <= 9 && bits[v - 1] ==> candidate_list(bits).contains(v),
        candidate_list(bits).no_duplicates(),
        candidate_list(bits).len() <= 9,
{
    lemma_candidate_list_up_to(bits, 9);
}

/// Whether every one of the nine candidate flags is set.
pub open spec fn is_full(c: Candidates) -> bool {
    forall|i: int| 0 <= i < 9 ==> c.bits()[i]
}

/// The candidate set with all nine flags set, for use in specifications.
pub closed spec fn full_candidates() -> Candidates {
    choose|c: Candidates| is_full(c)
}

/// With every flag set, the candidate list runs `1` to `n`.
pub proof fn lemma_candidate_list_full(bits: Seq<bool>, n: nat)
    requires
        n <= 9,
        bits.len() == 9,
        forall|i: int| 0 <= i < 9 ==> bits[i],
    ensures
        candidate_list_up_to(bits, n).len() == n,
    decreases n,
{
    if n > 0 {
        lemma_candidate_list_full(bits, (n - 1) as nat);
    }
}

/// A set of candidate values over `[1, 9]`, stored as one membership flag per
/// value.
#[derive(Copy, Clone, PartialEq, Eq, Debug)]
pub struct Candidates([bool; 9]);

impl Candidates {
    /// The membership flags: value `v` is a candidate when `bits()[v - 1]`.
    pub closed spec fn bits(&self) -> Seq<bool> {
        self.0@
    }

    /// There are always exactly nine flags.
    pub broadcast proof fn lemma_bits_len(c: Candidates)
        ensures
            (#[trigger] c.bits()).len() == 9,
    {
    }

    /// Whether value `v` is a candidate.
    pub open spec fn has(&self, v: u8) -> bool {
        1 <= v <= 9 && self.bits()[v - 1]
    }

    /// The candidates as a set of values.
    pub open spec fn to_set(&self) -> Set<u8> {
        candidate_list(self.bits()).to_set()
    }

    pub fn new(possible: [bool; 9]) -> (r: Self)
        ensures
            r.bits() == possible@,
    {
        Self(possible)
    }

    /// Candidate sets with the same flags are the same value; in particular a
    /// full set equals `full_candidates()`.
    pub proof fn lemma_bits_eq(a: Candidates, b: Candidates)
        requires
            a.bits() =~= b.bits(),
        ensures
            a == b,
    {
        assert(a.0@ =~= b.0@);
        assert(a.0 =~= b.0);
    }

    pub proof fn lemma_full(c: Candidates)
        requires
            is_full(c),
        ensures
            c == full_candidates(),
            candidate_list(c.bits()).len() == 9,
    {
        assert(is_full(full_candidates())) by {
            assert(is_full(c));
        }
        Candidates::lemma_bits_eq(c, full_candidates());
        lemma_candidate_list_full(c.bits(), 9);
    }

    /// The candidate values in increasing order.
    pub fn to_vec(&self) -> (r: Vec<CellValue>)
        ensures
            r@.map_values(|c: CellValue| c.val()) == candidate_list(self.bits()),
    {
        let mut v: Vec<CellValue> = Vec::new();
        let mut i: usize = 0;
        while i < 9
            invariant
                i <= 9,
                v@.map_values(|c: CellValue| c.val()) == candidate_list_up_to(self.bits(), i as nat),
            decreases 9 - i,
        {
            if self.0[i] {
                let cv = CellValue::new((i + 1) as u8);
                v.push(cv);
                assert(v@.map_values(|c: CellValue| c.val())
                    =~= candidate_list_up_to(self.bits(), (i + 1) as nat));
            } else {
                assert(v@.map_values(|c: CellValue| c.val())
                    =~= candidate_list_up_to(self.bits(), (i + 1) as nat));
            }
            i = i + 1;
        }
        v
    }

    /// How many candidates are set.
    pub fn count(&self) -> (r: u8)
        ensures
            r == candidate_list(self.bits()).len(),
    {
        let mut c: u8 = 0;
        let mut i: usize = 0;
        while i < 9
            invariant
                i <= 9,
                c == candidate_list_up_to(self.bits(), i as nat).len(),
                c <= i,
            decreases 9 - i,
        {
            if self.0[i] {
                c = c + 1;
            }
            i = i + 1;
        }
        c
    }

    /// The union of two candidate sets.
    pub fn combine(&self, other: &Candidates) -> (r: Candidates)
        ensures
            forall|i: int| 0 <= i < 9 ==> r.bits()[i] == (self.bits()[i] || other.bits()[i]),
    {
        let mut possible = [false; 9];
        let mut i: usize = 0;
        while i < 9
            invariant
                i <= 9,
                possible@.len() == 9,
                forall|j: int| 0 <= j < i ==> possible@[j] == (self.bits()[j] || other.bits()[j]),
                forall|j: int| i <= j < 9 ==> !possible@[j],
            decreases 9 - i,
        {
            if self.0[i] || other.0[i] {
                possible[i] = true;
            }
            i = i + 1;
        }
        Candidates(possible)
    }

    fn index(v: &CellValue) -> (r: usize)
        ensures
            r == v.val() - 1,
            r < 9,
    {
        proof {
            use_type_invariant(v);
        }
        (v.get() - 1) as usize
    }

    /// Set the flag for `v`.
    pub fn add(&mut self, v: &CellValue)
        ensures
            final(self).bits() == old(self).bits().update(v.val() - 1, true),
    {
        let i = Self::index(v);
        self.0[i] = true;
    }

    /// Clear the flag for `v`.
    pub fn remove(&mut self, v: &CellValue)
        ensures
            final(self).bits() == old(self).bits().update(v.val() - 1, false),
    {
        let i = Self::index(v);
        self.0[i] = false;
    }

    pub fn can_be(&self, v: &CellValue) -> (r: bool)
        ensures
            r == self.has(v.val()),
    {
        let i = Self::index(v);
        self.0[i]
    }

    /// Whether two candidate sets hold exactly the same values.
    pub fn eq_bits(&self, other: &Candidates) -> (r: bool)
        ensures
            r == (*self == *other),
    {
        let mut i: usize = 0;
        while i < 9
            invariant
                i <= 9,
                forall|j: int| 0 <= j < i ==> self.bits()[j] == other.bits()[j],
            decreases 9 - i,
        {
            if self.0[i] != other.0[i] {
                return false;
            }
            i = i + 1;
        }
        proof {
            assert(self.bits() =~= other.bits());
            Candidates::lemma_bits_eq(*self, *other);
        }
        true
    }
}

/// One cell of the grid: either solved, or a set of candidates.
#[derive(Copy, Clone, PartialEq, Eq, Debug)]
pub enum Cell {
    Solved(CellValue),
    Unsolved(Candidates),
}

impl Cell {
    /// Whether the cell could hold value `v`: a solved cell only its own
    /// value, an unsolved cell any of its candidates.
    pub open spec fn spec_can_be(self, v: u8) -> bool {
        match self {
            Cell::Solved(w) => w.val() == v,
            Cell::Unsolved(c) => c.has(v),
        }
    }

    /// Collapse-on-write: an unsolved cell whose candidate set has exactly one
    /// member becomes solved with that value; every other cell is unchanged.
    pub open spec fn normalize(self) -> Cell {
        match self {
            Cell::Solved(_) => self,
            Cell::Unsolved(c) => if candidate_list(c.bits()).len() == 1 {
                Cell::Solved(CellValue::from_spec(candidate_list(c.bits())[0]))
            } else {
                self
            },
        }
    }

    /// Parse one serialized cell: digits 1 to 9 are a given value, anything
    /// else leaves all nine candidates open.
    pub fn from_u8(val: u8) -> (r: Cell)
        ensures
            1 <= val <= 9 ==> r == Cell::Solved(CellValue::from_spec(val)),
            !(1 <= val <= 9) ==> r == Cell::Unsolved(full_candidates()),
            !(1 <= val <= 9) ==> is_full(full_candidates()) && candidate_list(
                full_candidates().bits(),
            ).len() == 9,
    {
        if 1 <= val && val <= 9 {
            let cv = CellValue::new(val);
            proof {
                CellValue::lemma_eq(cv, CellValue::from_spec(val));
            }
            Cell::Solved(cv)
        } else {
            let c = Candidates::new([true; 9]);
            proof {
                Candidates::lemma_full(c);
            }
            Cell::Unsolved(c)
        }
    }

    pub fn to_solved(self) -> (r: Self)
        ensures
            r == self.normalize(),
    {
        match self {
            Cell::Unsolved(c) => {
                let v = c.to_vec();
                if v.len() == 1 {
                    let cv = v[0];
                    proof {
                        assert(cv.val() == v@.map_values(|c: CellValue| c.val())[0]);
                        CellValue::lemma_eq(cv, CellValue::from_spec(candidate_list(c.bits())[0]));
                    }
                    Cell::Solved(cv)
                } else {
                    self
                }
            },
            Cell::Solved(_) => self,
        }
    }

    /// The candidate values of an unsolved cell, in increasing order.
    pub fn candidates(&self) -> (r: Option<Vec<CellValue>>)
        ensures
            r is Some <==> self is Unsolved,
            r matches Some(v) ==> v@.map_values(|c: CellValue| c.val())
                == candidate_list(self->Unsolved_0.bits()),
    {
        match self {
            Cell::Solved(_) => None,
            Cell::Unsolved(c) => Some(c.to_vec()),
        }
    }

    pub fn can_be(&self, v: &CellValue) -> (r: bool)
        ensures
            r == self.spec_can_be(v.val()),
    {
        match self {
            Cell::Solved(ov) => {
                proof {
                    CellValue::lemma_eq(*ov, *v);
                }
                v.get() == ov.get()
            },
            Cell::Unsolved(c) => c.can_be(v),
        }
    }
}

impl Candidates {
    /// The set with the flag for `v` cleared, for specifications.
    pub closed spec fn spec_remove(self, v: u8) -> Candidates {
        Candidates(vstd::array::spec_array_update(self.0, v - 1, false))
    }

    pub proof fn lemma_spec_remove(self, v: u8)
        requires
            1 <= v <= 9,
        ensures
            self.spec_remove(v).bits() == self.bits().update(v - 1, false),
    {
        broadcast use vstd::array::axiom_spec_array_update;

    }

    /// `self` with the members of `other` that lie in `[1, n]` cleared.
    pub closed spec fn minus_up_to(self, other: Candidates, n: nat) -> Candidates
        decreases n,
    {
        if n == 0 {
            self
        } else {
            let prev = self.minus_up_to(other, (n - 1) as nat);
            if other.bits()[n - 1] {
                prev.spec_remove(n as u8)
            } else {
                prev
            }
        }
    }

    /// `self` with every member of `other` cleared, for specifications.
    pub open spec fn spec_minus(self, other: Candidates) -> Candidates {
        self.minus_up_to(other, 9)
    }

    proof fn lemma_minus_up_to(self, other: Candidates, n: nat)
        requires
            n <= 9,
        ensures
            forall|i: int|
                0 <= i < 9 ==> self.minus_up_to(other, n).bits()[i] == if i < n {
                    (self.bits()[i] && !other.bits()[i])
                } else {
                    self.bits()[i]
                },
        decreases n,
    {
        if n > 0 {
            self.lemma_minus_up_to(other, (n - 1) as nat);
            let prev = self.minus_up_to(other, (n - 1) as nat);
            if other.bits()[n - 1] {
                prev.lemma_spec_remove(n as u8);
            }
        }
    }

    pub proof fn lemma_spec_minus(self, other: Candidates)
        ensures
            forall|i: int|
                0 <= i < 9 ==> self.spec_minus(other).bits()[i] == (self.bits()[i]
                    && !other.bits()[i]),
    {
        self.lemma_minus_up_to(other, 9);
    }
}

/// Fewer set flags mean a candidate list that is no longer; removing a
/// present flag makes it strictly shorter.
pub proof fn lemma_candidate_list_mono(b1: Seq<bool>, b2: Seq<bool>, n: nat)
    requires
        n <= 9,
        b1.len() == 9,
        b2.len() == 9,
        forall|i: int| 0 <= i < 9 ==> b2[i] ==> b1[i],
    ensures
        candidate_list_up_to(b2, n).len() <= candidate_list_up_to(b1, n).len(),
        (exists|i: int| 0 <= i < n && b1[i] && !b2[i]) ==> candidate_list_up_to(b2, n).len()
            < candidate_list_up_to(b1, n).len(),
    decreases n,
{
    if n > 0 {
        lemma_candidate_list_mono(b1, b2, (n - 1) as nat);
    }
}

/// A cell's remaining freedom: how many candidates an unsolved cell still
/// has; a solved cell has none.
pub open spec fn cell_weight(c: Cell) -> nat {
    match c {
        Cell::Solved(_) => 0,
        Cell::Unsolved(cd) => candidate_list(cd.bits()).len(),
    }
}

/// Normalizing a cell never increases its weight.
pub proof fn lemma_normalize_weight(c: Cell)
    ensures
        cell_weight(c.normalize()) <= cell_weight(c),
{
}

/// Clearing an absent value is a no-op: the candidate set is unchanged.
pub proof fn lemma_remove_absent(cd: Candidates, v: u8)
    requires
        1 <= v <= 9,
        !cd.has(v),
    ensures
        cd.spec_remove(v) == cd,
{
    cd.lemma_spec_remove(v);
    assert(cd.spec_remove(v).bits() =~= cd.bits());
    Candidates::lemma_bits_eq(cd.spec_remove(v), cd);
}

/// Collapse-on-write happens exactly when one candidate remains.
pub proof fn lemma_collapse(cd: Candidates)
    ensures
        (Cell::Unsolved(cd).normalize() is Solved) <==> candidate_list(cd.bits()).len() == 1,
{
}

} // verus!
