//! The delta-based mutation protocol: a strategy inspects an immutable grid
//! snapshot and proposes a `StrategyDelta`, which the solver then applies.

use vstd::prelude::*;

use crate::cells::candidate_list;
use crate::solver::hidden_n::HiddenN;
use crate::solver::naked_n::NakedN;
use crate::solver::prune_candidates::PruneCandidates;
use crate::cells::Candidates;
use crate::cells::Cell;
use crate::cells::CellValue;
use crate::grid::Grid;
use crate::pos::Position;

verus! {

broadcast use {crate::cells::Candidates::lemma_bits_len, crate::grid::Grid::lemma_len};

/// How hard a strategy is for a human: candidate pruning is trivial,
/// everything else standard.
#[derive(Copy, Clone, PartialEq, Eq, Structural, Debug)]
pub enum Difficulty {
    Trivial,
    Standard,
}

/// Difficulties in solving order: lower ranks run first.
pub open spec fn difficulty_rank(d: Difficulty) -> int {
    match d {
        Difficulty::Trivial => 0,
        Difficulty::Standard => 1,
    }
}

/// Whether a strategy made progress on the grid it inspected.
#[derive(Copy, Clone, PartialEq, Eq, Structural, Debug)]
pub enum StrategyResult {
    Success,
    Failure,
}

/// The value under the last entry for `p`, if any.
pub open spec fn assoc_get<V>(s: Seq<(Position, V)>, p: Position) -> Option<V>
    decreases s.len(),
{
    if s.len() == 0 {
        None
    } else if s.last().0 == p {
        Some(s.last().1)
    } else {
        assoc_get(s.drop_last(), p)
    }
}

/// Whether some entry is keyed by `p`.
pub open spec fn assoc_has<V>(s: Seq<(Position, V)>, p: Position) -> bool {
    assoc_get(s, p) is Some
}

/// `assoc_get` finds exactly the listed keys.
pub proof fn lemma_assoc_get_index<V>(s: Seq<(Position, V)>, p: Position)
    ensures
        assoc_has(s, p) <==> exists|i: int| 0 <= i < s.len() && (#[trigger] s[i]).0 == p,
    decreases s.len(),
{
    if s.len() > 0 {
        lemma_assoc_get_index(s.drop_last(), p);
        if s.last().0 == p {
            assert(s[s.len() - 1].0 == p);
        } else if assoc_has(s.drop_last(), p) {
            let i = choose|i: int| 0 <= i < s.len() - 1 && (#[trigger] s.drop_last()[i]).0 == p;
            assert(s[i].0 == p);
        } else {
            if exists|i: int| 0 <= i < s.len() && (#[trigger] s[i]).0 == p {
                let i = choose|i: int| 0 <= i < s.len() && (#[trigger] s[i]).0 == p;
                assert(i < s.len() - 1);
                assert(s.drop_last()[i].0 == p);
            }
        }
    }
}

/// With distinct keys, the entry at index `i` is what `assoc_get` finds.
pub proof fn lemma_assoc_get_at_index<V>(s: Seq<(Position, V)>, i: int)
    requires
        s.map_values(|e: (Position, V)| e.0).no_duplicates(),
        0 <= i < s.len(),
    ensures
        assoc_get(s, s[i].0) == Some(s[i].1),
    decreases s.len(),
{
    let keys = s.map_values(|e: (Position, V)| e.0);
    if i == s.len() - 1 {
        assert(s.last() == s[i]);
    } else {
        let prefix = s.drop_last();
        assert(prefix.map_values(|e: (Position, V)| e.0) =~= keys.drop_last());
        lemma_assoc_get_at_index(prefix, i);
        assert(keys[i] == s[i].0);
        assert(keys[s.len() - 1] == s.last().0);
        assert(s.last().0 != s[i].0);
        assert(prefix[i] == s[i]);
    }
}

/// Updating the entry at `i` rewrites its key's value and nothing else.
pub proof fn lemma_assoc_get_update<V>(s: Seq<(Position, V)>, i: int, e: (Position, V))
    requires
        s.map_values(|e2: (Position, V)| e2.0).no_duplicates(),
        0 <= i < s.len(),
        s[i].0 == e.0,
    ensures
        assoc_get(s.update(i, e), e.0) == Some(e.1),
        forall|q: Position| q != e.0 ==> assoc_get(s.update(i, e), q) == assoc_get(s, q),
    decreases s.len(),
{
    let s2 = s.update(i, e);
    let keys = s.map_values(|e2: (Position, V)| e2.0);
    if i == s.len() - 1 {
        assert(s2.last() == e);
        assert(s2.drop_last() =~= s.drop_last());
        assert forall|q: Position| q != e.0 implies assoc_get(s2, q) == assoc_get(s, q) by {
            assert(assoc_get(s2, q) == assoc_get(s2.drop_last(), q));
            assert(assoc_get(s, q) == assoc_get(s.drop_last(), q));
        }
    } else {
        let prefix = s.drop_last();
        assert(prefix.map_values(|e2: (Position, V)| e2.0) =~= keys.drop_last());
        assert(prefix[i] == s[i]);
        lemma_assoc_get_update(prefix, i, e);
        assert(s2.last() == s.last());
        assert(s2.drop_last() =~= prefix.update(i, e));
        assert(keys[i] == e.0);
        assert(keys[s.len() - 1] == s.last().0);
        assert(s.last().0 != e.0);
        assert(assoc_get(s2, e.0) == assoc_get(prefix.update(i, e), e.0));
        assert forall|q: Position| q != e.0 implies assoc_get(s2, q) == assoc_get(s, q) by {
            if s.last().0 == q {
            } else {
                assert(assoc_get(s2, q) == assoc_get(prefix.update(i, e), q));
                assert(assoc_get(s, q) == assoc_get(prefix, q));
            }
        }
    }
}

/// Appending an entry with a fresh key adds it and disturbs nothing else.
pub proof fn lemma_assoc_get_push<V>(s: Seq<(Position, V)>, e: (Position, V))
    ensures
        assoc_get(s.push(e), e.0) == Some(e.1),
        forall|q: Position| q != e.0 ==> assoc_get(s.push(e), q) == assoc_get(s, q),
{
    let s2 = s.push(e);
    assert(s2.last() == e);
    assert(s2.drop_last() =~= s);
}

/// A strategy's proposed mutation: cells to solve, and candidates to
/// eliminate from cells.
pub struct StrategyDelta {
    solve: Vec<(Position, CellValue)>,
    eliminate: Vec<(Position, Candidates)>,
}

impl StrategyDelta {
    /// A well-formed delta: per-position entries, each elimination set
    /// non-empty, every position in range.
    pub open spec fn wf(&self) -> bool {
        &&& self.solves().map_values(|e: (Position, CellValue)| e.0).no_duplicates()
        &&& self.elims().map_values(|e: (Position, Candidates)| e.0).no_duplicates()
        &&& forall|i: int|
            0 <= i < self.elims().len() ==> candidate_list(
                (#[trigger] self.elims()[i]).1.bits(),
            ).len() >= 1
        &&& forall|i: int|
            0 <= i < self.solves().len() ==> {
                let p = (#[trigger] self.solves()[i]).0;
                1 <= p.spec_col() <= 9 && 1 <= p.spec_row() <= 9
            }
        &&& forall|i: int|
            0 <= i < self.elims().len() ==> {
                let p = (#[trigger] self.elims()[i]).0;
                1 <= p.spec_col() <= 9 && 1 <= p.spec_row() <= 9
            }
        &&& forall|i: int|
            0 <= i < self.solves().len() ==> 1 <= (#[trigger] self.solves()[i]).1.val() <= 9
    }

    /// The entries proposing values, for specifications.
    pub closed spec fn solves(&self) -> Seq<(Position, CellValue)> {
        self.solve@
    }

    /// The entries proposing eliminations, for specifications.
    pub closed spec fn elims(&self) -> Seq<(Position, Candidates)> {
        self.eliminate@
    }

    /// The value this delta proposes to solve `p` with.
    pub open spec fn spec_solved(&self, p: Position) -> Option<CellValue> {
        assoc_get(self.solves(), p)
    }

    /// The candidate values this delta proposes to remove at `p`.
    pub open spec fn spec_elims(&self, p: Position) -> Set<u8> {
        match assoc_get(self.elims(), p) {
            Some(c) => c.to_set(),
            None => Set::empty(),
        }
    }

    /// An empty delta proposes nothing: the strategy made no progress.
    pub open spec fn spec_is_empty(&self) -> bool {
        self.solves().len() == 0 && self.elims().len() == 0
    }

    pub fn new() -> (r: Self)
        ensures
            r.wf(),
            r.spec_is_empty(),
            forall|p: Position| r.spec_solved(p) is None,
            forall|p: Position| r.spec_elims(p) =~= Set::<u8>::empty(),
    {
        StrategyDelta { solve: Vec::new(), eliminate: Vec::new() }
    }

    pub fn is_empty(&self) -> (r: bool)
        ensures
            r == self.spec_is_empty(),
    {
        self.solve.len() == 0 && self.eliminate.len() == 0
    }

    /// Whether applying this delta would change anything.
    pub fn result(&self) -> (r: StrategyResult)
        ensures
            (r is Success) == !self.spec_is_empty(),
    {
        if self.is_empty() {
            StrategyResult::Failure
        } else {
            StrategyResult::Success
        }
    }

    /// Propose solving `pos` with `v`, replacing any earlier proposal there.
    pub fn solve(&mut self, pos: Position, v: CellValue)
        requires
            old(self).wf(),
        ensures
            final(self).wf(),
            final(self).spec_solved(pos) == Some(v),
            forall|q: Position| q != pos ==> final(self).spec_solved(q) == old(self).spec_solved(q),
            final(self).elims() == old(self).elims(),
            !final(self).spec_is_empty(),
    {
        proof {
            use_type_invariant(&pos);
            use_type_invariant(&v);
        }
        let ghost s0 = self.solve@;
        let n = self.solve.len();
        let mut i: usize = 0;
        while i < n
            invariant
                self.solve@ == s0,
                s0 == old(self).solve@,
                self.eliminate@ == old(self).eliminate@,
                old(self).wf(),
                n == s0.len(),
                i <= n,
                1 <= pos.spec_col() <= 9,
                1 <= pos.spec_row() <= 9,
                1 <= v.val() <= 9,
                forall|j: int| 0 <= j < i ==> (#[trigger] s0[j]).0 != pos,
            decreases n - i,
        {
            if self.solve[i].0 == pos {
                let ghost keys = s0.map_values(|e: (Position, CellValue)| e.0);
                self.solve.set(i, (pos, v));
                proof {
                    lemma_assoc_get_update(s0, i as int, (pos, v));
                    assert(self.solve@.map_values(|e: (Position, CellValue)| e.0) =~= keys);
                }
                return ;
            }
            i = i + 1;
        }
        let ghost keys = s0.map_values(|e: (Position, CellValue)| e.0);
        self.solve.push((pos, v));
        proof {
            lemma_assoc_get_push(s0, (pos, v));
            assert(self.solve@.map_values(|e: (Position, CellValue)| e.0) =~= keys.push(pos));
            assert forall|j: int| 0 <= j < keys.len() implies keys[j] != pos by {
                assert(s0[j].0 != pos);
            }
            assert(self.solve@.map_values(|e: (Position, CellValue)| e.0).no_duplicates());
        }
    }

    /// Propose removing candidate `v` at `pos`, joining any earlier
    /// eliminations there.
    #[verifier::rlimit(50)]
    pub fn eliminate(&mut self, pos: Position, v: CellValue)
        requires
            old(self).wf(),
        ensures
            final(self).wf(),
            final(self).spec_elims(pos) =~= old(self).spec_elims(pos).insert(v.val()),
            forall|q: Position| q != pos ==> final(self).spec_elims(q) == old(self).spec_elims(q),
            final(self).solves() == old(self).solves(),
            !final(self).spec_is_empty(),
            forall|q: Position| assoc_has(final(self).elims(), q) <==> (assoc_has(
                old(self).elims(),
                q,
            ) || q == pos),
    {
        proof {
            use_type_invariant(&pos);
            use_type_invariant(&v);
        }
        let ghost s0 = self.eliminate@;
        let n = self.eliminate.len();
        let mut i: usize = 0;
        while i < n
            invariant
                self.eliminate@ == s0,
                s0 == old(self).eliminate@,
                self.solve@ == old(self).solve@,
                old(self).wf(),
                n == s0.len(),
                i <= n,
                1 <= pos.spec_col() <= 9,
                1 <= pos.spec_row() <= 9,
                1 <= v.val() <= 9,
                forall|j: int| 0 <= j < i ==> (#[trigger] s0[j]).0 != pos,
            decreases n - i,
        {
            if self.eliminate[i].0 == pos {
                let mut pair = self.eliminate.remove(i);
                let ghost c0 = pair.1;
                pair.1.add(&v);
                self.eliminate.insert(i, pair);
                proof {
                    assert(self.eliminate@ =~= s0.update(i as int, pair));
                    let keys = s0.map_values(|e: (Position, Candidates)| e.0);
                    lemma_assoc_get_update(s0, i as int, pair);
                    lemma_assoc_get_at_index(s0, i as int);
                    assert(self.eliminate@.map_values(|e: (Position, Candidates)| e.0) =~= keys);
                    // the stored set gains exactly v
                    crate::cells::lemma_candidate_list(c0.bits());
                    crate::cells::lemma_candidate_list(pair.1.bits());
                    assert(pair.1.bits() == c0.bits().update(v.val() - 1, true));
                    assert forall|x: u8| #[trigger]
                        pair.1.to_set().contains(x) implies c0.to_set().insert(v.val()).contains(
                        x,
                    ) by {
                        assert(pair.1.has(x));
                        if x != v.val() {
                            assert(c0.has(x));
                        }
                    }
                    assert forall|x: u8| c0.to_set().insert(v.val()).contains(x) implies #[trigger]
                        pair.1.to_set().contains(x) by {
                        if c0.to_set().contains(x) {
                            assert(c0.has(x));
                            assert(pair.1.has(x));
                        } else {
                            assert(pair.1.has(v.val()));
                        }
                    }
                    assert(pair.1.to_set() =~= c0.to_set().insert(v.val()));
                    assert(pair.1.to_set().contains(v.val()));
                    assert(candidate_list(pair.1.bits()).len() >= 1) by {
                        assert(candidate_list(pair.1.bits()).contains(v.val()));
                    }
                }
                return ;
            }
            i = i + 1;
        }
        let base = [false; 9];
        proof {
            broadcast use vstd::array::axiom_spec_array_fill_for_copy_type;

            assert(base == vstd::array::spec_array_fill_for_copy_type::<bool, 9>(false));
            assert(forall|i: int| 0 <= i < 9 ==> !base@[i]);
        }
        let mut c = Candidates::new(base);
        c.add(&v);
        let ghost keys = s0.map_values(|e: (Position, Candidates)| e.0);
        self.eliminate.push((pos, c));
        proof {
            lemma_assoc_get_push(s0, (pos, c));
            assert(self.eliminate@.map_values(|e: (Position, Candidates)| e.0) =~= keys.push(pos));
            assert forall|j: int| 0 <= j < keys.len() implies keys[j] != pos by {
                assert(s0[j].0 != pos);
            }
            assert(self.eliminate@.map_values(|e: (Position, Candidates)| e.0).no_duplicates());
            crate::cells::lemma_candidate_list(c.bits());
            // the new set holds exactly v
            assert(c.has(v.val()));
            assert forall|x: u8| #[trigger] c.to_set().contains(x) implies Set::<u8>::empty().insert(
                v.val(),
            ).contains(x) by {
                assert(c.has(x));
                if x != v.val() {
                    assert(c.bits()[x - 1]);
                }
            }
            assert forall|x: u8| Set::<u8>::empty().insert(v.val()).contains(x) implies #[trigger] c
                .to_set().contains(x) by {
                assert(c.has(v.val()));
            }
            assert(c.to_set() =~= Set::<u8>::empty().insert(v.val()));
            assert(candidate_list(c.bits()).len() >= 1) by {
                assert(candidate_list(c.bits()).contains(v.val()));
            }
            // the missing entry reads as the empty set
            lemma_assoc_get_index(s0, pos);
            assert(old(self).spec_elims(pos) =~= Set::<u8>::empty());
        }
    }
}

/// Looking up in a concatenation: the right-hand entries win.
pub proof fn lemma_assoc_get_concat<V>(a: Seq<(Position, V)>, b: Seq<(Position, V)>, p: Position)
    ensures
        assoc_get(a + b, p) == if assoc_has(b, p) {
            assoc_get(b, p)
        } else {
            assoc_get(a, p)
        },
    decreases b.len(),
{
    if b.len() == 0 {
        assert(a + b =~= a);
    } else {
        assert((a + b).last() == b.last());
        assert((a + b).drop_last() =~= a + b.drop_last());
        lemma_assoc_get_concat(a, b.drop_last(), p);
    }
}

impl StrategyDelta {
    /// Merge another delta into this one. The two must not propose changes at
    /// a common position: the engine does not arbitrate conflicting deltas,
    /// so this is the caller's obligation.
    pub fn extend(&mut self, other: StrategyDelta)
        requires
            old(self).wf(),
            other.wf(),
            forall|p: Position|
                !(assoc_has(old(self).solves(), p) && assoc_has(#[trigger] other.solves(), p)),
            forall|p: Position|
                !(assoc_has(old(self).elims(), p) && assoc_has(#[trigger] other.elims(), p)),
        ensures
            final(self).wf(),
            final(self).solves() == old(self).solves() + other.solves(),
            final(self).elims() == old(self).elims() + other.elims(),
            forall|p: Position|
                final(self).spec_solved(p) == if assoc_has(other.solves(), p) {
                    other.spec_solved(p)
                } else {
                    old(self).spec_solved(p)
                },
            forall|p: Position|
                final(self).spec_elims(p) == if assoc_has(other.elims(), p) {
                    other.spec_elims(p)
                } else {
                    old(self).spec_elims(p)
                },
            final(self).spec_is_empty() == (old(self).spec_is_empty() && other.spec_is_empty()),
    {
        let StrategyDelta { solve: mut os, eliminate: mut oe } = other;
        proof {
            lemma_concat_keys_no_duplicates(old(self).solves(), os@);
            lemma_concat_keys_no_duplicates(old(self).elims(), oe@);
        }
        self.solve.append(&mut os);
        self.eliminate.append(&mut oe);
        proof {
            assert forall|p: Position|
                final(self).spec_solved(p) == (if assoc_has(other.solves(), p) {
                    other.spec_solved(p)
                } else {
                    old(self).spec_solved(p)
                }) by {
                lemma_assoc_get_concat(old(self).solves(), other.solves(), p);
            }
            assert forall|p: Position|
                final(self).spec_elims(p) == (if assoc_has(other.elims(), p) {
                    other.spec_elims(p)
                } else {
                    old(self).spec_elims(p)
                }) by {
                lemma_assoc_get_concat(old(self).elims(), other.elims(), p);
            }
        }
    }
}

/// Key distinctness survives concatenating per-position entry lists with no
/// common key.
proof fn lemma_concat_keys_no_duplicates<V>(a: Seq<(Position, V)>, b: Seq<(Position, V)>)
    requires
        a.map_values(|e: (Position, V)| e.0).no_duplicates(),
        b.map_values(|e: (Position, V)| e.0).no_duplicates(),
        forall|p: Position| !(assoc_has(a, p) && assoc_has(b, p)),
    ensures
        (a + b).map_values(|e: (Position, V)| e.0).no_duplicates(),
{
    let ka = a.map_values(|e: (Position, V)| e.0);
    let kb = b.map_values(|e: (Position, V)| e.0);
    let kc = (a + b).map_values(|e: (Position, V)| e.0);
    assert(kc =~= ka + kb);
    assert forall|i: int, j: int| 0 <= i < j < kc.len() implies kc[i] != kc[j] by {
        if i < ka.len() && j >= ka.len() {
            if kc[i] == kc[j] {
                let p = kc[i];
                assert(a[i].0 == p);
                assert(b[j - ka.len()].0 == p);
                lemma_assoc_get_index(a, p);
                lemma_assoc_get_index(b, p);
            }
        } else if j < ka.len() {
            assert(ka[i] == kc[i] && ka[j] == kc[j]);
        } else {
            assert(kb[i - ka.len()] == kc[i] && kb[j - ka.len()] == kc[j]);
        }
    }
}

/// The cells after writing each proposed value, in entry order.
pub open spec fn apply_solves(cells: Seq<Cell>, s: Seq<(Position, CellValue)>) -> Seq<Cell>
    decreases s.len(),
{
    if s.len() == 0 {
        cells
    } else {
        apply_solves(cells, s.drop_last()).update(
            s.last().0.spec_index(),
            Cell::Solved(s.last().1),
        )
    }
}

/// One elimination applied to one cell: a still-unsolved cell loses the
/// listed candidates and collapses if one remains; a solved cell is left
/// alone.
pub open spec fn elim_cell(c: Cell, prune: Candidates) -> Cell {
    match c {
        Cell::Unsolved(cd) => Cell::Unsolved(cd.spec_minus(prune)).normalize(),
        Cell::Solved(_) => c,
    }
}

/// The cells after applying each proposed elimination, in entry order.
pub open spec fn apply_elims(cells: Seq<Cell>, e: Seq<(Position, Candidates)>) -> Seq<Cell>
    decreases e.len(),
{
    if e.len() == 0 {
        cells
    } else {
        let prev = apply_elims(cells, e.drop_last());
        let idx = e.last().0.spec_index();
        prev.update(idx, elim_cell(prev[idx], e.last().1))
    }
}

/// Applying a delta: all solves first, then all eliminations.
pub open spec fn spec_apply(d: StrategyDelta, cells: Seq<Cell>) -> Seq<Cell> {
    apply_elims(apply_solves(cells, d.solves()), d.elims())
}

/// Solves land exactly at their positions; everything else is untouched.
pub proof fn lemma_apply_solves_pointwise(cells: Seq<Cell>, s: Seq<(Position, CellValue)>)
    requires
        cells.len() == 81,
        s.map_values(|e: (Position, CellValue)| e.0).no_duplicates(),
        forall|i: int|
            0 <= i < s.len() ==> {
                let p = (#[trigger] s[i]).0;
                1 <= p.spec_col() <= 9 && 1 <= p.spec_row() <= 9
            },
    ensures
        apply_solves(cells, s).len() == 81,
        forall|i: int|
            0 <= i < s.len() ==> apply_solves(cells, s)[(#[trigger] s[i]).0.spec_index()]
                == Cell::Solved(s[i].1),
        forall|j: int|
            0 <= j < 81 && (forall|i: int|
                0 <= i < s.len() ==> (#[trigger] s[i]).0.spec_index() != j) ==> apply_solves(
                cells,
                s,
            )[j] == cells[j],
    decreases s.len(),
{
    if s.len() > 0 {
        let prefix = s.drop_last();
        assert(prefix.map_values(|e: (Position, CellValue)| e.0) =~= s.map_values(
            |e: (Position, CellValue)| e.0,
        ).drop_last());
        lemma_apply_solves_pointwise(cells, prefix);
        let res = apply_solves(cells, s);
        let prev = apply_solves(cells, prefix);
        let last = s.last();
        assert forall|i: int|
            0 <= i < s.len() implies res[(#[trigger] s[i]).0.spec_index()] == Cell::Solved(
            s[i].1,
        ) by {
            if i == s.len() - 1 {
            } else {
                assert(prefix[i] == s[i]);
                assert(prev[s[i].0.spec_index()] == Cell::Solved(s[i].1));
                // distinct keys have distinct layout offsets
                if s[i].0.spec_index() == last.0.spec_index() {
                    Position::lemma_index_injective(s[i].0, last.0);
                    let keys = s.map_values(|e: (Position, CellValue)| e.0);
                    assert(keys[i] == s[i].0);
                    assert(keys[s.len() - 1] == last.0);
                }
            }
        }
        assert forall|j: int|
            0 <= j < 81 && (forall|i: int|
                0 <= i < s.len() ==> (#[trigger] s[i]).0.spec_index() != j) implies res[j]
            == cells[j] by {
            assert(forall|i: int| 0 <= i < prefix.len() ==> (#[trigger] prefix[i]).0.spec_index() != j);
            assert(s[s.len() - 1].0.spec_index() != j);
        }
    }
}

/// Eliminations act exactly at their positions on the post-solve cells;
/// everything else is untouched.
pub proof fn lemma_apply_elims_pointwise(cells: Seq<Cell>, e: Seq<(Position, Candidates)>)
    requires
        cells.len() == 81,
        e.map_values(|x: (Position, Candidates)| x.0).no_duplicates(),
        forall|i: int|
            0 <= i < e.len() ==> {
                let p = (#[trigger] e[i]).0;
                1 <= p.spec_col() <= 9 && 1 <= p.spec_row() <= 9
            },
    ensures
        apply_elims(cells, e).len() == 81,
        forall|i: int|
            0 <= i < e.len() ==> apply_elims(cells, e)[(#[trigger] e[i]).0.spec_index()]
                == elim_cell(cells[e[i].0.spec_index()], e[i].1),
        forall|j: int|
            0 <= j < 81 && (forall|i: int|
                0 <= i < e.len() ==> (#[trigger] e[i]).0.spec_index() != j) ==> apply_elims(
                cells,
                e,
            )[j] == cells[j],
    decreases e.len(),
{
    if e.len() > 0 {
        let prefix = e.drop_last();
        assert(prefix.map_values(|x: (Position, Candidates)| x.0) =~= e.map_values(
            |x: (Position, Candidates)| x.0,
        ).drop_last());
        lemma_apply_elims_pointwise(cells, prefix);
        let res = apply_elims(cells, e);
        let prev = apply_elims(cells, prefix);
        let last = e.last();
        let lidx = last.0.spec_index();
        // the last entry's position was untouched by the prefix
        assert(forall|i: int|
            0 <= i < prefix.len() ==> (#[trigger] prefix[i]).0.spec_index() != lidx) by {
            assert forall|i: int|
                0 <= i < prefix.len() implies (#[trigger] prefix[i]).0.spec_index() != lidx by {
                if prefix[i].0.spec_index() == lidx {
                    Position::lemma_index_injective(prefix[i].0, last.0);
                    let keys = e.map_values(|x: (Position, Candidates)| x.0);
                    assert(e[i] == prefix[i]);
                    assert(keys[i] == e[i].0);
                    assert(keys[e.len() - 1] == last.0);
                }
            }
        }
        assert(prev[lidx] == cells[lidx]);
        assert forall|i: int|
            0 <= i < e.len() implies res[(#[trigger] e[i]).0.spec_index()] == elim_cell(
            cells[e[i].0.spec_index()],
            e[i].1,
        ) by {
            if i == e.len() - 1 {
            } else {
                assert(prefix[i] == e[i]);
                assert(prev[e[i].0.spec_index()] == elim_cell(cells[e[i].0.spec_index()], e[i].1));
                if e[i].0.spec_index() == lidx {
                    Position::lemma_index_injective(e[i].0, last.0);
                    let keys = e.map_values(|x: (Position, Candidates)| x.0);
                    assert(keys[i] == e[i].0);
                    assert(keys[e.len() - 1] == last.0);
                }
            }
        }
        assert forall|j: int|
            0 <= j < 81 && (forall|i: int|
                0 <= i < e.len() ==> (#[trigger] e[i]).0.spec_index() != j) implies res[j]
            == cells[j] by {
            assert(forall|i: int|
                0 <= i < prefix.len() ==> (#[trigger] prefix[i]).0.spec_index() != j);
            assert(e[e.len() - 1].0.spec_index() != j);
        }
    }
}

impl StrategyDelta {
    /// Apply the delta to the grid: write every proposed value, then remove
    /// every proposed candidate, collapsing cells left with one candidate.
    /// Eliminating a candidate already absent changes nothing.
    pub fn apply(&self, grid: &mut Grid)
        requires
            self.wf(),
        ensures
            final(grid)@ == spec_apply(*self, old(grid)@),
    {
        let mut i: usize = 0;
        let ns = self.solve.len();
        while i < ns
            invariant
                self.wf(),
                ns == self.solves().len(),
                i <= ns,
                grid@ == apply_solves(old(grid)@, self.solves().subrange(0, i as int)),
            decreases ns - i,
        {
            let (p, v) = self.solve[i];
            grid.set_cell(p, Cell::Solved(v));
            proof {
                let pre = self.solves().subrange(0, i as int);
                let cur = self.solves().subrange(0, i + 1);
                assert(cur.drop_last() =~= pre);
                assert(cur.last() == self.solves()[i as int]);
                assert(Cell::Solved(v).normalize() == Cell::Solved(v));
            }
            i = i + 1;
        }
        proof {
            assert(self.solves().subrange(0, self.solves().len() as int) =~= self.solves());
        }
        let mut k: usize = 0;
        let ne = self.eliminate.len();
        let ghost solved_cells = apply_solves(old(grid)@, self.solves());
        while k < ne
            invariant
                self.wf(),
                ne == self.elims().len(),
                k <= ne,
                solved_cells == apply_solves(old(grid)@, self.solves()),
                grid@ == apply_elims(solved_cells, self.elims().subrange(0, k as int)),
            decreases ne - k,
        {
            let (p, to_prune) = self.eliminate[k];
            let cell = grid.get_cell(p);
            proof {
                let pre = self.elims().subrange(0, k as int);
                let cur = self.elims().subrange(0, k + 1);
                assert(cur.drop_last() =~= pre);
                assert(cur.last() == self.elims()[k as int]);
            }
            match cell {
                Cell::Unsolved(cand) => {
                    let vals = to_prune.to_vec();
                    let mut pruned = cand;
                    let mut j: usize = 0;
                    let ghost lst = candidate_list(to_prune.bits());
                    proof {
                        crate::cells::lemma_candidate_list(to_prune.bits());
                        crate::cells::lemma_candidate_list(cand.bits());
                    }
                    while j < vals.len()
                        invariant
                            vals@.map_values(|c: CellValue| c.val()) == lst,
                            lst == candidate_list(to_prune.bits()),
                            j <= vals@.len(),
                            forall|t: int|
                                0 <= t < 9 ==> pruned.bits()[t] == (cand.bits()[t]
                                    && !lst.subrange(0, j as int).contains((t + 1) as u8)),
                            forall|jj: int|
                                0 <= jj < lst.len() ==> 1 <= #[trigger] lst[jj] <= 9,
                        decreases vals@.len() - j,
                    {
                        let v = vals[j];
                        proof {
                            assert(v.val() == lst[j as int]);
                        }
                        pruned.remove(&v);
                        proof {
                            let prelst = lst.subrange(0, j as int);
                            let curlst = lst.subrange(0, j + 1);
                            assert(curlst.drop_last() =~= prelst);
                            assert(curlst.last() == lst[j as int]);
                            assert forall|t: int|
                                0 <= t < 9 implies pruned.bits()[t] == (cand.bits()[t]
                                && !curlst.contains((t + 1) as u8)) by {
                                if curlst.contains((t + 1) as u8) {
                                    let w = choose|w: int|
                                        0 <= w < curlst.len() && curlst[w] == (t + 1) as u8;
                                    if w < prelst.len() {
                                        assert(prelst[w] == (t + 1) as u8);
                                    }
                                } else {
                                    assert(!prelst.contains((t + 1) as u8)) by {
                                        if prelst.contains((t + 1) as u8) {
                                            let w = choose|w: int|
                                                0 <= w < prelst.len() && prelst[w] == (t
                                                    + 1) as u8;
                                            assert(curlst[w] == (t + 1) as u8);
                                        }
                                    }
                                }
                            }
                        }
                        j = j + 1;
                    }
                    proof {
                        assert(lst.subrange(0, lst.len() as int) =~= lst);
                        cand.lemma_spec_minus(to_prune);
                        assert forall|t: int|
                            0 <= t < 9 implies pruned.bits()[t] == cand.spec_minus(
                            to_prune,
                        ).bits()[t] by {
                            if lst.contains((t + 1) as u8) {
                                assert(to_prune.has((t + 1) as u8));
                            } else {
                                if to_prune.bits()[t] {
                                    assert(lst.contains((t + 1) as u8));
                                }
                            }
                        }
                        Candidates::lemma_bits_eq(pruned, cand.spec_minus(to_prune));
                    }
                    grid.set_cell(p, Cell::Unsolved(pruned));
                },
                Cell::Solved(_) => {
                    proof {
                        let idx = p.spec_index();
                        assert(self.elims()[k as int].0 == p);
                        assert(0 <= idx < 81);
                        assert(elim_cell(grid@[idx], to_prune) == grid@[idx]);
                        assert(grid@.update(idx, grid@[idx]) =~= grid@);
                    }
                },
            }
            k = k + 1;
        }
        proof {
            assert(self.elims().subrange(0, self.elims().len() as int) =~= self.elims());
        }
    }
}

/// The grid's remaining freedom: the total weight of its cells.
pub open spec fn grid_weight(cells: Seq<Cell>) -> nat
    decreases cells.len(),
{
    if cells.len() == 0 {
        0
    } else {
        grid_weight(cells.drop_last()) + crate::cells::cell_weight(cells.last())
    }
}

/// Exchanging one cell exchanges its weight.
pub proof fn lemma_grid_weight_update(cells: Seq<Cell>, i: int, c: Cell)
    requires
        0 <= i < cells.len(),
    ensures
        grid_weight(cells.update(i, c)) + crate::cells::cell_weight(cells[i]) == grid_weight(cells)
            + crate::cells::cell_weight(c),
    decreases cells.len(),
{
    let c2 = cells.update(i, c);
    if i == cells.len() - 1 {
        assert(c2.last() == c);
        assert(c2.drop_last() =~= cells.drop_last());
    } else {
        assert(c2.last() == cells.last());
        assert(c2.drop_last() =~= cells.drop_last().update(i, c));
        lemma_grid_weight_update(cells.drop_last(), i, c);
        assert(cells.drop_last()[i] == cells[i]);
    }
}

/// A delta that only proposes changes the grid can absorb: solved values and
/// eliminated candidates are still open at still-unsolved cells. Every
/// strategy returns grounded deltas, which is what makes the solving loop
/// terminate.
pub open spec fn delta_grounded(d: StrategyDelta, cells: Seq<Cell>) -> bool {
    &&& forall|i: int|
        0 <= i < d.solves().len() ==> {
            let p = (#[trigger] d.solves()[i]).0;
            let v = d.solves()[i].1;
            &&& cells[p.spec_index()] is Unsolved
            &&& cells[p.spec_index()].spec_can_be(v.val())
        }
    &&& forall|i: int|
        0 <= i < d.elims().len() ==> {
            let p = (#[trigger] d.elims()[i]).0;
            let c = d.elims()[i].1;
            &&& cells[p.spec_index()] is Unsolved
            &&& forall|v: u8| c.to_set().contains(v) ==> cells[p.spec_index()].spec_can_be(v)
        }
}

/// An unsolved cell that can still be `v` carries weight.
proof fn lemma_unsolved_weight(c: Cell, v: u8)
    requires
        c is Unsolved,
        c.spec_can_be(v),
    ensures
        crate::cells::cell_weight(c) >= 1,
{
    match c {
        Cell::Unsolved(cd) => {
            crate::cells::lemma_candidate_list(cd.bits());
            assert(candidate_list(cd.bits()).contains(v));
        },
        Cell::Solved(_) => {},
    }
}

/// One elimination never raises a cell's weight, and strictly lowers it when
/// it removes a candidate that was present.
proof fn lemma_elim_cell_weight(c: Cell, prune: Candidates)
    ensures
        crate::cells::cell_weight(elim_cell(c, prune)) <= crate::cells::cell_weight(c),
        (c is Unsolved && exists|v: u8| prune.to_set().contains(v) && c.spec_can_be(v))
            ==> crate::cells::cell_weight(elim_cell(c, prune)) < crate::cells::cell_weight(c),
{
    match c {
        Cell::Unsolved(cd) => {
            let m = cd.spec_minus(prune);
            cd.lemma_spec_minus(prune);
            crate::cells::lemma_candidate_list_mono(cd.bits(), m.bits(), 9);
            crate::cells::lemma_normalize_weight(Cell::Unsolved(m));
            if exists|v: u8| prune.to_set().contains(v) && c.spec_can_be(v) {
                let v = choose|v: u8| prune.to_set().contains(v) && c.spec_can_be(v);
                crate::cells::lemma_candidate_list(prune.bits());
                assert(prune.has(v));
                assert(cd.bits()[v - 1] && !m.bits()[v - 1]);
            }
        },
        Cell::Solved(_) => {},
    }
}

/// Applying the solves of a well-formed grounded delta lowers the grid's
/// weight for each entry.
proof fn lemma_solves_weight(cells: Seq<Cell>, s: Seq<(Position, CellValue)>)
    requires
        cells.len() == 81,
        s.map_values(|e: (Position, CellValue)| e.0).no_duplicates(),
        forall|i: int|
            0 <= i < s.len() ==> {
                let p = (#[trigger] s[i]).0;
                1 <= p.spec_col() <= 9 && 1 <= p.spec_row() <= 9
            },
        forall|i: int|
            0 <= i < s.len() ==> {
                let p = (#[trigger] s[i]).0;
                let v = s[i].1;
                cells[p.spec_index()] is Unsolved && cells[p.spec_index()].spec_can_be(v.val())
            },
    ensures
        apply_solves(cells, s).len() == 81,
        grid_weight(apply_solves(cells, s)) <= grid_weight(cells),
        s.len() > 0 ==> grid_weight(apply_solves(cells, s)) < grid_weight(cells),
    decreases s.len(),
{
    if s.len() > 0 {
        let prefix = s.drop_last();
        assert(prefix.map_values(|e: (Position, CellValue)| e.0) =~= s.map_values(
            |e: (Position, CellValue)| e.0,
        ).drop_last());
        lemma_solves_weight(cells, prefix);
        lemma_apply_solves_pointwise(cells, prefix);
        let prev = apply_solves(cells, prefix);
        let last = s.last();
        let idx = last.0.spec_index();
        assert(forall|i: int|
            0 <= i < prefix.len() ==> (#[trigger] prefix[i]).0.spec_index() != idx) by {
            assert forall|i: int|
                0 <= i < prefix.len() implies (#[trigger] prefix[i]).0.spec_index() != idx by {
                if prefix[i].0.spec_index() == idx {
                    Position::lemma_index_injective(prefix[i].0, last.0);
                    let keys = s.map_values(|e: (Position, CellValue)| e.0);
                    assert(s[i] == prefix[i]);
                    assert(keys[i] == s[i].0);
                    assert(keys[s.len() - 1] == last.0);
                }
            }
        }
        assert(prev[idx] == cells[idx]);
        lemma_grid_weight_update(prev, idx, Cell::Solved(last.1));
        lemma_unsolved_weight(cells[idx], last.1.val());
    }
}

/// Applying eliminations never raises the grid's weight; with every entry
/// grounded in `cells`, a non-empty list strictly lowers it.
proof fn lemma_elims_weight(cells: Seq<Cell>, e: Seq<(Position, Candidates)>)
    requires
        cells.len() == 81,
        e.map_values(|x: (Position, Candidates)| x.0).no_duplicates(),
        forall|i: int|
            0 <= i < e.len() ==> {
                let p = (#[trigger] e[i]).0;
                1 <= p.spec_col() <= 9 && 1 <= p.spec_row() <= 9
            },
    ensures
        apply_elims(cells, e).len() == 81,
        grid_weight(apply_elims(cells, e)) <= grid_weight(cells),
        (e.len() > 0 && (forall|i: int|
            0 <= i < e.len() ==> {
                let p = (#[trigger] e[i]).0;
                let c = e[i].1;
                &&& cells[p.spec_index()] is Unsolved
                &&& (exists|v: u8| c.to_set().contains(v) && cells[p.spec_index()].spec_can_be(v))
            })) ==> grid_weight(apply_elims(cells, e)) < grid_weight(cells),
    decreases e.len(),
{
    if e.len() > 0 {
        let prefix = e.drop_last();
        assert(prefix.map_values(|x: (Position, Candidates)| x.0) =~= e.map_values(
            |x: (Position, Candidates)| x.0,
        ).drop_last());
        lemma_elims_weight(cells, prefix);
        lemma_apply_elims_pointwise(cells, prefix);
        let prev = apply_elims(cells, prefix);
        let last = e.last();
        let idx = last.0.spec_index();
        assert(forall|i: int|
            0 <= i < prefix.len() ==> (#[trigger] prefix[i]).0.spec_index() != idx) by {
            assert forall|i: int|
                0 <= i < prefix.len() implies (#[trigger] prefix[i]).0.spec_index() != idx by {
                if prefix[i].0.spec_index() == idx {
                    Position::lemma_index_injective(prefix[i].0, last.0);
                    let keys = e.map_values(|x: (Position, Candidates)| x.0);
                    assert(e[i] == prefix[i]);
                    assert(keys[i] == e[i].0);
                    assert(keys[e.len() - 1] == last.0);
                }
            }
        }
        assert(prev[idx] == cells[idx]);
        lemma_grid_weight_update(prev, idx, elim_cell(prev[idx], last.1));
        lemma_elim_cell_weight(cells[idx], last.1);
        if e.len() == 1 {
            assert(prev =~= cells);
        }
    }
}

/// Applying a non-empty grounded delta strictly lowers the grid's weight:
/// this is why the solving loop terminates.
pub proof fn lemma_apply_decreases(d: StrategyDelta, cells: Seq<Cell>)
    requires
        d.wf(),
        delta_grounded(d, cells),
        cells.len() == 81,
    ensures
        spec_apply(d, cells).len() == 81,
        grid_weight(spec_apply(d, cells)) <= grid_weight(cells),
        !d.spec_is_empty() ==> grid_weight(spec_apply(d, cells)) < grid_weight(cells),
{
    lemma_solves_weight(cells, d.solves());
    let base = apply_solves(cells, d.solves());
    lemma_elims_weight(base, d.elims());
    if !d.spec_is_empty() {
        if d.solves().len() > 0 {
        } else {
            assert(base =~= cells);
            assert(d.elims().len() > 0);
            assert forall|i: int| 0 <= i < d.elims().len() implies {
                let p = (#[trigger] d.elims()[i]).0;
                let c = d.elims()[i].1;
                &&& cells[p.spec_index()] is Unsolved
                &&& (exists|v: u8|
                    c.to_set().contains(v) && cells[p.spec_index()].spec_can_be(v))
            } by {
                let p = d.elims()[i].0;
                let c = d.elims()[i].1;
                crate::cells::lemma_candidate_list(c.bits());
                let lst = candidate_list(c.bits());
                assert(lst.len() >= 1);
                let v = lst[0];
                assert(lst.contains(v));
                assert(c.to_set().contains(v));
            }
        }
    }
}

/// A strategy that inspects the whole grid.
pub trait Strategy {
    /// The difficulty, as a specification value.
    spec fn spec_difficulty(&self) -> Difficulty;

    /// What the proposed delta says about the inspected cells: each
    /// implementation pins its delta's content down per position.
    spec fn delta_spec(&self, cells: Seq<Cell>, d: StrategyDelta) -> bool;

    fn name(&self) -> String;

    fn difficulty(&self) -> (r: Difficulty)
        ensures
            r == self.spec_difficulty(),
    ;

    fn solve(&self, grid: &Grid) -> (d: StrategyDelta)
        ensures
            d.wf(),
            delta_grounded(d, grid@),
            self.delta_spec(grid@, d),
    ;
}

/// The values a cell accounts for: a solved cell its value, an unsolved cell
/// its candidates.
pub open spec fn cell_vals(c: Cell) -> Set<u8> {
    match c {
        Cell::Solved(v) => Set::empty().insert(v.val()),
        Cell::Unsolved(cd) => cd.to_set(),
    }
}

/// A well-formed group snapshot: distinct positions, all in range.
pub open spec fn unit_wf(u: Seq<(Position, Cell)>) -> bool {
    &&& u.map_values(|e: (Position, Cell)| e.0).no_duplicates()
    &&& forall|i: int|
        0 <= i < u.len() ==> {
            let p = (#[trigger] u[i]).0;
            1 <= p.spec_col() <= 9 && 1 <= p.spec_row() <= 9
        }
}

/// A delta grounded in a group snapshot: every proposed change sits at a
/// listed position whose cell is unsolved and still open to the value.
pub open spec fn unit_grounded(d: StrategyDelta, u: Seq<(Position, Cell)>) -> bool {
    &&& forall|i: int|
        0 <= i < d.solves().len() ==> {
            let p = (#[trigger] d.solves()[i]).0;
            let v = d.solves()[i].1;
            &&& assoc_get(u, p) matches Some(c) && c is Unsolved && c.spec_can_be(v.val())
        }
    &&& forall|i: int|
        0 <= i < d.elims().len() ==> {
            let p = (#[trigger] d.elims()[i]).0;
            let cd = d.elims()[i].1;
            &&& assoc_get(u, p) matches Some(c) && c is Unsolved && (forall|v: u8|
                cd.to_set().contains(v) ==> c.spec_can_be(v))
        }
}

/// A strategy that inspects one group at a time.
pub trait UnitStrategy {
    /// The difficulty, as a specification value.
    spec fn spec_difficulty(&self) -> Difficulty;

    /// What the proposed delta says about the inspected group.
    spec fn unit_delta_spec(&self, u: Seq<(Position, Cell)>, d: StrategyDelta) -> bool;

    fn name(&self) -> String;

    fn difficulty(&self) -> (r: Difficulty)
        ensures
            r == self.spec_difficulty(),
    ;

    fn solve_unit(&self, unit: &crate::grid::Unit) -> (d: StrategyDelta)
        requires
            unit_wf(unit@),
        ensures
            d.wf(),
            unit_grounded(d, unit@),
            self.unit_delta_spec(unit@, d),
    ;
}

/// `u` snapshots the cells of `cells` at the positions `ps`, in order.
pub open spec fn unit_snapshot_of(
    cells: Seq<Cell>,
    ps: Seq<Position>,
    u: Seq<(Position, Cell)>,
) -> bool {
    &&& u.len() == ps.len()
    &&& forall|i: int| 0 <= i < ps.len() ==> u[i] == (ps[i], cells[ps[i].spec_index()])
}

/// The position list of group number `i`, in the fixed scan order: the nine
/// rows, then the nine columns, then the nine boxes.
pub open spec fn nth_unit_positions(i: int, ps: Seq<Position>) -> bool {
    if 0 <= i < 9 {
        crate::pos::is_row_unit(ps, (i + 1) as u8)
    } else if 9 <= i < 18 {
        crate::pos::is_col_unit(ps, (i - 8) as u8)
    } else if 18 <= i < 27 {
        crate::pos::is_box_unit(ps, (i - 18) / 3, (i - 18) % 3)
    } else {
        false
    }
}

/// `u` snapshots group number `i` of the grid.
pub open spec fn nth_unit(cells: Seq<Cell>, i: int, u: Seq<(Position, Cell)>) -> bool {
    exists|ps: Seq<Position>| #[trigger]
        nth_unit_positions(i, ps) && unit_snapshot_of(cells, ps, u)
}

/// Group number `j` has nothing to propose: its delta under the strategy's
/// characterization is empty.
pub open spec fn unit_makes_no_progress<T: UnitStrategy>(
    strat: &T,
    cells: Seq<Cell>,
    j: int,
) -> bool {
    exists|u2: Seq<(Position, Cell)>, d2: StrategyDelta|
        #![trigger nth_unit(cells, j, u2), strat.unit_delta_spec(u2, d2)]
        {
            &&& nth_unit(cells, j, u2)
            &&& strat.unit_delta_spec(u2, d2)
            &&& d2.spec_is_empty()
        }
}

/// The unit adapter's contract: either the delta is the first group's
/// non-empty proposal, every earlier group proposing nothing, or all 27
/// groups propose nothing and the delta is empty.
pub open spec fn first_unit_delta<T: UnitStrategy>(
    strat: &T,
    cells: Seq<Cell>,
    d: StrategyDelta,
) -> bool {
    ||| (exists|i: int, u: Seq<(Position, Cell)>|
        {
            &&& 0 <= i < 27
            &&& #[trigger] nth_unit(cells, i, u)
            &&& strat.unit_delta_spec(u, d)
            &&& !d.spec_is_empty()
            &&& forall|j: int| 0 <= j < i ==> #[trigger] unit_makes_no_progress(strat, cells, j)
        })
    ||| (d.spec_is_empty() && forall|j: int|
        0 <= j < 27 ==> #[trigger] unit_makes_no_progress(strat, cells, j))
}

/// A found entry really is listed.
pub proof fn lemma_assoc_get_exists<V>(s: Seq<(Position, V)>, p: Position)
    requires
        assoc_has(s, p),
    ensures
        exists|i: int| 0 <= i < s.len() && s[i] == (p, assoc_get(s, p).unwrap()),
    decreases s.len(),
{
    if s.len() > 0 {
        if s.last().0 == p {
            assert(s[s.len() - 1] == (p, assoc_get(s, p).unwrap()));
        } else {
            lemma_assoc_get_exists(s.drop_last(), p);
            let i = choose|i: int|
                0 <= i < s.len() - 1 && s.drop_last()[i] == (p, assoc_get(s.drop_last(), p).unwrap());
            assert(s[i] == (p, assoc_get(s, p).unwrap()));
        }
    }
}

/// An element-for-element copy of a position list.
fn copy_positions(v: &Vec<Position>) -> (r: Vec<Position>)
    ensures
        r@ == v@,
{
    let mut r: Vec<Position> = Vec::new();
    let mut i: usize = 0;
    while i < v.len()
        invariant
            i <= v@.len(),
            r@ =~= v@.subrange(0, i as int),
        decreases v@.len() - i,
    {
        r.push(v[i]);
        proof {
            assert(r@ =~= v@.subrange(0, i + 1));
        }
        i = i + 1;
    }
    proof {
        assert(v@.subrange(0, v@.len() as int) =~= v@);
    }
    r
}

/// Lift a per-group strategy to the whole grid: scan the 27 groups in the
/// fixed order and return the first group's non-empty proposal. The scan
/// stops there deliberately: a delta can invalidate candidate consistency
/// elsewhere, so no further inference is attempted on the stale snapshot.
pub fn solve_units<T: UnitStrategy>(strat: &T, grid: &Grid) -> (d: StrategyDelta)
    ensures
        d.wf(),
        delta_grounded(d, grid@),
        first_unit_delta(strat, grid@, d),
{
    let units = Position::unit_vecs();
    let mut i: usize = 0;
    while i < 27
        invariant
            i <= 27,
            units@.len() == 27,
            forall|k: int| 0 <= k < 9 ==> crate::pos::is_row_unit((#[trigger] units@[k])@, (k + 1) as u8),
            forall|k: int| 9 <= k < 18 ==> crate::pos::is_col_unit((#[trigger] units@[k])@, (k - 8) as u8),
            forall|k: int|
                18 <= k < 27 ==> crate::pos::is_box_unit(
                    (#[trigger] units@[k])@,
                    (k - 18) / 3,
                    (k - 18) % 3,
                ),
            forall|j: int|
                0 <= j < i ==> #[trigger] unit_makes_no_progress(strat, grid@, j),
        decreases 27 - i,
    {
        let ps = copy_positions(&units[i]);
        proof {
            // the group's characterization makes each listed position valid
            assert(nth_unit_positions(i as int, ps@));
            assert forall|k: int| 0 <= k < ps@.len() implies {
                let p = #[trigger] ps@[k];
                1 <= p.spec_col() <= 9 && 1 <= p.spec_row() <= 9
            } by {
                assert(ps@.contains(ps@[k]));
            }
        }
        let unit = grid.get_cells(ps);
        proof {
            assert(unit@.map_values(|e: (Position, Cell)| e.0) =~= ps@);
            assert(unit_wf(unit@));
            assert(unit_snapshot_of(grid@, ps@, unit@));
        }
        let d = strat.solve_unit(&unit);
        if !d.is_empty() {
            proof {
                assert(nth_unit(grid@, i as int, unit@));
                // ground the delta in the grid through the snapshot
                assert forall|k: int| 0 <= k < d.solves().len() implies {
                    let p = (#[trigger] d.solves()[k]).0;
                    let v = d.solves()[k].1;
                    &&& grid@[p.spec_index()] is Unsolved
                    &&& grid@[p.spec_index()].spec_can_be(v.val())
                } by {
                    let p = d.solves()[k].0;
                    lemma_assoc_get_exists(unit@, p);
                    let j = choose|j: int|
                        0 <= j < unit@.len() && unit@[j] == (p, assoc_get(unit@, p).unwrap());
                    assert(unit@[j] == (ps@[j], grid@[ps@[j].spec_index()]));
                }
                assert forall|k: int| 0 <= k < d.elims().len() implies {
                    let p = (#[trigger] d.elims()[k]).0;
                    let cd = d.elims()[k].1;
                    &&& grid@[p.spec_index()] is Unsolved
                    &&& (forall|v: u8|
                        cd.to_set().contains(v) ==> grid@[p.spec_index()].spec_can_be(v))
                } by {
                    let p = d.elims()[k].0;
                    lemma_assoc_get_exists(unit@, p);
                    let j = choose|j: int|
                        0 <= j < unit@.len() && unit@[j] == (p, assoc_get(unit@, p).unwrap());
                    assert(unit@[j] == (ps@[j], grid@[ps@[j].spec_index()]));
                }
            }
            return d;
        }
        proof {
            assert(nth_unit(grid@, i as int, unit@));
        }
        i = i + 1;
    }
    let d = StrategyDelta::new();
    d
}

/// A stable tag for each concrete strategy the engine ships: candidate
/// pruning, and the naked and hidden strategies at orders one to four.
/// Display metadata is looked up through the `Strategy` impl.
#[derive(Copy, Clone, PartialEq, Eq, Debug)]
pub enum StrategyKind {
    Prune(PruneCandidates),
    Naked1(NakedN<1>),
    Hidden1(HiddenN<1>),
    Naked2(NakedN<2>),
    Hidden2(HiddenN<2>),
    Naked3(NakedN<3>),
    Hidden3(HiddenN<3>),
    Naked4(NakedN<4>),
    Hidden4(HiddenN<4>),
}

impl Strategy for StrategyKind {
    open spec fn spec_difficulty(&self) -> Difficulty {
        match self {
            StrategyKind::Prune(s) => s.spec_difficulty(),
            StrategyKind::Naked1(s) => s.spec_difficulty(),
            StrategyKind::Hidden1(s) => s.spec_difficulty(),
            StrategyKind::Naked2(s) => s.spec_difficulty(),
            StrategyKind::Hidden2(s) => s.spec_difficulty(),
            StrategyKind::Naked3(s) => s.spec_difficulty(),
            StrategyKind::Hidden3(s) => s.spec_difficulty(),
            StrategyKind::Naked4(s) => s.spec_difficulty(),
            StrategyKind::Hidden4(s) => s.spec_difficulty(),
        }
    }

    open spec fn delta_spec(&self, cells: Seq<Cell>, d: StrategyDelta) -> bool {
        match self {
            StrategyKind::Prune(s) => s.delta_spec(cells, d),
            StrategyKind::Naked1(s) => first_unit_delta(s, cells, d),
            StrategyKind::Hidden1(s) => first_unit_delta(s, cells, d),
            StrategyKind::Naked2(s) => first_unit_delta(s, cells, d),
            StrategyKind::Hidden2(s) => first_unit_delta(s, cells, d),
            StrategyKind::Naked3(s) => first_unit_delta(s, cells, d),
            StrategyKind::Hidden3(s) => first_unit_delta(s, cells, d),
            StrategyKind::Naked4(s) => first_unit_delta(s, cells, d),
            StrategyKind::Hidden4(s) => first_unit_delta(s, cells, d),
        }
    }

    fn name(&self) -> String {
        match self {
            StrategyKind::Prune(s) => s.name(),
            StrategyKind::Naked1(s) => s.name(),
            StrategyKind::Hidden1(s) => s.name(),
            StrategyKind::Naked2(s) => s.name(),
            StrategyKind::Hidden2(s) => s.name(),
            StrategyKind::Naked3(s) => s.name(),
            StrategyKind::Hidden3(s) => s.name(),
            StrategyKind::Naked4(s) => s.name(),
            StrategyKind::Hidden4(s) => s.name(),
        }
    }

    fn difficulty(&self) -> (r: Difficulty)
        ensures
            r == self.spec_difficulty(),
    {
        match self {
            StrategyKind::Prune(s) => s.difficulty(),
            StrategyKind::Naked1(s) => s.difficulty(),
            StrategyKind::Hidden1(s) => s.difficulty(),
            StrategyKind::Naked2(s) => s.difficulty(),
            StrategyKind::Hidden2(s) => s.difficulty(),
            StrategyKind::Naked3(s) => s.difficulty(),
            StrategyKind::Hidden3(s) => s.difficulty(),
            StrategyKind::Naked4(s) => s.difficulty(),
            StrategyKind::Hidden4(s) => s.difficulty(),
        }
    }

    fn solve(&self, grid: &Grid) -> (d: StrategyDelta)
        ensures
            d.wf(),
            delta_grounded(d, grid@),
            self.delta_spec(grid@, d),
    {
        match self {
            StrategyKind::Prune(s) => s.solve(grid),
            StrategyKind::Naked1(s) => solve_units(s, grid),
            StrategyKind::Hidden1(s) => solve_units(s, grid),
            StrategyKind::Naked2(s) => solve_units(s, grid),
            StrategyKind::Hidden2(s) => solve_units(s, grid),
            StrategyKind::Naked3(s) => solve_units(s, grid),
            StrategyKind::Hidden3(s) => solve_units(s, grid),
            StrategyKind::Naked4(s) => solve_units(s, grid),
            StrategyKind::Hidden4(s) => solve_units(s, grid),
        }
    }
}

/// The solving order the engine requires: the trivial pruning strategy
/// first, then never a drop in difficulty. Pruning re-establishes
/// "candidates are consistent with solved cells", which every later
/// strategy assumes; only a list shaped like this keeps that invariant.
pub open spec fn well_ordered(s: Seq<StrategyKind>) -> bool {
    &&& s.len() > 0 ==> s[0] is Prune
    &&& forall|i: int, j: int|
        0 <= i < j < s.len() ==> difficulty_rank((#[trigger] s[i]).spec_difficulty())
            <= difficulty_rank((#[trigger] s[j]).spec_difficulty())
}

/// The strategy `k` proposes nothing on these cells.
pub open spec fn makes_no_progress(k: StrategyKind, cells: Seq<Cell>) -> bool {
    exists|dj: StrategyDelta| #[trigger] k.delta_spec(cells, dj) && dj.spec_is_empty()
}

/// The engine's full strategy list: pruning first, then naked and hidden at
/// orders one to four, in non-decreasing difficulty.
pub fn all_strategies() -> (r: Vec<StrategyKind>)
    ensures
        r@.len() == 9,
        r@[0] == StrategyKind::Prune(PruneCandidates),
        r@[1] == StrategyKind::Naked1(NakedN::<1>),
        r@[2] == StrategyKind::Hidden1(HiddenN::<1>),
        r@[3] == StrategyKind::Naked2(NakedN::<2>),
        r@[4] == StrategyKind::Hidden2(HiddenN::<2>),
        r@[5] == StrategyKind::Naked3(NakedN::<3>),
        r@[6] == StrategyKind::Hidden3(HiddenN::<3>),
        r@[7] == StrategyKind::Naked4(NakedN::<4>),
        r@[8] == StrategyKind::Hidden4(HiddenN::<4>),
        well_ordered(r@),
{
    let mut v: Vec<StrategyKind> = Vec::new();
    v.push(StrategyKind::Prune(PruneCandidates));
    v.push(StrategyKind::Naked1(NakedN::<1>));
    v.push(StrategyKind::Hidden1(HiddenN::<1>));
    v.push(StrategyKind::Naked2(NakedN::<2>));
    v.push(StrategyKind::Hidden2(HiddenN::<2>));
    v.push(StrategyKind::Naked3(NakedN::<3>));
    v.push(StrategyKind::Hidden3(HiddenN::<3>));
    v.push(StrategyKind::Naked4(NakedN::<4>));
    v.push(StrategyKind::Hidden4(HiddenN::<4>));
    v
}

} // verus!
