//! The hidden-single strategy: a value with exactly one remaining spot in a
//! group must go there, so that cell is proposed as solved. This is the one
//! shipped strategy that proposes values rather than eliminations.

use vstd::prelude::*;

use crate::cells::Cell;
use crate::cells::CellValue;
use crate::grid::Unit;
use crate::pos::Position;
use crate::solver::hidden_n::hidden_spots;
use crate::solver::sets::Order;
use crate::solver::strategies::assoc_get;
use crate::solver::strategies::unit_wf;
use crate::solver::strategies::Difficulty;
use crate::solver::strategies::StrategyDelta;
use crate::solver::strategies::UnitStrategy;

verus! {

broadcast use crate::cells::Candidates::lemma_bits_len;

/// Some entry before `bound` is the unsolved cell at `q` admitting `v`.
pub open spec fn listed_before(
    u: Seq<(Position, Cell)>,
    bound: int,
    q: Position,
    v: u8,
) -> bool {
    exists|i: int|
        0 <= i < bound && (#[trigger] u[i]).0 == q && (u[i].1 matches Cell::Unsolved(cd) && cd.has(
            v,
        ))
}

/// Value `v` has exactly one spot in the group, the unsolved cell at `p`.
pub open spec fn unique_spot(u: Seq<(Position, Cell)>, v: u8, p: Position) -> bool {
    &&& hidden_spots(u, v).contains(p)
    &&& forall|q: Position| #[trigger] hidden_spots(u, v).contains(q) ==> q == p
}

/// For each value, the positions of the group's unsolved cells that still
/// admit it, in scan order.
pub struct CandidateMap(Vec<Vec<Position>>);

impl CandidateMap {
    /// The recorded positions for value `v`.
    pub closed spec fn list(&self, v: u8) -> Seq<Position> {
        self.0@[v - 1]@
    }

    pub open spec fn wf(&self) -> bool {
        self.spec_len() == 9
    }

    pub closed spec fn spec_len(&self) -> nat {
        self.0@.len()
    }

    pub fn new() -> (r: Self)
        ensures
            r.wf(),
            forall|v: u8| 1 <= v <= 9 ==> (#[trigger] r.list(v)).len() == 0,
    {
        let mut lists: Vec<Vec<Position>> = Vec::new();
        let mut i: usize = 0;
        while i < 9
            invariant
                i <= 9,
                lists@.len() == i,
                forall|j: int| 0 <= j < i ==> (#[trigger] lists@[j])@.len() == 0,
            decreases 9 - i,
        {
            lists.push(Vec::new());
            i = i + 1;
        }
        CandidateMap(lists)
    }

    /// Record one cell: an unsolved cell registers its position under each of
    /// its candidate values; a solved cell registers nothing.
    pub fn add_cell(&mut self, pos: &Position, cell: &Cell)
        requires
            old(self).wf(),
        ensures
            final(self).wf(),
            forall|v: u8|
                1 <= v <= 9 ==> #[trigger] final(self).list(v) == if (*cell
                    matches Cell::Unsolved(cd) && cd.has(v)) {
                    old(self).list(v).push(*pos)
                } else {
                    old(self).list(v)
                },
    {
        match cell {
            Cell::Solved(_) => {},
            Cell::Unsolved(cds) => {
                let vlist = cds.to_vec();
                proof {
                    crate::cells::lemma_candidate_list(cds.bits());
                    assert forall|t: int|
                        0 <= t < vlist@.len() implies cds.has((#[trigger] vlist@[t]).val()) by {
                        let lst = crate::cells::candidate_list(cds.bits());
                        assert(vlist@.map_values(|c: CellValue| c.val())[t] == lst[t]);
                    }
                }
                let mut j: usize = 0;
                while j < vlist.len()
                    invariant
                        j <= vlist@.len(),
                        self.wf(),
                        crate::cells::candidate_list(cds.bits()).no_duplicates(),
                        vlist@.map_values(|c: CellValue| c.val()) == crate::cells::candidate_list(
                            cds.bits(),
                        ),
                        forall|t: int|
                            0 <= t < vlist@.len() ==> cds.has((#[trigger] vlist@[t]).val()),
                        forall|v: u8|
                            1 <= v <= 9 ==> #[trigger] self.list(v) == if crate::cells::candidate_list(
                                cds.bits(),
                            ).subrange(0, j as int).contains(v) {
                                old(self).list(v).push(*pos)
                            } else {
                                old(self).list(v)
                            },
                    decreases vlist@.len() - j,
                {
                    let ghost self_pre = *self;
                    let v = vlist[j];
                    proof {
                        assert(v.val() == crate::cells::candidate_list(cds.bits())[j as int]);
                        crate::cells::lemma_candidate_list(cds.bits());
                        // each candidate is recorded once: it is not in the
                        // already-processed prefix, since the list has no
                        // duplicates
                        let lst = crate::cells::candidate_list(cds.bits());
                        assert(!lst.subrange(0, j as int).contains(v.val())) by {
                            if lst.subrange(0, j as int).contains(v.val()) {
                                let w = choose|w: int|
                                    0 <= w < j && lst.subrange(0, j as int)[w] == v.val();
                                assert(lst[w] == v.val());
                                assert(lst[w] == lst[j as int]);
                            }
                        }
                    }
                    let idx = (v.get() - 1) as usize;
                    let ghost m_pre = self.0@;
                    let mut inner = self.0.remove(idx);
                    let ghost inner_pre = inner@;
                    inner.push(*pos);
                    self.0.insert(idx, inner);
                    proof {
                        assert(inner_pre == m_pre[idx as int]@);
                        assert(inner@ == inner_pre.push(*pos));
                        assert(self.0@ =~= m_pre.update(idx as int, inner));
                        let lst = crate::cells::candidate_list(cds.bits());
                        let pre = lst.subrange(0, j as int);
                        let cur = lst.subrange(0, j + 1);
                        assert(cur.drop_last() =~= pre);
                        assert(cur.last() == lst[j as int]);
                        assert(self.list(v.val()) == inner@);
                        assert(m_pre == self_pre.0@);
                        assert forall|v2: u8| 1 <= v2 <= 9 && v2 != v.val() implies #[trigger] self.list(
                            v2,
                        ) == self_pre.list(v2) by {
                            assert(self.0@[v2 - 1] == m_pre[v2 - 1]);
                        }
                        assert forall|v2: u8| 1 <= v2 <= 9 implies (#[trigger] self_pre.list(v2)
                            == if pre.contains(v2) {
                                old(self).list(v2).push(*pos)
                            } else {
                                old(self).list(v2)
                            }) by {}
                        assert(!pre.contains(v.val()));
                        assert(self_pre.list(v.val()) == old(self).list(v.val()));
                        assert(inner_pre == self_pre.list(v.val()));
                        assert forall|v2: u8|
                            1 <= v2 <= 9 implies #[trigger] self.list(v2) == (if cur.contains(v2) {
                            old(self).list(v2).push(*pos)
                        } else {
                            old(self).list(v2)
                        }) by {
                            if cur.contains(v2) {
                                let w = choose|w: int| 0 <= w < cur.len() && cur[w] == v2;
                                if w < pre.len() {
                                    assert(pre[w] == v2);
                                } else {
                                    assert(v2 == v.val());
                                }
                            }
                            if pre.contains(v2) {
                                let w = choose|w: int| 0 <= w < pre.len() && pre[w] == v2;
                                assert(cur[w] == v2);
                            }
                            if v2 == v.val() {
                                assert(cur[cur.len() - 1] == v2);
                            }
                        }
                    }
                    j = j + 1;
                }
                proof {
                    let lst = crate::cells::candidate_list(cds.bits());
                    assert(lst.subrange(0, lst.len() as int) =~= lst);
                    assert forall|v: u8|
                        1 <= v <= 9 implies #[trigger] self.list(v) == (if (*cell
                        matches Cell::Unsolved(cd) && cd.has(v)) {
                        old(self).list(v).push(*pos)
                    } else {
                        old(self).list(v)
                    }) by {
                        assert(lst.contains(v) <==> cds.has(v));
                    }
                }
            },
        }
    }

    /// The recorded positions for `value`.
    pub fn positions(&self, value: CellValue) -> (r: &Vec<Position>)
        requires
            self.wf(),
        ensures
            r@ == self.list(value.val()),
    {
        proof {
            use_type_invariant(&value);
        }
        let idx = (value.get() - 1) as usize;
        &self.0[idx]
    }
}

/// The hidden-single strategy over one group.
#[derive(Copy, Clone, PartialEq, Eq, Debug)]
pub struct HiddenSingle;

impl UnitStrategy for HiddenSingle {
    open spec fn spec_difficulty(&self) -> Difficulty {
        Difficulty::Standard
    }

    /// The delta eliminates nothing and proposes, at each position with a
    /// uniquely confined value, the largest such value (values are scanned
    /// upward and later proposals replace earlier ones).
    open spec fn unit_delta_spec(&self, u: Seq<(Position, Cell)>, d: StrategyDelta) -> bool {
        &&& forall|p: Position| #[trigger] d.spec_elims(p) == Set::<u8>::empty()
        &&& forall|p: Position|
            ((#[trigger] d.spec_solved(p)) is Some) <==> exists|v: u8|
                1 <= v <= 9 && #[trigger] unique_spot(u, v, p)
        &&& forall|p: Position|
            (#[trigger] d.spec_solved(p)) matches Some(w) ==> {
                &&& unique_spot(u, w.val(), p)
                &&& forall|v2: u8| w.val() < v2 <= 9 ==> !(#[trigger] unique_spot(u, v2, p))
            }
    }

    fn name(&self) -> String {
        let order = Order(1);
        String::from_str("Hidden ").concat(order.label())
    }

    fn difficulty(&self) -> (r: Difficulty)
        ensures
            r == self.spec_difficulty(),
    {
        Difficulty::Standard
    }

    #[verifier::rlimit(100)]
    fn solve_unit(&self, unit: &Unit) -> (d: StrategyDelta) {
        let ghost u = unit@;
        let mut map = CandidateMap::new();
        let mut bi: usize = 0;
        while bi < unit.len()
            invariant
                map.wf(),
                unit_wf(u),
                u == unit@,
                bi <= u.len(),
                forall|v: u8, t: int|
                    #![trigger map.list(v)[t]]
                    1 <= v <= 9 && 0 <= t < map.list(v).len() ==> listed_before(
                        u,
                        bi as int,
                        map.list(v)[t],
                        v,
                    ),
                forall|v: u8, i: int|
                    1 <= v <= 9 && 0 <= i < bi && ((#[trigger] u[i]).1 matches Cell::Unsolved(cd)
                        && cd.has(v)) ==> #[trigger] map.list(v).contains(u[i].0),
                forall|v: u8, t1: int, t2: int|
                    #![trigger map.list(v)[t1], map.list(v)[t2]]
                    1 <= v <= 9 && 0 <= t1 < t2 < map.list(v).len() ==> map.list(v)[t1]
                        != map.list(v)[t2],
            decreases u.len() - bi,
        {
            let (p, cell) = unit[bi];
            let ghost pre = map;
            map.add_cell(&p, &cell);
            proof {
                assert(u[bi as int] == (p, cell));
                assert forall|v: u8, t: int|
                    #![trigger map.list(v)[t]]
                    1 <= v <= 9 && 0 <= t < map.list(v).len() implies listed_before(
                    u,
                    bi + 1,
                    map.list(v)[t],
                    v,
                ) by {
                    if t < pre.list(v).len() {
                        assert(pre.list(v)[t] == map.list(v)[t]);
                        assert(listed_before(u, bi as int, pre.list(v)[t], v));
                        let i = choose|i: int|
                            0 <= i < bi && (#[trigger] u[i]).0 == pre.list(v)[t] && (u[i].1
                                matches Cell::Unsolved(cd) && cd.has(v));
                        assert(0 <= i < bi + 1 && u[i].0 == map.list(v)[t] && (u[i].1
                            matches Cell::Unsolved(cd) && cd.has(v)));
                    } else {
                        assert(cell matches Cell::Unsolved(cd) && cd.has(v));
                        assert(map.list(v)[t] == p);
                        assert(0 <= bi < bi + 1 && u[bi as int].0 == map.list(v)[t] && (u[
                            bi as int].1 matches Cell::Unsolved(cd) && cd.has(v)));
                    }
                }
                assert forall|v: u8, i: int|
                    1 <= v <= 9 && 0 <= i < bi + 1 && ((#[trigger] u[i]).1
                        matches Cell::Unsolved(cd) && cd.has(v)) implies #[trigger] map.list(
                    v,
                ).contains(u[i].0) by {
                    if i < bi {
                        assert(pre.list(v).contains(u[i].0));
                        let t = choose|t: int|
                            0 <= t < pre.list(v).len() && pre.list(v)[t] == u[i].0;
                        assert(map.list(v)[t] == u[i].0);
                    } else {
                        assert(map.list(v) == pre.list(v).push(p));
                        assert(map.list(v)[map.list(v).len() - 1] == p);
                    }
                }
                assert forall|v: u8, t1: int, t2: int|
                    #![trigger map.list(v)[t1], map.list(v)[t2]]
                    1 <= v <= 9 && 0 <= t1 < t2 < map.list(v).len() implies map.list(v)[t1]
                    != map.list(v)[t2] by {
                    if map.list(v) == pre.list(v).push(p) && t2 == map.list(v).len() - 1 {
                        // the newly pushed position is fresh: the earlier
                        // entries come from earlier, distinct positions
                        assert(map.list(v)[t1] == pre.list(v)[t1]);
                        assert(listed_before(u, bi as int, pre.list(v)[t1], v));
                        let i = choose|i: int|
                            0 <= i < bi && (#[trigger] u[i]).0 == pre.list(v)[t1] && (u[i].1
                                matches Cell::Unsolved(cd) && cd.has(v));
                        let keys = u.map_values(|e: (Position, Cell)| e.0);
                        assert(keys[i] == u[i].0);
                        assert(keys[bi as int] == p);
                    } else if map.list(v) == pre.list(v) {
                    } else {
                        assert(map.list(v)[t1] == pre.list(v)[t1]);
                        assert(map.list(v)[t2] == pre.list(v)[t2]);
                    }
                }
            }
            bi = bi + 1;
        }
        let mut d = StrategyDelta::new();
        let mut n: u8 = 1;
        while n <= 9
            invariant
                1 <= n <= 10,
                map.wf(),
                unit_wf(u),
                u == unit@,
                d.wf(),
                d.elims().len() == 0,
                forall|v: u8, t: int|
                    #![trigger map.list(v)[t]]
                    1 <= v <= 9 && 0 <= t < map.list(v).len() ==> listed_before(
                        u,
                        u.len() as int,
                        map.list(v)[t],
                        v,
                    ),
                forall|v: u8, i: int|
                    1 <= v <= 9 && 0 <= i < u.len() && ((#[trigger] u[i]).1
                        matches Cell::Unsolved(cd) && cd.has(v)) ==> #[trigger] map.list(
                        v,
                    ).contains(u[i].0),
                forall|v: u8, t1: int, t2: int|
                    #![trigger map.list(v)[t1], map.list(v)[t2]]
                    1 <= v <= 9 && 0 <= t1 < t2 < map.list(v).len() ==> map.list(v)[t1]
                        != map.list(v)[t2],
                forall|p: Position|
                    ((#[trigger] d.spec_solved(p)) is Some) <==> exists|v: u8|
                        1 <= v < n && #[trigger] unique_spot(u, v, p),
                forall|p: Position|
                    (#[trigger] d.spec_solved(p)) matches Some(w) ==> {
                        &&& unique_spot(u, w.val(), p)
                        &&& 1 <= w.val() < n
                        &&& forall|v2: u8| w.val() < v2 < n ==> !(#[trigger] unique_spot(u, v2, p))
                    },
            decreases 10 - n,
        {
            let value = CellValue::new(n);
            let ghost d_pre = d;
            let len = map.positions(value).len();
            proof {
                // the recorded list mirrors the spot set; with distinct
                // positions a one-entry list means a unique spot
                assert forall|q: Position|
                    map.list(n).contains(q) <==> #[trigger] hidden_spots(u, n).contains(q) by {
                    if map.list(n).contains(q) {
                        let t = choose|t: int| 0 <= t < map.list(n).len() && map.list(n)[t] == q;
                        assert(listed_before(u, u.len() as int, map.list(n)[t], n));
                        let i = choose|i: int|
                            0 <= i < u.len() && (#[trigger] u[i]).0 == map.list(n)[t] && (u[i].1
                                matches Cell::Unsolved(cd) && cd.has(n));
                        let keys = u.map_values(|e: (Position, Cell)| e.0);
                        assert(keys[i] == u[i].0);
                        crate::solver::strategies::lemma_assoc_get_at_index(u, i);
                        assert(hidden_spots(u, n).contains(q));
                    }
                    if hidden_spots(u, n).contains(q) {
                        crate::solver::strategies::lemma_assoc_get_index(u, q);
                        let i = choose|i: int| 0 <= i < u.len() && (#[trigger] u[i]).0 == q;
                        let keys = u.map_values(|e: (Position, Cell)| e.0);
                        assert(keys[i] == u[i].0);
                        crate::solver::strategies::lemma_assoc_get_at_index(u, i);
                        assert(map.list(n).contains(u[i].0));
                    }
                }
            }
            if len == 1 {
                let p = map.positions(value)[0];
                proof {
                    assert(map.list(n).contains(map.list(n)[0]));
                    assert(unique_spot(u, n, p)) by {
                        assert(hidden_spots(u, n).contains(p));
                        assert forall|q: Position|
                            #[trigger] hidden_spots(u, n).contains(q) implies q == p by {
                            let t = choose|t: int|
                                0 <= t < map.list(n).len() && map.list(n)[t] == q;
                        }
                    }
                    // the unique spot is an unsolved cell of the group, so
                    // the proposal is grounded
                    crate::solver::strategies::lemma_assoc_get_index(u, p);
                }
                d.solve(p, value);
                proof {
                    assert forall|q: Position|
                        ((#[trigger] d.spec_solved(q)) is Some) <==> exists|v: u8|
                            1 <= v < n + 1 && #[trigger] unique_spot(u, v, q) by {
                        if q == p {
                            assert(unique_spot(u, n, q));
                        } else {
                            assert(d.spec_solved(q) == d_pre.spec_solved(q));
                            if exists|v: u8| 1 <= v < n + 1 && #[trigger] unique_spot(u, v, q) {
                                let v = choose|v: u8|
                                    1 <= v < n + 1 && #[trigger] unique_spot(u, v, q);
                                if v == n {
                                    assert(hidden_spots(u, n).contains(q));
                                    assert(q == p);
                                    assert(false);
                                }
                            }
                        }
                    }
                    assert forall|q: Position|
                        ((#[trigger] d.spec_solved(q)) matches Some(w) ==> {
                            &&& unique_spot(u, w.val(), q)
                            &&& 1 <= w.val() < n + 1
                            &&& forall|v2: u8| w.val() < v2 < n + 1 ==> !(#[trigger] unique_spot(
                                u,
                                v2,
                                q,
                            ))
                        }) by {
                        if q == p {
                            assert(d.spec_solved(q) == Some(value));
                            assert forall|v2: u8|
                                value.val() < v2 < n + 1 implies !(#[trigger] unique_spot(
                                u,
                                v2,
                                q,
                            )) by {}
                        } else {
                            assert(d.spec_solved(q) == d_pre.spec_solved(q));
                            match d.spec_solved(q) {
                                Some(w) => {
                                    assert forall|v2: u8|
                                        w.val() < v2 < n + 1 implies !(#[trigger] unique_spot(
                                        u,
                                        v2,
                                        q,
                                    )) by {
                                        if v2 == n && unique_spot(u, v2, q) {
                                            assert(hidden_spots(u, n).contains(q));
                                            assert(q == p);
                                        }
                                    }
                                },
                                None => {},
                            }
                        }
                    }
                }
            } else {
                proof {
                    // with zero or several spots, no value-n unique spot exists
                    assert forall|q: Position| !(#[trigger] unique_spot(u, n, q)) by {
                        if unique_spot(u, n, q) {
                            assert(hidden_spots(u, n).contains(q));
                            assert(map.list(n).contains(q));
                            let t = choose|t: int|
                                0 <= t < map.list(n).len() && map.list(n)[t] == q;
                            if map.list(n).len() >= 2 {
                                assert(map.list(n).contains(map.list(n)[0]));
                                assert(map.list(n).contains(map.list(n)[1]));
                                assert(hidden_spots(u, n).contains(map.list(n)[0]));
                                assert(hidden_spots(u, n).contains(map.list(n)[1]));
                                assert(map.list(n)[0] == q && map.list(n)[1] == q);
                                assert(false);
                            } else {
                                assert(map.list(n).len() == 0);
                                assert(false);
                            }
                        }
                    }
                    assert forall|q: Position|
                        ((#[trigger] d.spec_solved(q)) is Some) <==> exists|v: u8|
                            1 <= v < n + 1 && #[trigger] unique_spot(u, v, q) by {
                        if exists|v: u8| 1 <= v < n + 1 && #[trigger] unique_spot(u, v, q) {
                            let v = choose|v: u8| 1 <= v < n + 1 && #[trigger] unique_spot(u, v, q);
                            assert(v != n);
                        }
                    }
                    assert forall|q: Position|
                        ((#[trigger] d.spec_solved(q)) matches Some(w) ==> {
                            &&& unique_spot(u, w.val(), q)
                            &&& 1 <= w.val() < n + 1
                            &&& forall|v2: u8| w.val() < v2 < n + 1 ==> !(#[trigger] unique_spot(
                                u,
                                v2,
                                q,
                            ))
                        }) by {
                        match d.spec_solved(q) {
                            Some(w) => {
                                assert forall|v2: u8|
                                    w.val() < v2 < n + 1 implies !(#[trigger] unique_spot(
                                    u,
                                    v2,
                                    q,
                                )) by {
                                    if v2 == n {
                                        assert(!unique_spot(u, n, q));
                                    }
                                }
                            },
                            None => {},
                        }
                    }
                }
            }
            n = n + 1;
        }
        proof {
            assert forall|p: Position| #[trigger] d.spec_elims(p) == Set::<u8>::empty() by {
                crate::solver::strategies::lemma_assoc_get_index(d.elims(), p);
                assert(d.spec_elims(p) =~= Set::<u8>::empty());
            }
            assert forall|p: Position|
                ((#[trigger] d.spec_solved(p)) is Some) <==> exists|v: u8|
                    1 <= v <= 9 && #[trigger] unique_spot(u, v, p) by {}
            // grounded: a proposed value's unique spot is an unsolved cell of
            // the group that still admits it
            assert forall|k: int| 0 <= k < d.solves().len() implies {
                let p = (#[trigger] d.solves()[k]).0;
                let v = d.solves()[k].1;
                &&& assoc_get(u, p) matches Some(c) && c is Unsolved && c.spec_can_be(v.val())
            } by {
                let p = d.solves()[k].0;
                let v = d.solves()[k].1;
                crate::solver::strategies::lemma_assoc_get_at_index(d.solves(), k);
                assert(d.spec_solved(p) == Some(v));
                assert(unique_spot(u, v.val(), p));
                assert(hidden_spots(u, v.val()).contains(p));
            }
        }
        d
    }
}

} // verus!
