//! The special-cased naked-pair strategy: when exactly two cells of a group
//! carry the same two-candidate set, those two values are confined to those
//! two cells and are removed from every other unsolved cell of the group.

use vstd::prelude::*;

use crate::cells::candidate_list;
use crate::cells::Candidates;
use crate::cells::Cell;
use crate::cells::CellValue;
use crate::grid::Unit;
use crate::pos::Position;
use crate::solver::sets::Order;
use crate::solver::strategies::assoc_get;
use crate::solver::strategies::assoc_has;
use crate::solver::strategies::unit_wf;
use crate::solver::strategies::Difficulty;
use crate::solver::strategies::StrategyDelta;
use crate::solver::strategies::UnitStrategy;

verus! {

broadcast use crate::cells::Candidates::lemma_bits_len;

/// The cell at entry `i` is unsolved with exactly the two candidates of
/// `cd`.
pub open spec fn pair_cell(u: Seq<(Position, Cell)>, i: int, cd: Candidates) -> bool {
    &&& u[i].1 == Cell::Unsolved(cd)
    &&& candidate_list(cd.bits()).len() == 2
}

/// Entries `i < j` are the only two cells of the group carrying exactly the
/// pair `cd`.
pub open spec fn naked_pair_at(u: Seq<(Position, Cell)>, i: int, j: int, cd: Candidates) -> bool {
    &&& 0 <= i < j < u.len()
    &&& pair_cell(u, i, cd)
    &&& pair_cell(u, j, cd)
    &&& forall|k: int| 0 <= k < u.len() && k != i && k != j ==> (#[trigger] u[k]).1 != Cell::Unsolved(cd)
}

/// What the naked-pair strategy eliminates at `p`: candidates of `p`'s
/// unsolved cell that belong to a pair confined to two other cells.
pub open spec fn naked_pair_elim_set(u: Seq<(Position, Cell)>, p: Position) -> Set<u8> {
    Set::new(
        |v: u8|
            {
                &&& assoc_get(u, p) matches Some(c) && c is Unsolved && c.spec_can_be(v)
                &&& exists|i: int, j: int, cd: Candidates|
                    {
                        &&& #[trigger] naked_pair_at(u, i, j, cd)
                        &&& p != u[i].0 && p != u[j].0
                        &&& cd.has(v)
                    }
            },
    )
}

/// Whether entries `i`, `j` form a naked pair of `cd` avoiding `p` and
/// holding `v`.
spec fn hit_at(u: Seq<(Position, Cell)>, p: Position, v: u8, i: int, j: int, cd: Candidates) -> bool {
    &&& naked_pair_at(u, i, j, cd)
    &&& p != u[i].0 && p != u[j].0
    &&& cd.has(v)
}

/// Whether no third cell of the group carries exactly the pair `cd`.
fn pair_unique(unit: &Unit, i: usize, j: usize, cd: &Candidates) -> (r: bool)
    requires
        i < unit@.len(),
        j < unit@.len(),
    ensures
        r == forall|k: int|
            0 <= k < unit@.len() && k != i && k != j ==> (#[trigger] unit@[k]).1 != Cell::Unsolved(
                *cd,
            ),
{
    let n = unit.len();
    let mut k: usize = 0;
    while k < n
        invariant
            n == unit@.len(),
            k <= n,
            i < n,
            j < n,
            forall|k2: int|
                0 <= k2 < k && k2 != i && k2 != j ==> (#[trigger] unit@[k2]).1 != Cell::Unsolved(
                    *cd,
                ),
        decreases n - k,
    {
        if k != i && k != j {
            match unit[k].1 {
                Cell::Unsolved(other) => {
                    if other.eq_bits(cd) {
                        return false;
                    }
                },
                Cell::Solved(_) => {},
            }
        }
        k = k + 1;
    }
    true
}

/// Decide whether some naked pair of the group eliminates `v` at `p`.
fn pair_hit(unit: &Unit, p: &Position, v: &CellValue) -> (r: bool)
    ensures
        r == exists|i: int, j: int, cd: Candidates| #[trigger] hit_at(unit@, *p, v.val(), i, j, cd),
{
    let ghost u = unit@;
    let n = unit.len();
    let mut i: usize = 0;
    while i < n
        invariant
            n == u.len(),
            u == unit@,
            i <= n,
            forall|i2: int, j2: int, cd: Candidates|
                #![trigger hit_at(u, *p, v.val(), i2, j2, cd)]
                0 <= i2 < i && i2 < j2 < n ==> !hit_at(u, *p, v.val(), i2, j2, cd),
        decreases n - i,
    {
        let mut j: usize = i + 1;
        while j < n
            invariant
                n == u.len(),
                u == unit@,
                i < n,
                i + 1 <= j <= n,
                forall|i2: int, j2: int, cd: Candidates|
                    #![trigger hit_at(u, *p, v.val(), i2, j2, cd)]
                    0 <= i2 < i && i2 < j2 < n ==> !hit_at(u, *p, v.val(), i2, j2, cd),
                forall|j2: int, cd: Candidates|
                    #![trigger hit_at(u, *p, v.val(), i as int, j2, cd)]
                    i < j2 < j ==> !hit_at(u, *p, v.val(), i as int, j2, cd),
            decreases n - j,
        {
            let (pi, ci) = unit[i];
            let (pj, cj) = unit[j];
            match (ci, cj) {
                (Cell::Unsolved(cdi), Cell::Unsolved(cdj)) => {
                    let is_pair = cdi.count() == 2 && cdi.eq_bits(&cdj) && cdi.can_be(v)
                        && !(p == &pi) && !(p == &pj) && pair_unique(unit, i, j, &cdi);
                    if is_pair {
                        proof {
                            assert(hit_at(u, *p, v.val(), i as int, j as int, cdi));
                        }
                        return true;
                    }
                    proof {
                        assert forall|cd: Candidates|
                            !(#[trigger] hit_at(u, *p, v.val(), i as int, j as int, cd)) by {
                            if hit_at(u, *p, v.val(), i as int, j as int, cd) {
                                assert(cd == cdi);
                            }
                        }
                    }
                },
                _ => {
                    proof {
                        assert forall|cd: Candidates|
                            !(#[trigger] hit_at(u, *p, v.val(), i as int, j as int, cd)) by {}
                    }
                },
            }
            j = j + 1;
        }
        i = i + 1;
    }
    proof {
        if exists|i: int, j: int, cd: Candidates| #[trigger] hit_at(u, *p, v.val(), i, j, cd) {
            let (i, j, cd) = choose|i: int, j: int, cd: Candidates| #[trigger] hit_at(
                u,
                *p,
                v.val(),
                i,
                j,
                cd,
            );
            assert(!hit_at(u, *p, v.val(), i, j, cd));
        }
    }
    false
}

/// The naked-pair strategy over one group.
#[derive(Copy, Clone, PartialEq, Eq, Debug)]
pub struct NakedPair;

impl UnitStrategy for NakedPair {
    open spec fn spec_difficulty(&self) -> Difficulty {
        Difficulty::Standard
    }

    /// The delta solves nothing and eliminates, at every position, exactly
    /// the candidates some naked pair confines elsewhere.
    open spec fn unit_delta_spec(&self, u: Seq<(Position, Cell)>, d: StrategyDelta) -> bool {
        &&& forall|p: Position| (#[trigger] d.spec_solved(p)) is None
        &&& forall|p: Position| #[trigger] d.spec_elims(p) == naked_pair_elim_set(u, p)
    }

    fn name(&self) -> String {
        let order = Order(2);
        String::from_str("Naked ").concat(order.label())
    }

    fn difficulty(&self) -> (r: Difficulty)
        ensures
            r == self.spec_difficulty(),
    {
        Difficulty::Standard
    }

    #[verifier::rlimit(100)]
    fn solve_unit(&self, unit: &Unit) -> (d: StrategyDelta) {
        let ghost u = unit@;
        let mut d = StrategyDelta::new();
        let mut ui: usize = 0;
        while ui < unit.len()
            invariant
                d.wf(),
                d.solves().len() == 0,
                u == unit@,
                unit_wf(u),
                ui <= u.len(),
                forall|k: int|
                    0 <= k < ui ==> #[trigger] d.spec_elims(u[k].0) == naked_pair_elim_set(
                        u,
                        u[k].0,
                    ),
                forall|q: Position|
                    assoc_has(d.elims(), q) ==> exists|k: int| 0 <= k < ui && (#[trigger] u[k]).0 == q,
            decreases u.len() - ui,
        {
            let (p, cell) = unit[ui];
            let ghost d_pre = d;
            proof {
                let keys = u.map_values(|e: (Position, Cell)| e.0);
                assert(keys[ui as int] == u[ui as int].0);
                crate::solver::strategies::lemma_assoc_get_at_index(u, ui as int);
                assert(assoc_get(u, p) == Some(cell));
                crate::solver::strategies::lemma_assoc_get_index(d.elims(), p);
                if assoc_has(d.elims(), p) {
                    let k = choose|k: int| 0 <= k < ui && (#[trigger] u[k]).0 == p;
                    assert(keys[k] == u[k].0);
                }
                assert(!assoc_has(d.elims(), p));
                assert(d.spec_elims(p) =~= Set::<u8>::empty());
            }
            match cell {
                Cell::Unsolved(cand) => {
                    let cvals = cand.to_vec();
                    proof {
                        crate::cells::lemma_candidate_list(cand.bits());
                        assert forall|t: int|
                            0 <= t < cvals@.len() implies cand.has(
                            (#[trigger] cvals@[t]).val(),
                        ) by {
                            let lst = candidate_list(cand.bits());
                            assert(cvals@.map_values(|c: CellValue| c.val())[t] == lst[t]);
                        }
                    }
                    let mut t: usize = 0;
                    while t < cvals.len()
                        invariant
                            t <= cvals@.len(),
                            u == unit@,
                            unit_wf(u),
                            0 <= (ui as int) < u.len(),
                            (p, cell) == u[ui as int],
                            cell == Cell::Unsolved(cand),
                            assoc_get(u, p) == Some(cell),
                            cvals@.map_values(|c: CellValue| c.val()) == candidate_list(
                                cand.bits(),
                            ),
                            d.wf(),
                            d.solves().len() == 0,
                            forall|v: u8| #[trigger]
                                d.spec_elims(p).contains(v) <==> (candidate_list(
                                    cand.bits(),
                                ).subrange(0, t as int).contains(v) && (exists|
                                    i: int,
                                    j: int,
                                    cd: Candidates,
                                |
                                    #[trigger] hit_at(u, p, v, i, j, cd))),
                            forall|q: Position| q != p ==> d.spec_elims(q) == d_pre.spec_elims(q),
                            forall|q: Position|
                                assoc_has(d.elims(), q) ==> (assoc_has(d_pre.elims(), q) || q == p),
                            d.solves() == d_pre.solves(),
                        decreases cvals@.len() - t,
                    {
                        let v = cvals[t];
                        proof {
                            assert(v.val() == candidate_list(cand.bits())[t as int]);
                        }
                        let hit = pair_hit(unit, &p, &v);
                        if hit {
                            d.eliminate(p, v);
                        }
                        proof {
                            let lst = candidate_list(cand.bits());
                            let pre = lst.subrange(0, t as int);
                            let cur = lst.subrange(0, t + 1);
                            assert(cur.drop_last() =~= pre);
                            assert(cur.last() == lst[t as int]);
                            assert forall|v2: u8| #[trigger]
                                d.spec_elims(p).contains(v2) <==> (cur.contains(v2) && (exists|
                                i: int,
                                j: int,
                                cd: Candidates,
                            |
                                #[trigger] hit_at(u, p, v2, i, j, cd))) by {
                                if cur.contains(v2) {
                                    let w = choose|w: int| 0 <= w < cur.len() && cur[w] == v2;
                                    if w < pre.len() {
                                        assert(pre[w] == v2);
                                    } else {
                                        assert(v2 == v.val());
                                    }
                                }
                                if pre.contains(v2) {
                                    let w = choose|w: int| 0 <= w < pre.len() && pre[w] == v2;
                                    assert(cur[w] == v2);
                                }
                                if v2 == v.val() {
                                    assert(cur[cur.len() - 1] == v2);
                                }
                            }
                        }
                        t = t + 1;
                    }
                    proof {
                        let lst = candidate_list(cand.bits());
                        assert(lst.subrange(0, lst.len() as int) =~= lst);
                        assert forall|v: u8| #[trigger]
                            d.spec_elims(p).contains(v) <==> naked_pair_elim_set(u, p).contains(
                            v,
                        ) by {
                            assert(lst.contains(v) <==> cand.has(v));
                            assert(d.spec_elims(p).contains(v) <==> (lst.contains(v) && (exists|
                            i: int,
                            j: int,
                            cd: Candidates,
                            |
                                #[trigger] hit_at(u, p, v, i, j, cd))));
                            if naked_pair_elim_set(u, p).contains(v) {
                                let (i, j, cd) = choose|i: int, j: int, cd: Candidates|
                                    {
                                        &&& #[trigger] naked_pair_at(u, i, j, cd)
                                        &&& p != u[i].0 && p != u[j].0
                                        &&& cd.has(v)
                                    };
                                assert(hit_at(u, p, v, i, j, cd));
                            }
                            if lst.contains(v) && (exists|i: int, j: int, cd: Candidates|
                                #[trigger] hit_at(u, p, v, i, j, cd)) {
                                let (i, j, cd) = choose|i: int, j: int, cd: Candidates|
                                    #[trigger] hit_at(u, p, v, i, j, cd);
                                assert(naked_pair_at(u, i, j, cd) && p != u[i].0 && p != u[j].0
                                    && cd.has(v));
                            }
                        }
                        assert(d.spec_elims(p) =~= naked_pair_elim_set(u, p));
                    }
                },
                Cell::Solved(_) => {
                    proof {
                        assert(d.spec_elims(p) =~= naked_pair_elim_set(u, p)) by {
                            assert forall|v: u8|
                                !(#[trigger] naked_pair_elim_set(u, p).contains(v)) by {}
                        }
                    }
                },
            }
            proof {
                assert forall|k: int|
                    0 <= k < ui + 1 implies #[trigger] d.spec_elims(u[k].0) == naked_pair_elim_set(
                    u,
                    u[k].0,
                ) by {
                    if k < ui {
                        assert(u[k].0 != u[ui as int].0) by {
                            let keys = u.map_values(|e: (Position, Cell)| e.0);
                            assert(keys[k] == u[k].0);
                            assert(keys[ui as int] == u[ui as int].0);
                        }
                        assert(d.spec_elims(u[k].0) == d_pre.spec_elims(u[k].0));
                    } else {
                        assert(u[k].0 == p);
                    }
                }
                assert forall|q: Position|
                    assoc_has(d.elims(), q) implies exists|k: int|
                    0 <= k < ui + 1 && (#[trigger] u[k]).0 == q by {
                    if q == p {
                        assert(u[ui as int].0 == q);
                    } else {
                        assert(assoc_has(d_pre.elims(), q));
                        let k = choose|k: int| 0 <= k < ui && (#[trigger] u[k]).0 == q;
                    }
                }
            }
            ui = ui + 1;
        }
        proof {
            assert forall|p: Position| #[trigger] d.spec_elims(p) == naked_pair_elim_set(u, p) by {
                crate::solver::strategies::lemma_assoc_get_index(d.elims(), p);
                crate::solver::strategies::lemma_assoc_get_index(u, p);
                if exists|k: int| 0 <= k < u.len() && (#[trigger] u[k]).0 == p {
                    let k = choose|k: int| 0 <= k < u.len() && (#[trigger] u[k]).0 == p;
                    assert(d.spec_elims(u[k].0) == naked_pair_elim_set(u, u[k].0));
                } else {
                    assert(!assoc_has(d.elims(), p)) by {
                        if assoc_has(d.elims(), p) {
                            let k = choose|k: int| 0 <= k < u.len() && (#[trigger] u[k]).0 == p;
                        }
                    }
                    assert(!assoc_has(u, p));
                    assert(d.spec_elims(p) =~= Set::<u8>::empty());
                    assert(naked_pair_elim_set(u, p) =~= Set::<u8>::empty()) by {
                        assert forall|v: u8|
                            !(#[trigger] naked_pair_elim_set(u, p).contains(v)) by {}
                    }
                }
            }
            assert forall|p: Position| ((#[trigger] d.spec_solved(p)) is None) by {
                crate::solver::strategies::lemma_assoc_get_index(d.solves(), p);
            }
            assert forall|k: int| 0 <= k < d.elims().len() implies {
                let p = (#[trigger] d.elims()[k]).0;
                let cd = d.elims()[k].1;
                &&& assoc_get(u, p) matches Some(c) && c is Unsolved && (forall|v: u8|
                    cd.to_set().contains(v) ==> c.spec_can_be(v))
            } by {
                let p = d.elims()[k].0;
                let cd = d.elims()[k].1;
                crate::solver::strategies::lemma_assoc_get_at_index(d.elims(), k);
                assert(d.spec_elims(p) == cd.to_set());
                assert(d.spec_elims(p) == naked_pair_elim_set(u, p));
                crate::cells::lemma_candidate_list(cd.bits());
                let lst = candidate_list(cd.bits());
                assert(lst.len() >= 1);
                assert(cd.to_set().contains(lst[0]));
                assert(naked_pair_elim_set(u, p).contains(lst[0]));
                assert forall|v: u8| cd.to_set().contains(v) implies assoc_get(
                    u,
                    p,
                ).unwrap().spec_can_be(v) by {
                    assert(naked_pair_elim_set(u, p).contains(v));
                }
            }
        }
        d
    }
}

} // verus!
