//! The special-cased naked-triple strategy: three unsolved cells of a group
//! whose candidates union to exactly three values confine those values, so
//! they are removed from every other unsolved cell of the group. It scans
//! cell triples directly instead of going through the generic search.

use vstd::prelude::*;
use vstd::seq_lib::*;

use crate::cells::candidate_list;
use crate::cells::Cell;
use crate::cells::CellValue;
use crate::grid::Unit;
use crate::pos::Position;
use crate::solver::sets::Order;
use crate::solver::strategies::assoc_get;
use crate::solver::strategies::assoc_has;
use crate::solver::strategies::unit_wf;
use crate::solver::strategies::Difficulty;
use crate::solver::strategies::StrategyDelta;
use crate::solver::strategies::UnitStrategy;

verus! {

broadcast use crate::cells::Candidates::lemma_bits_len;

/// The candidates of an unsolved cell, as a set; a solved cell has none.
pub open spec fn cell_cand_set(c: Cell) -> Set<u8> {
    match c {
        Cell::Unsolved(cd) => cd.to_set(),
        Cell::Solved(_) => Set::empty(),
    }
}

/// The candidates of the group's cells at entries `i`, `j` and `k` together.
pub open spec fn triple_union(u: Seq<(Position, Cell)>, i: int, j: int, k: int) -> Set<u8> {
    cell_cand_set(u[i].1) + cell_cand_set(u[j].1) + cell_cand_set(u[k].1)
}

/// A naked triple at entries `i < j < k`: three unsolved cells whose
/// candidates union to exactly three values.
pub open spec fn triple_at(u: Seq<(Position, Cell)>, i: int, j: int, k: int) -> bool {
    &&& 0 <= i < j && j < k < u.len()
    &&& u[i].1 is Unsolved
    &&& u[j].1 is Unsolved
    &&& u[k].1 is Unsolved
    &&& triple_union(u, i, j, k).len() == 3
}

/// What the naked-triple strategy eliminates at `p`: candidates of `p`'s
/// unsolved cell confined by some triple that does not hold `p`.
pub open spec fn naked_triple_elim_set(u: Seq<(Position, Cell)>, p: Position) -> Set<u8> {
    Set::new(
        |v: u8|
            {
                &&& assoc_get(u, p) matches Some(c) && c is Unsolved && c.spec_can_be(v)
                &&& exists|i: int, j: int, k: int|
                    {
                        &&& #[trigger] triple_at(u, i, j, k)
                        &&& p != u[i].0 && p != u[j].0 && p != u[k].0
                        &&& triple_union(u, i, j, k).contains(v)
                    }
            },
    )
}

/// Whether entries `i`, `j`, `k` form a naked triple avoiding `p` and
/// confining `v`. Defined over the group so loops can speak about it.
spec fn hit_at(u: Seq<(Position, Cell)>, p: Position, v: u8, i: int, j: int, k: int) -> bool {
    &&& triple_at(u, i, j, k)
    &&& p != u[i].0 && p != u[j].0 && p != u[k].0
    &&& triple_union(u, i, j, k).contains(v)
}

/// Decide whether some naked triple of the group eliminates `v` at `p`.
/// `idxs` lists the unsolved entries, in increasing order and completely.
fn triple_hit(unit: &Unit, idxs: &Vec<usize>, p: &Position, v: &CellValue) -> (r: bool)
    requires
        forall|t: int| 0 <= t < idxs@.len() ==> (#[trigger] idxs@[t]) < unit@.len(),
        forall|t: int| 0 <= t < idxs@.len() ==> unit@[(#[trigger] idxs@[t]) as int].1 is Unsolved,
        forall|t1: int, t2: int| 0 <= t1 < t2 < idxs@.len() ==> idxs@[t1] < idxs@[t2],
        forall|m: int|
            0 <= m < unit@.len() && (#[trigger] unit@[m]).1 is Unsolved ==> exists|t: int|
                0 <= t < idxs@.len() && (#[trigger] idxs@[t]) as int == m,
    ensures
        r == exists|i: int, j: int, k: int| #[trigger] hit_at(unit@, *p, v.val(), i, j, k),
{
    let ghost u = unit@;
    let n = idxs.len();
    let mut a: usize = 0;
    while a < n
        invariant
            n == idxs@.len(),
            a <= n,
            u == unit@,
            forall|t: int| 0 <= t < n ==> (#[trigger] idxs@[t]) < u.len(),
            forall|t: int| 0 <= t < n ==> u[(#[trigger] idxs@[t]) as int].1 is Unsolved,
            forall|t1: int, t2: int| 0 <= t1 < t2 < n ==> idxs@[t1] < idxs@[t2],
            forall|a2: int, b2: int, c2: int|
                #![trigger idxs@[a2], idxs@[b2], idxs@[c2]]
                0 <= a2 < a && a2 < b2 < c2 < n ==> !hit_at(
                    u,
                    *p,
                    v.val(),
                    idxs@[a2] as int,
                    idxs@[b2] as int,
                    idxs@[c2] as int,
                ),
        decreases n - a,
    {
        let mut b: usize = a + 1;
        while b < n
            invariant
                n == idxs@.len(),
                a < b <= n || b == a + 1,
                a < n,
                a + 1 <= b <= n,
                u == unit@,
                forall|t: int| 0 <= t < n ==> (#[trigger] idxs@[t]) < u.len(),
                forall|t: int| 0 <= t < n ==> u[(#[trigger] idxs@[t]) as int].1 is Unsolved,
                forall|t1: int, t2: int| 0 <= t1 < t2 < n ==> idxs@[t1] < idxs@[t2],
                forall|a2: int, b2: int, c2: int|
                    #![trigger idxs@[a2], idxs@[b2], idxs@[c2]]
                    0 <= a2 < a && a2 < b2 < c2 < n ==> !hit_at(
                        u,
                        *p,
                        v.val(),
                        idxs@[a2] as int,
                        idxs@[b2] as int,
                        idxs@[c2] as int,
                    ),
                forall|b2: int, c2: int|
                    #![trigger idxs@[b2], idxs@[c2]]
                    a < b2 < b && b2 < c2 < n ==> !hit_at(
                        u,
                        *p,
                        v.val(),
                        idxs@[a as int] as int,
                        idxs@[b2] as int,
                        idxs@[c2] as int,
                    ),
            decreases n - b,
        {
            let mut c: usize = b + 1;
            while c < n
                invariant
                    n == idxs@.len(),
                    a < n,
                    a < b < n,
                    b + 1 <= c <= n || c == b + 1,
                    b < c <= n || c == b + 1,
                    u == unit@,
                    forall|t: int| 0 <= t < n ==> (#[trigger] idxs@[t]) < u.len(),
                    forall|t: int| 0 <= t < n ==> u[(#[trigger] idxs@[t]) as int].1 is Unsolved,
                    forall|t1: int, t2: int| 0 <= t1 < t2 < n ==> idxs@[t1] < idxs@[t2],
                    forall|c2: int|
                        b < c2 < c ==> !hit_at(
                            u,
                            *p,
                            v.val(),
                            idxs@[a as int] as int,
                            idxs@[b as int] as int,
                            (#[trigger] idxs@[c2]) as int,
                        ),
                decreases n - c,
            {
                let i = idxs[a];
                let j = idxs[b];
                let k = idxs[c];
                let (pi, ci) = unit[i];
                let (pj, cj) = unit[j];
                let (pk, ck) = unit[k];
                let cdi = match ci {
                    Cell::Unsolved(cd) => cd,
                    Cell::Solved(_) => crate::cells::Candidates::new([false; 9]),
                };
                let cdj = match cj {
                    Cell::Unsolved(cd) => cd,
                    Cell::Solved(_) => crate::cells::Candidates::new([false; 9]),
                };
                let cdk = match ck {
                    Cell::Unsolved(cd) => cd,
                    Cell::Solved(_) => crate::cells::Candidates::new([false; 9]),
                };
                let combined = cdi.combine(&cdj).combine(&cdk);
                proof {
                    // the combined flags are the union of the three sets
                    crate::cells::lemma_candidate_list(combined.bits());
                    crate::cells::lemma_candidate_list(cdi.bits());
                    crate::cells::lemma_candidate_list(cdj.bits());
                    crate::cells::lemma_candidate_list(cdk.bits());
                    assert(combined.to_set() =~= triple_union(u, i as int, j as int, k as int))
                        by {
                        assert forall|w: u8| #[trigger]
                            combined.to_set().contains(w) <==> triple_union(
                            u,
                            i as int,
                            j as int,
                            k as int,
                        ).contains(w) by {
                            assert(combined.to_set().contains(w) <==> combined.has(w));
                            assert(cdi.to_set().contains(w) <==> cdi.has(w));
                            assert(cdj.to_set().contains(w) <==> cdj.has(w));
                            assert(cdk.to_set().contains(w) <==> cdk.has(w));
                        }
                    }
                    candidate_list(combined.bits()).unique_seq_to_set();
                }
                if combined.count() == 3 && !(p == &pi) && !(p == &pj) && !(p == &pk)
                    && combined.can_be(v) {
                    proof {
                        assert(hit_at(u, *p, v.val(), i as int, j as int, k as int));
                    }
                    return true;
                }
                proof {
                    assert(!hit_at(u, *p, v.val(), i as int, j as int, k as int));
                }
                c = c + 1;
            }
            b = b + 1;
        }
        a = a + 1;
    }
    proof {
        // any qualifying triple consists of unsolved entries, which are all
        // listed in order, so the scan would have found it
        if exists|i: int, j: int, k: int| #[trigger] hit_at(u, *p, v.val(), i, j, k) {
            let (i, j, k) = choose|i: int, j: int, k: int| #[trigger] hit_at(u, *p, v.val(), i, j, k);
            assert(0 <= i < j && j < k < u.len());
            assert(unit@[i].1 is Unsolved && unit@[j].1 is Unsolved && unit@[k].1 is Unsolved);
            let ta = choose|t: int| 0 <= t < idxs@.len() && (#[trigger] idxs@[t]) as int == i;
            let tb = choose|t: int| 0 <= t < idxs@.len() && (#[trigger] idxs@[t]) as int == j;
            let tc = choose|t: int| 0 <= t < idxs@.len() && (#[trigger] idxs@[t]) as int == k;
            assert(idxs@[ta] as int == i && idxs@[tb] as int == j && idxs@[tc] as int == k);
            assert(ta < tb) by {
                if tb < ta {
                    assert(idxs@[tb] < idxs@[ta]);
                    assert(false);
                }
                if tb == ta {
                    assert(false);
                }
            }
            assert(tb < tc) by {
                if tc < tb {
                    assert(idxs@[tc] < idxs@[tb]);
                    assert(false);
                }
                if tc == tb {
                    assert(false);
                }
            }
            assert(!hit_at(u, *p, v.val(), idxs@[ta] as int, idxs@[tb] as int, idxs@[tc] as int));
            assert(false);
        }
    }
    false
}

/// The naked-triple strategy over one group.
#[derive(Copy, Clone, PartialEq, Eq, Debug)]
pub struct NakedTriple;

impl UnitStrategy for NakedTriple {
    open spec fn spec_difficulty(&self) -> Difficulty {
        Difficulty::Standard
    }

    /// The delta solves nothing and eliminates, at every position, exactly
    /// the candidates some triple confines elsewhere.
    open spec fn unit_delta_spec(&self, u: Seq<(Position, Cell)>, d: StrategyDelta) -> bool {
        &&& forall|p: Position| (#[trigger] d.spec_solved(p)) is None
        &&& forall|p: Position| #[trigger] d.spec_elims(p) == naked_triple_elim_set(u, p)
    }

    fn name(&self) -> String {
        let order = Order(3);
        String::from_str("Naked ").concat(order.label())
    }

    fn difficulty(&self) -> (r: Difficulty)
        ensures
            r == self.spec_difficulty(),
    {
        Difficulty::Standard
    }

    #[verifier::rlimit(100)]
    fn solve_unit(&self, unit: &Unit) -> (d: StrategyDelta) {
        let ghost u = unit@;
        // the unsolved entries, in order
        let mut idxs: Vec<usize> = Vec::new();
        let mut m: usize = 0;
        while m < unit.len()
            invariant
                u == unit@,
                m <= u.len(),
                forall|t: int| 0 <= t < idxs@.len() ==> (#[trigger] idxs@[t]) < m,
                forall|t: int|
                    0 <= t < idxs@.len() ==> u[(#[trigger] idxs@[t]) as int].1 is Unsolved,
                forall|t1: int, t2: int| 0 <= t1 < t2 < idxs@.len() ==> idxs@[t1] < idxs@[t2],
                forall|m2: int|
                    0 <= m2 < m && (#[trigger] u[m2]).1 is Unsolved ==> exists|t: int|
                        0 <= t < idxs@.len() && (#[trigger] idxs@[t]) as int == m2,
            decreases u.len() - m,
        {
            match unit[m].1 {
                Cell::Unsolved(_) => {
                    let ghost idxs_pre = idxs@;
                    idxs.push(m);
                    proof {
                        assert(idxs@.drop_last() =~= idxs_pre);
                        assert(idxs@[idxs@.len() - 1] == m);
                        assert forall|m2: int|
                            0 <= m2 < m + 1 && (#[trigger] u[m2]).1 is Unsolved implies exists|t: int|
                            0 <= t < idxs@.len() && (#[trigger] idxs@[t]) as int == m2 by {
                            if m2 < m {
                                let t = choose|t: int|
                                    0 <= t < idxs_pre.len() && (#[trigger] idxs_pre[t]) as int
                                        == m2;
                                assert(idxs@[t] as int == m2);
                            } else {
                                assert(idxs@[idxs@.len() - 1] as int == m2);
                            }
                        }
                    }
                },
                Cell::Solved(_) => {
                    proof {
                        assert forall|m2: int|
                            0 <= m2 < m + 1 && (#[trigger] u[m2]).1 is Unsolved implies exists|t: int|
                            0 <= t < idxs@.len() && (#[trigger] idxs@[t]) as int == m2 by {}
                    }
                },
            }
            m = m + 1;
        }
        let mut d = StrategyDelta::new();
        let mut ui: usize = 0;
        while ui < unit.len()
            invariant
                d.wf(),
                d.solves().len() == 0,
                u == unit@,
                unit_wf(u),
                ui <= u.len(),
                forall|t: int| 0 <= t < idxs@.len() ==> (#[trigger] idxs@[t]) < u.len(),
                forall|t: int|
                    0 <= t < idxs@.len() ==> u[(#[trigger] idxs@[t]) as int].1 is Unsolved,
                forall|t1: int, t2: int| 0 <= t1 < t2 < idxs@.len() ==> idxs@[t1] < idxs@[t2],
                forall|m2: int|
                    0 <= m2 < u.len() && (#[trigger] u[m2]).1 is Unsolved ==> exists|t: int|
                        0 <= t < idxs@.len() && (#[trigger] idxs@[t]) as int == m2,
                forall|k: int|
                    0 <= k < ui ==> #[trigger] d.spec_elims(u[k].0) == naked_triple_elim_set(
                        u,
                        u[k].0,
                    ),
                forall|q: Position|
                    assoc_has(d.elims(), q) ==> exists|k: int| 0 <= k < ui && (#[trigger] u[k]).0 == q,
            decreases u.len() - ui,
        {
            let (p, cell) = unit[ui];
            let ghost d_pre = d;
            proof {
                let keys = u.map_values(|e: (Position, Cell)| e.0);
                assert(keys[ui as int] == u[ui as int].0);
                crate::solver::strategies::lemma_assoc_get_at_index(u, ui as int);
                assert(assoc_get(u, p) == Some(cell));
                crate::solver::strategies::lemma_assoc_get_index(d.elims(), p);
                if assoc_has(d.elims(), p) {
                    let k = choose|k: int| 0 <= k < ui && (#[trigger] u[k]).0 == p;
                    assert(keys[k] == u[k].0);
                }
                assert(!assoc_has(d.elims(), p));
                assert(d.spec_elims(p) =~= Set::<u8>::empty());
            }
            match cell {
                Cell::Unsolved(cand) => {
                    let cvals = cand.to_vec();
                    proof {
                        crate::cells::lemma_candidate_list(cand.bits());
                        assert forall|t: int|
                            0 <= t < cvals@.len() implies cand.has(
                            (#[trigger] cvals@[t]).val(),
                        ) by {
                            let lst = candidate_list(cand.bits());
                            assert(cvals@.map_values(|c: CellValue| c.val())[t] == lst[t]);
                        }
                    }
                    let mut t: usize = 0;
                    while t < cvals.len()
                        invariant
                            t <= cvals@.len(),
                            u == unit@,
                            unit_wf(u),
                            0 <= (ui as int) < u.len(),
                            (p, cell) == u[ui as int],
                            cell == Cell::Unsolved(cand),
                            assoc_get(u, p) == Some(cell),
                            forall|tt: int| 0 <= tt < idxs@.len() ==> (#[trigger] idxs@[tt]) < u.len(),
                            forall|tt: int|
                                0 <= tt < idxs@.len() ==> u[(#[trigger] idxs@[tt]) as int].1
                                    is Unsolved,
                            forall|t1: int, t2: int|
                                0 <= t1 < t2 < idxs@.len() ==> idxs@[t1] < idxs@[t2],
                            forall|m2: int|
                                0 <= m2 < u.len() && (#[trigger] u[m2]).1 is Unsolved
                                    ==> exists|t: int|
                                    0 <= t < idxs@.len() && (#[trigger] idxs@[t]) as int == m2,
                            cvals@.map_values(|c: CellValue| c.val()) == candidate_list(
                                cand.bits(),
                            ),
                            d.wf(),
                            d.solves().len() == 0,
                            forall|v: u8| #[trigger]
                                d.spec_elims(p).contains(v) <==> (candidate_list(
                                    cand.bits(),
                                ).subrange(0, t as int).contains(v) && (exists|i: int, j: int, k: int|
                                    #[trigger] hit_at(u, p, v, i, j, k))),
                            forall|q: Position| q != p ==> d.spec_elims(q) == d_pre.spec_elims(q),
                            forall|q: Position|
                                assoc_has(d.elims(), q) ==> (assoc_has(d_pre.elims(), q) || q == p),
                            d.solves() == d_pre.solves(),
                        decreases cvals@.len() - t,
                    {
                        let v = cvals[t];
                        proof {
                            assert(v.val() == candidate_list(cand.bits())[t as int]);
                        }
                        let hit = triple_hit(unit, &idxs, &p, &v);
                        if hit {
                            d.eliminate(p, v);
                        }
                        proof {
                            let lst = candidate_list(cand.bits());
                            let pre = lst.subrange(0, t as int);
                            let cur = lst.subrange(0, t + 1);
                            assert(cur.drop_last() =~= pre);
                            assert(cur.last() == lst[t as int]);
                            assert forall|v2: u8| #[trigger]
                                d.spec_elims(p).contains(v2) <==> (cur.contains(v2) && (exists|
                                i: int,
                                j: int,
                                k: int,
                            |
                                #[trigger] hit_at(u, p, v2, i, j, k))) by {
                                if cur.contains(v2) {
                                    let w = choose|w: int| 0 <= w < cur.len() && cur[w] == v2;
                                    if w < pre.len() {
                                        assert(pre[w] == v2);
                                    } else {
                                        assert(v2 == v.val());
                                    }
                                }
                                if pre.contains(v2) {
                                    let w = choose|w: int| 0 <= w < pre.len() && pre[w] == v2;
                                    assert(cur[w] == v2);
                                }
                                if v2 == v.val() {
                                    assert(cur[cur.len() - 1] == v2);
                                }
                            }
                        }
                        t = t + 1;
                    }
                    proof {
                        let lst = candidate_list(cand.bits());
                        assert(lst.subrange(0, lst.len() as int) =~= lst);
                        assert forall|v: u8| #[trigger]
                            d.spec_elims(p).contains(v) <==> naked_triple_elim_set(u, p).contains(
                            v,
                        ) by {
                            assert(lst.contains(v) <==> cand.has(v));
                            assert(d.spec_elims(p).contains(v) <==> (lst.contains(v) && (exists|
                            i: int,
                            j: int,
                            k: int,
                            |
                                #[trigger] hit_at(u, p, v, i, j, k))));
                            if naked_triple_elim_set(u, p).contains(v) {
                                let (i, j, k) = choose|i: int, j: int, k: int|
                                    {
                                        &&& #[trigger] triple_at(u, i, j, k)
                                        &&& p != u[i].0 && p != u[j].0 && p != u[k].0
                                        &&& triple_union(u, i, j, k).contains(v)
                                    };
                                assert(hit_at(u, p, v, i, j, k));
                            }
                            if lst.contains(v) && (exists|i: int, j: int, k: int|
                                #[trigger] hit_at(u, p, v, i, j, k)) {
                                let (i, j, k) = choose|i: int, j: int, k: int|
                                    #[trigger] hit_at(u, p, v, i, j, k);
                                assert(triple_at(u, i, j, k) && p != u[i].0 && p != u[j].0 && p
                                    != u[k].0 && triple_union(u, i, j, k).contains(v));
                            }
                        }
                        assert(d.spec_elims(p) =~= naked_triple_elim_set(u, p));
                    }
                },
                Cell::Solved(_) => {
                    proof {
                        assert(d.spec_elims(p) =~= naked_triple_elim_set(u, p)) by {
                            assert forall|v: u8|
                                !(#[trigger] naked_triple_elim_set(u, p).contains(v)) by {}
                        }
                    }
                },
            }
            proof {
                assert forall|k: int|
                    0 <= k < ui + 1 implies #[trigger] d.spec_elims(u[k].0) == naked_triple_elim_set(
                    u,
                    u[k].0,
                ) by {
                    if k < ui {
                        assert(u[k].0 != u[ui as int].0) by {
                            let keys = u.map_values(|e: (Position, Cell)| e.0);
                            assert(keys[k] == u[k].0);
                            assert(keys[ui as int] == u[ui as int].0);
                        }
                        assert(d.spec_elims(u[k].0) == d_pre.spec_elims(u[k].0));
                    } else {
                        assert(u[k].0 == p);
                    }
                }
                assert forall|q: Position|
                    assoc_has(d.elims(), q) implies exists|k: int|
                    0 <= k < ui + 1 && (#[trigger] u[k]).0 == q by {
                    if q == p {
                        assert(u[ui as int].0 == q);
                    } else {
                        assert(assoc_has(d_pre.elims(), q));
                        let k = choose|k: int| 0 <= k < ui && (#[trigger] u[k]).0 == q;
                    }
                }
            }
            ui = ui + 1;
        }
        proof {
            assert forall|p: Position| #[trigger] d.spec_elims(p) == naked_triple_elim_set(
                u,
                p,
            ) by {
                crate::solver::strategies::lemma_assoc_get_index(d.elims(), p);
                crate::solver::strategies::lemma_assoc_get_index(u, p);
                if exists|k: int| 0 <= k < u.len() && (#[trigger] u[k]).0 == p {
                    let k = choose|k: int| 0 <= k < u.len() && (#[trigger] u[k]).0 == p;
                    assert(d.spec_elims(u[k].0) == naked_triple_elim_set(u, u[k].0));
                } else {
                    assert(!assoc_has(d.elims(), p)) by {
                        if assoc_has(d.elims(), p) {
                            let k = choose|k: int| 0 <= k < u.len() && (#[trigger] u[k]).0 == p;
                        }
                    }
                    assert(!assoc_has(u, p));
                    assert(d.spec_elims(p) =~= Set::<u8>::empty());
                    assert(naked_triple_elim_set(u, p) =~= Set::<u8>::empty()) by {
                        assert forall|v: u8|
                            !(#[trigger] naked_triple_elim_set(u, p).contains(v)) by {}
                    }
                }
            }
            assert forall|p: Position| ((#[trigger] d.spec_solved(p)) is None) by {
                crate::solver::strategies::lemma_assoc_get_index(d.solves(), p);
            }
            assert forall|k: int| 0 <= k < d.elims().len() implies {
                let p = (#[trigger] d.elims()[k]).0;
                let cd = d.elims()[k].1;
                &&& assoc_get(u, p) matches Some(c) && c is Unsolved && (forall|v: u8|
                    cd.to_set().contains(v) ==> c.spec_can_be(v))
            } by {
                let p = d.elims()[k].0;
                let cd = d.elims()[k].1;
                crate::solver::strategies::lemma_assoc_get_at_index(d.elims(), k);
                assert(d.spec_elims(p) == cd.to_set());
                assert(d.spec_elims(p) == naked_triple_elim_set(u, p));
                crate::cells::lemma_candidate_list(cd.bits());
                let lst = candidate_list(cd.bits());
                assert(lst.len() >= 1);
                assert(cd.to_set().contains(lst[0]));
                assert(naked_triple_elim_set(u, p).contains(lst[0]));
                assert forall|v: u8| cd.to_set().contains(v) implies assoc_get(
                    u,
                    p,
                ).unwrap().spec_can_be(v) by {
                    assert(naked_triple_elim_set(u, p).contains(v));
                }
            }
        }
        d
    }
}

} // verus!
