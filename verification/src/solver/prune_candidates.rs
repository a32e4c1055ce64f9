//! The trivial strategy: remove from each unsolved cell every candidate
//! already solved elsewhere in that cell's row, column or box. It runs first
//! and is what re-establishes "candidates are consistent with solved cells"
//! after every mutation.

use vstd::prelude::*;

use crate::cells::Candidates;
use crate::cells::Cell;
use crate::grid::Grid;
use crate::pos::pos_valid;
use crate::pos::Position;
use crate::solver::strategies::delta_grounded;
use crate::solver::strategies::Difficulty;
use crate::solver::strategies::Strategy;
use crate::solver::strategies::StrategyDelta;

verus! {

broadcast use {crate::cells::Candidates::lemma_bits_len, crate::grid::Grid::lemma_len};

/// Whether the cell is solved with exactly the value `v`.
pub open spec fn spec_solved_value(c: Cell, v: u8) -> bool {
    c matches Cell::Solved(w) && w.val() == v
}

/// The candidates pruning removes at `p`: values of `p`'s still-open
/// candidate set that are already solved at some other position `p` sees.
pub open spec fn prune_elims(cells: Seq<Cell>, p: Position) -> Set<u8> {
    Set::new(
        |v: u8|
            {
                &&& cells[p.spec_index()] is Unsolved
                &&& cells[p.spec_index()].spec_can_be(v)
                &&& exists|q: Position|
                    {
                        &&& pos_valid(q)
                        &&& q != p
                        &&& Position::sees(p, q)
                        &&& spec_solved_value(#[trigger] cells[q.spec_index()], v)
                    }
            },
    )
}

/// Candidate pruning over the whole grid, one accumulated delta.
#[derive(Copy, Clone, PartialEq, Eq, Debug)]
pub struct PruneCandidates;

impl Strategy for PruneCandidates {
    open spec fn spec_difficulty(&self) -> Difficulty {
        Difficulty::Trivial
    }

    /// The delta solves nothing and eliminates, at every position, exactly
    /// the seen-solved candidates.
    open spec fn delta_spec(&self, cells: Seq<Cell>, d: StrategyDelta) -> bool {
        &&& forall|p: Position| (#[trigger] d.spec_solved(p)) is None
        &&& forall|p: Position| pos_valid(p) ==> #[trigger] d.spec_elims(p) == prune_elims(cells, p)
    }

    fn name(&self) -> String {
        String::from_str("Prune Candidates")
    }

    fn difficulty(&self) -> (r: Difficulty)
        ensures
            r == self.spec_difficulty(),
    {
        Difficulty::Trivial
    }

    #[verifier::rlimit(50)]
    fn solve(&self, grid: &Grid) -> (d: StrategyDelta)
        ensures
            d.wf(),
            delta_grounded(d, grid@),
            self.delta_spec(grid@, d),
    {
        let mut d = StrategyDelta::new();
        let gv = Position::grid_vec();
        proof {
            broadcast use Position::lemma_from_spec;

            assert forall|k: int| 0 <= k < 81 implies pos_valid(#[trigger] gv@[k]) by {
                assert(gv@[k] == Position::from_spec((k / 9 + 1) as u8, (k % 9 + 1) as u8));
            }
        }
        let mut i: usize = 0;
        while i < 81
            invariant
                i <= 81,
                gv@.len() == 81,
                gv@.no_duplicates(),
                forall|q: Position| pos_valid(q) ==> #[trigger] gv@.contains(q),
                forall|k: int|
                    0 <= k < 81 ==> pos_valid(#[trigger] gv@[k]),
                d.wf(),
                d.solves().len() == 0,
                forall|k: int|
                    0 <= k < i ==> #[trigger] d.spec_elims(gv@[k]) == prune_elims(grid@, gv@[k]),
                forall|q: Position|
                    crate::solver::strategies::assoc_has(d.elims(), q) ==> exists|k: int|
                        0 <= k < i && #[trigger] gv@[k] == q,
            decreases 81 - i,
        {
            let p = gv[i];
            proof {
                assert(gv@.contains(gv@[i as int]));
            }
            let cell = grid.get_cell(p);
            let ghost d_pre = d;
            match cell {
                Cell::Unsolved(cand) => {
                    let seen = p.seen_vec(false);
                    let base = [false; 9];
                    proof {
                        broadcast use vstd::array::axiom_spec_array_fill_for_copy_type;

                        assert(base == vstd::array::spec_array_fill_for_copy_type::<bool, 9>(
                            false,
                        ));
                        assert(forall|i: int| 0 <= i < 9 ==> !base@[i]);
                    }
                    let mut to_remove = Candidates::new(base);
                    let mut j: usize = 0;
                    while j < seen.len()
                        invariant
                            j <= seen@.len(),
                            p == gv@[i as int],
                            pos_valid(p),
                            grid@[p.spec_index()] == Cell::Unsolved(cand),
                            forall|q: Position| #[trigger]
                                seen@.contains(q) <==> (pos_valid(q) && Position::sees(p, q) && q
                                    != p),
                            forall|v: u8|
                                #[trigger] to_remove.has(v) <==> (cand.has(v) && exists|jj: int|
                                    0 <= jj < j && spec_solved_value(
                                        grid@[(#[trigger] seen@[jj]).spec_index()],
                                        v,
                                    )),
                        decreases seen@.len() - j,
                    {
                        let q = seen[j];
                        proof {
                            assert(seen@.contains(seen@[j as int]));
                        }
                        let ghost tr0 = to_remove;
                        match grid.get_cell(q) {
                            Cell::Solved(w) => {
                                if cand.can_be(&w) {
                                    proof {
                                        use_type_invariant(&w);
                                    }
                                    to_remove.add(&w);
                                    proof {
                                        assert forall|v: u8| #[trigger]
                                            to_remove.has(v) <==> (cand.has(v) && exists|jj: int|
                                            0 <= jj < j + 1 && spec_solved_value(
                                                grid@[(#[trigger] seen@[jj]).spec_index()],
                                                v,
                                            )) by {
                                            if v == w.val() {
                                                assert(to_remove.has(v));
                                                assert(spec_solved_value(
                                                    grid@[(seen@[j as int]).spec_index()],
                                                    v,
                                                ));
                                            } else {
                                                assert(to_remove.has(v) == tr0.has(v)) by {
                                                    if 1 <= v <= 9 {
                                                        assert(to_remove.bits()[v - 1]
                                                            == tr0.bits()[v - 1]);
                                                    }
                                                }
                                                if tr0.has(v) {
                                                    let jj = choose|jj: int|
                                                        0 <= jj < j && spec_solved_value(
                                                            grid@[(
                                                            #[trigger] seen@[jj]).spec_index()],
                                                            v,
                                                        );
                                                    assert(0 <= jj < j + 1);
                                                } else if cand.has(v) && exists|jj: int|
                                                    0 <= jj < j + 1 && spec_solved_value(
                                                        grid@[(#[trigger] seen@[jj]).spec_index()],
                                                        v,
                                                    ) {
                                                    let jj = choose|jj: int|
                                                        0 <= jj < j + 1 && spec_solved_value(
                                                            grid@[(
                                                            #[trigger] seen@[jj]).spec_index()],
                                                            v,
                                                        );
                                                    assert(jj < j);
                                                }
                                            }
                                        }
                                    }
                                } else {
                                    proof {
                                        assert forall|v: u8| #[trigger]
                                            to_remove.has(v) <==> (cand.has(v) && exists|jj: int|
                                            0 <= jj < j + 1 && spec_solved_value(
                                                grid@[(#[trigger] seen@[jj]).spec_index()],
                                                v,
                                            )) by {
                                            if cand.has(v) && exists|jj: int|
                                                0 <= jj < j + 1 && spec_solved_value(
                                                    grid@[(#[trigger] seen@[jj]).spec_index()],
                                                    v,
                                                ) {
                                                let jj = choose|jj: int|
                                                    0 <= jj < j + 1 && spec_solved_value(
                                                        grid@[(#[trigger] seen@[jj]).spec_index()],
                                                        v,
                                                    );
                                                if jj == j {
                                                    assert(v == w.val());
                                                }
                                            }
                                        }
                                    }
                                }
                            },
                            Cell::Unsolved(_) => {
                                proof {
                                    assert forall|v: u8| #[trigger]
                                        to_remove.has(v) <==> (cand.has(v) && exists|jj: int|
                                        0 <= jj < j + 1 && spec_solved_value(
                                            grid@[(#[trigger] seen@[jj]).spec_index()],
                                            v,
                                        )) by {
                                        if cand.has(v) && exists|jj: int|
                                            0 <= jj < j + 1 && spec_solved_value(
                                                grid@[(#[trigger] seen@[jj]).spec_index()],
                                                v,
                                            ) {
                                            let jj = choose|jj: int|
                                                0 <= jj < j + 1 && spec_solved_value(
                                                    grid@[(#[trigger] seen@[jj]).spec_index()],
                                                    v,
                                                );
                                            assert(jj < j);
                                        }
                                    }
                                }
                            },
                        }
                        j = j + 1;
                    }
                    let vals = to_remove.to_vec();
                    let mut t: usize = 0;
                    proof {
                        crate::cells::lemma_candidate_list(to_remove.bits());
                        assert forall|jj: int|
                            0 <= jj < vals@.len() implies to_remove.has(
                            (#[trigger] vals@[jj]).val(),
                        ) by {
                            let lst = crate::cells::candidate_list(to_remove.bits());
                            assert(vals@.map_values(|c: crate::cells::CellValue| c.val())[jj]
                                == lst[jj]);
                        }
                        crate::solver::strategies::lemma_assoc_get_index(d.elims(), p);
                        if crate::solver::strategies::assoc_has(d.elims(), p) {
                            let k = choose|k: int| 0 <= k < i && #[trigger] gv@[k] == p;
                        }
                        assert(!crate::solver::strategies::assoc_has(d.elims(), p));
                        assert(d.spec_elims(p) =~= Set::<u8>::empty());
                    }
                    while t < vals.len()
                        invariant
                            t <= vals@.len(),
                            p == gv@[i as int],
                            pos_valid(p),
                            vals@.map_values(|c: crate::cells::CellValue| c.val())
                                == crate::cells::candidate_list(to_remove.bits()),
                            forall|jj: int|
                                0 <= jj < vals@.len() ==> to_remove.has(
                                    (#[trigger] vals@[jj]).val(),
                                ),
                            d.wf(),
                            d.solves().len() == 0,
                            forall|v: u8| #[trigger]
                                d.spec_elims(p).contains(v) <==> crate::cells::candidate_list(
                                    to_remove.bits(),
                                ).subrange(0, t as int).contains(v),
                            forall|q: Position| q != p ==> d.spec_elims(q) == d_pre.spec_elims(q),
                            forall|q: Position|
                                crate::solver::strategies::assoc_has(d.elims(), q)
                                    ==> (crate::solver::strategies::assoc_has(d_pre.elims(), q) || q
                                    == p),
                            d.solves() == d_pre.solves(),
                        decreases vals@.len() - t,
                    {
                        let v = vals[t];
                        proof {
                            assert(v.val() == crate::cells::candidate_list(to_remove.bits())[t as int]);
                        }
                        d.eliminate(p, v);
                        proof {
                            let lst = crate::cells::candidate_list(to_remove.bits());
                            let pre = lst.subrange(0, t as int);
                            let cur = lst.subrange(0, t + 1);
                            assert(cur.drop_last() =~= pre);
                            assert(cur.last() == lst[t as int]);
                            assert forall|v2: u8| #[trigger]
                                d.spec_elims(p).contains(v2) <==> cur.contains(v2) by {
                                if d.spec_elims(p).contains(v2) {
                                    if v2 == v.val() {
                                        assert(cur[cur.len() - 1] == v2);
                                    } else {
                                        let w = choose|w: int| 0 <= w < pre.len() && pre[w] == v2;
                                        assert(cur[w] == v2);
                                    }
                                } else {
                                    if cur.contains(v2) {
                                        let w = choose|w: int| 0 <= w < cur.len() && cur[w] == v2;
                                        if w < pre.len() {
                                            assert(pre[w] == v2);
                                        }
                                    }
                                }
                            }
                        }
                        t = t + 1;
                    }
                    proof {
                        let lst = crate::cells::candidate_list(to_remove.bits());
                        assert(lst.subrange(0, lst.len() as int) =~= lst);
                        assert forall|v: u8| #[trigger]
                            d.spec_elims(p).contains(v) <==> prune_elims(grid@, p).contains(v) by {
                            assert(d.spec_elims(p).contains(v) <==> lst.contains(v));
                            assert(lst.contains(v) <==> to_remove.has(v));
                            if to_remove.has(v) {
                                let jj = choose|jj: int|
                                    0 <= jj < seen@.len() && spec_solved_value(
                                        grid@[(#[trigger] seen@[jj]).spec_index()],
                                        v,
                                    );
                                assert(seen@.contains(seen@[jj]));
                            }
                            if prune_elims(grid@, p).contains(v) {
                                let q = choose|q: Position|
                                    {
                                        &&& pos_valid(q)
                                        &&& q != p
                                        &&& Position::sees(p, q)
                                        &&& spec_solved_value(#[trigger] grid@[q.spec_index()], v)
                                    };
                                assert(seen@.contains(q));
                                let jj = choose|jj: int| 0 <= jj < seen@.len() && seen@[jj] == q;
                            }
                        }
                        assert(d.spec_elims(p) =~= prune_elims(grid@, p));
                    }
                },
                Cell::Solved(_) => {
                    proof {
                        assert(d.spec_elims(p) =~= prune_elims(grid@, p)) by {
                            crate::solver::strategies::lemma_assoc_get_index(d.elims(), p);
                            if crate::solver::strategies::assoc_has(d.elims(), p) {
                                let k = choose|k: int| 0 <= k < i && #[trigger] gv@[k] == p;
                            }
                        }
                    }
                },
            }
            proof {
                assert forall|k: int|
                    0 <= k < i + 1 implies #[trigger] d.spec_elims(gv@[k]) == prune_elims(
                    grid@,
                    gv@[k],
                ) by {
                    if k < i {
                        assert(gv@[k] != gv@[i as int]);
                        assert(d.spec_elims(gv@[k]) == d_pre.spec_elims(gv@[k]));
                    }
                }
                assert forall|q: Position|
                    crate::solver::strategies::assoc_has(d.elims(), q) implies exists|k: int|
                    0 <= k < i + 1 && #[trigger] gv@[k] == q by {
                    if q == gv@[i as int] {
                        assert(gv@[i as int] == q);
                    } else {
                        assert(crate::solver::strategies::assoc_has(d_pre.elims(), q));
                        let k = choose|k: int| 0 <= k < i && #[trigger] gv@[k] == q;
                    }
                }
            }
            i = i + 1;
        }
        proof {
            assert forall|p: Position| pos_valid(p) implies #[trigger] d.spec_elims(p)
                == prune_elims(grid@, p) by {
                assert(gv@.contains(p));
                let k = choose|k: int| 0 <= k < 81 && gv@[k] == p;
            }
            assert forall|p: Position| ((#[trigger] d.spec_solved(p)) is None) by {
                crate::solver::strategies::lemma_assoc_get_index(d.solves(), p);
            }
            // grounded: every recorded elimination set matches the
            // characterization at its own position
            assert forall|k: int| 0 <= k < d.elims().len() implies {
                let p = (#[trigger] d.elims()[k]).0;
                let c = d.elims()[k].1;
                &&& grid@[p.spec_index()] is Unsolved
                &&& (forall|v: u8| c.to_set().contains(v) ==> grid@[p.spec_index()].spec_can_be(v))
            } by {
                let p = d.elims()[k].0;
                let c = d.elims()[k].1;
                crate::solver::strategies::lemma_assoc_get_at_index(d.elims(), k);
                assert(d.spec_elims(p) == c.to_set());
                assert(pos_valid(p));
                assert(d.spec_elims(p) == prune_elims(grid@, p));
                crate::cells::lemma_candidate_list(c.bits());
                let lst = crate::cells::candidate_list(c.bits());
                assert(lst.len() >= 1);
                assert(c.to_set().contains(lst[0]));
                assert(prune_elims(grid@, p).contains(lst[0]));
            }
        }
        d
    }
}

/// Idempotence of pruning: after a pruning delta is applied to a grid on
/// which it was computed, and no cell became solved in the process, a
/// re-computed pruning delta is empty.
pub proof fn lemma_prune_idempotent(cells: Seq<Cell>, d: StrategyDelta, d2: StrategyDelta)
    requires
        cells.len() == 81,
        d.wf(),
        PruneCandidates.delta_spec(cells, d),
        d2.wf(),
        PruneCandidates.delta_spec(crate::solver::strategies::spec_apply(d, cells), d2),
        forall|k: int|
            0 <= k < 81 && (#[trigger] crate::solver::strategies::spec_apply(d, cells)[k])
                is Solved ==> cells[k] is Solved,
    ensures
        d2.spec_is_empty(),
{
    let cells2 = crate::solver::strategies::spec_apply(d, cells);
    // the pruning delta proposes no values, so applying it is applying its
    // eliminations alone
    assert(d.solves().len() == 0) by {
        if d.solves().len() > 0 {
            crate::solver::strategies::lemma_assoc_get_at_index(d.solves(), 0);
            assert(d.spec_solved(d.solves()[0].0) is Some);
        }
    }
    assert(cells2 == crate::solver::strategies::apply_elims(cells, d.elims()));
    crate::solver::strategies::lemma_apply_elims_pointwise(cells, d.elims());
    // after the run, no unsolved cell retains a seen-solved candidate
    assert forall|p: Position| pos_valid(p) implies #[trigger] prune_elims(cells2, p)
        =~= Set::<u8>::empty() by {
        assert forall|v: u8| !(#[trigger] prune_elims(cells2, p).contains(v)) by {
            if prune_elims(cells2, p).contains(v) {
                let q = choose|q: Position|
                    {
                        &&& pos_valid(q)
                        &&& q != p
                        &&& Position::sees(p, q)
                        &&& spec_solved_value(#[trigger] cells2[q.spec_index()], v)
                    };
                // the witness cell was already solved with the same value
                assert(cells[q.spec_index()] is Solved);
                assert(cells2[q.spec_index()] == cells[q.spec_index()]) by {
                    crate::solver::strategies::lemma_assoc_get_index(d.elims(), q);
                    if exists|i: int| 0 <= i < d.elims().len() && (#[trigger] d.elims()[i]).0 == q {
                        let i = choose|i: int|
                            0 <= i < d.elims().len() && (#[trigger] d.elims()[i]).0 == q;
                        Position::lemma_index_injective(d.elims()[i].0, q);
                        assert(cells2[q.spec_index()] == crate::solver::strategies::elim_cell(
                            cells[q.spec_index()],
                            d.elims()[i].1,
                        ));
                    } else {
                        assert(forall|i: int|
                            0 <= i < d.elims().len() ==> (#[trigger] d.elims()[i]).0.spec_index()
                                != q.spec_index()) by {
                            assert forall|i: int|
                                0 <= i < d.elims().len() implies (
                                #[trigger] d.elims()[i]).0.spec_index() != q.spec_index() by {
                                if d.elims()[i].0.spec_index() == q.spec_index() {
                                    Position::lemma_index_injective(d.elims()[i].0, q);
                                }
                            }
                        }
                    }
                }
                assert(spec_solved_value(cells[q.spec_index()], v));
                // the cell at p stayed unsolved, so its old candidates held v
                // and the run removed it
                assert(cells2[p.spec_index()] is Unsolved);
                assert(cells[p.spec_index()] is Unsolved) by {
                    if cells[p.spec_index()] is Solved {
                        crate::solver::strategies::lemma_assoc_get_index(d.elims(), p);
                        if exists|i: int|
                            0 <= i < d.elims().len() && (#[trigger] d.elims()[i]).0 == p {
                            let i = choose|i: int|
                                0 <= i < d.elims().len() && (#[trigger] d.elims()[i]).0 == p;
                            Position::lemma_index_injective(d.elims()[i].0, p);
                            assert(cells2[p.spec_index()] == crate::solver::strategies::elim_cell(
                                cells[p.spec_index()],
                                d.elims()[i].1,
                            ));
                        } else {
                            assert(forall|i: int|
                                0 <= i < d.elims().len() ==> (
                                #[trigger] d.elims()[i]).0.spec_index() != p.spec_index()) by {
                                assert forall|i: int|
                                    0 <= i < d.elims().len() implies (
                                    #[trigger] d.elims()[i]).0.spec_index() != p.spec_index() by {
                                    if d.elims()[i].0.spec_index() == p.spec_index() {
                                        Position::lemma_index_injective(d.elims()[i].0, p);
                                    }
                                }
                            }
                            assert(cells2[p.spec_index()] == cells[p.spec_index()]);
                        }
                    }
                }
                // v is a seen-solved candidate of the old grid, so the run
                // eliminated it; but it is still a candidate afterwards
                let cand0 = cells[p.spec_index()]->Unsolved_0;
                assert(cells2[p.spec_index()].spec_can_be(v));
                crate::solver::strategies::lemma_assoc_get_index(d.elims(), p);
                if exists|i: int| 0 <= i < d.elims().len() && (#[trigger] d.elims()[i]).0 == p {
                    let i = choose|i: int|
                        0 <= i < d.elims().len() && (#[trigger] d.elims()[i]).0 == p;
                    Position::lemma_index_injective(d.elims()[i].0, p);
                    crate::solver::strategies::lemma_assoc_get_at_index(d.elims(), i);
                    let c_p = d.elims()[i].1;
                    assert(c_p.to_set() == d.spec_elims(p));
                    assert(d.spec_elims(p) == prune_elims(cells, p));
                    assert(cells2[p.spec_index()] == crate::solver::strategies::elim_cell(
                        cells[p.spec_index()],
                        c_p,
                    ));
                    let minus = cand0.spec_minus(c_p);
                    assert(cells2[p.spec_index()] == Cell::Unsolved(minus));
                    cand0.lemma_spec_minus(c_p);
                    assert(minus.has(v));
                    assert(!c_p.has(v));
                    crate::cells::lemma_candidate_list(c_p.bits());
                    assert(!c_p.to_set().contains(v));
                    assert(cand0.has(v));
                    assert(prune_elims(cells, p).contains(v));
                    assert(false);
                } else {
                    assert(forall|i: int|
                        0 <= i < d.elims().len() ==> (#[trigger] d.elims()[i]).0.spec_index()
                            != p.spec_index()) by {
                        assert forall|i: int|
                            0 <= i < d.elims().len() implies (
                            #[trigger] d.elims()[i]).0.spec_index() != p.spec_index() by {
                            if d.elims()[i].0.spec_index() == p.spec_index() {
                                Position::lemma_index_injective(d.elims()[i].0, p);
                            }
                        }
                    }
                    assert(cells2[p.spec_index()] == cells[p.spec_index()]);
                    assert(!assoc_hasd(d, p));
                    assert(d.spec_elims(p) =~= Set::<u8>::empty());
                    assert(prune_elims(cells, p).contains(v));
                    assert(false);
                }
            }
        }
    }
    // a well-formed delta whose elimination sets are all empty is empty
    assert(d2.solves().len() == 0) by {
        if d2.solves().len() > 0 {
            crate::solver::strategies::lemma_assoc_get_at_index(d2.solves(), 0);
            assert(d2.spec_solved(d2.solves()[0].0) is Some);
        }
    }
    assert(d2.elims().len() == 0) by {
        if d2.elims().len() > 0 {
            crate::solver::strategies::lemma_assoc_get_at_index(d2.elims(), 0);
            let p0 = d2.elims()[0].0;
            let c0 = d2.elims()[0].1;
            assert(d2.spec_elims(p0) == c0.to_set());
            assert(pos_valid(p0));
            assert(d2.spec_elims(p0) == prune_elims(cells2, p0));
            crate::cells::lemma_candidate_list(c0.bits());
            let lst = crate::cells::candidate_list(c0.bits());
            assert(lst.len() >= 1);
            assert(c0.to_set().contains(lst[0]));
            assert(prune_elims(cells2, p0).contains(lst[0]));
        }
    }
}

/// Whether the pruning delta has an elimination entry at `p`.
spec fn assoc_hasd(d: StrategyDelta, p: Position) -> bool {
    crate::solver::strategies::assoc_has(d.elims(), p)
}

} // verus!
