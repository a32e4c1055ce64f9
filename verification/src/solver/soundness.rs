//! Soundness of the deduction strategies: a completed solution compatible
//! with the grid is still compatible after any delta the engine applies.
//! Candidate pruning and naked-N are sound on any grid; hidden-N is sound
//! once candidates are consistent with solved cells, which the solving
//! order guarantees by running pruning to a fixpoint first.

use vstd::prelude::*;
use vstd::set_lib::*;

use crate::cells::candidate_list;
use crate::cells::Candidates;
use crate::cells::Cell;
use crate::pos::is_unit;
use crate::pos::pos_valid;
use crate::pos::Position;
use crate::solver::hidden_n::hidden_critical;
use crate::solver::hidden_n::hidden_elim_set;
use crate::solver::hidden_n::hidden_spots;
use crate::solver::hidden_n::hidden_union;
use crate::solver::naked_n::naked_critical;
use crate::solver::naked_n::naked_elim_set;
use crate::solver::naked_n::naked_union;
use crate::solver::prune_candidates::prune_elims;
use crate::solver::prune_candidates::spec_solved_value;
use crate::solver::prune_candidates::PruneCandidates;
use crate::solver::strategies::assoc_get;
use crate::solver::strategies::assoc_has;
use crate::solver::strategies::cell_vals;
use crate::solver::strategies::elim_cell;
use crate::solver::strategies::first_unit_delta;
use crate::solver::strategies::nth_unit;
use crate::solver::strategies::nth_unit_positions;
use crate::solver::strategies::spec_apply;
use crate::solver::strategies::unit_snapshot_of;
use crate::solver::strategies::unit_wf;
use crate::solver::strategies::Strategy;
use crate::solver::strategies::StrategyDelta;
use crate::solver::strategies::StrategyKind;
use crate::solver::strategies::UnitStrategy;

verus! {

broadcast use crate::cells::Candidates::lemma_bits_len;

/// A complete assignment of the 81 cells: one value in `[1, 9]` each.
pub open spec fn assignment_wf(asn: Seq<u8>) -> bool {
    &&& asn.len() == 81
    &&& forall|k: int| 0 <= k < 81 ==> 1 <= #[trigger] asn[k] <= 9
}

/// No two distinct positions of a common group share a value: the defining
/// constraint of a completed puzzle.
pub open spec fn consistent(asn: Seq<u8>) -> bool {
    forall|p: Position, q: Position|
        pos_valid(p) && pos_valid(q) && p != q && #[trigger] Position::sees(p, q) ==> asn[p.spec_index()]
            != asn[q.spec_index()]
}

/// The assignment is compatible with the grid: solved cells carry their
/// value, unsolved cells still list it as a candidate.
pub open spec fn admits(cells: Seq<Cell>, asn: Seq<u8>) -> bool {
    forall|p: Position|
        pos_valid(p) ==> (#[trigger] cells[p.spec_index()]).spec_can_be(asn[p.spec_index()])
}

/// Every change the delta proposes agrees with the assignment: proposed
/// values match it, eliminated candidates differ from it.
pub open spec fn delta_respects(d: StrategyDelta, asn: Seq<u8>) -> bool {
    &&& forall|p: Position, v: u8|
        pos_valid(p) && #[trigger] d.spec_elims(p).contains(v) ==> asn[p.spec_index()] != v
    &&& forall|p: Position|
        pos_valid(p) ==> ((#[trigger] d.spec_solved(p)) matches Some(w) ==> asn[p.spec_index()]
            == w.val())
}

/// One elimination keeps a compatible value compatible, collapse included.
proof fn lemma_elim_cell_admits(c: Cell, prune: Candidates, v: u8)
    requires
        c.spec_can_be(v),
        !prune.to_set().contains(v),
    ensures
        elim_cell(c, prune).spec_can_be(v),
{
    match c {
        Cell::Solved(_) => {},
        Cell::Unsolved(cd) => {
            let m = cd.spec_minus(prune);
            cd.lemma_spec_minus(prune);
            crate::cells::lemma_candidate_list(prune.bits());
            assert(!prune.has(v)) by {
                if prune.has(v) {
                    assert(candidate_list(prune.bits()).contains(v));
                }
            }
            assert(m.has(v));
            crate::cells::lemma_candidate_list(m.bits());
            let lst = candidate_list(m.bits());
            assert(lst.contains(v));
            if lst.len() == 1 {
                // the cell collapses to its only candidate, which must be v
                let j = choose|j: int| 0 <= j < lst.len() && lst[j] == v;
                assert(lst[0] == v);
                broadcast use crate::cells::CellValue::lemma_from_spec;

                assert(elim_cell(c, prune) == Cell::Solved(crate::cells::CellValue::from_spec(v)));
            }
        },
    }
}

/// Applying a delta that agrees with an assignment keeps the grid
/// compatible with it.
pub proof fn lemma_apply_admits(d: StrategyDelta, cells: Seq<Cell>, asn: Seq<u8>)
    requires
        cells.len() == 81,
        d.wf(),
        assignment_wf(asn),
        admits(cells, asn),
        delta_respects(d, asn),
    ensures
        admits(spec_apply(d, cells), asn),
{
    let mid = crate::solver::strategies::apply_solves(cells, d.solves());
    crate::solver::strategies::lemma_apply_solves_pointwise(cells, d.solves());
    assert(admits(mid, asn)) by {
        assert forall|p: Position| pos_valid(p) implies (#[trigger] mid[p.spec_index()]).spec_can_be(
            asn[p.spec_index()],
        ) by {
            if exists|i: int| 0 <= i < d.solves().len() && (#[trigger] d.solves()[i]).0.spec_index()
                == p.spec_index() {
                let i = choose|i: int|
                    0 <= i < d.solves().len() && (#[trigger] d.solves()[i]).0.spec_index()
                        == p.spec_index();
                Position::lemma_index_injective(d.solves()[i].0, p);
                crate::solver::strategies::lemma_assoc_get_at_index(d.solves(), i);
                assert(d.spec_solved(p) == Some(d.solves()[i].1));
                assert(mid[p.spec_index()] == Cell::Solved(d.solves()[i].1));
                assert(asn[p.spec_index()] == d.solves()[i].1.val());
            } else {
                assert(mid[p.spec_index()] == cells[p.spec_index()]);
            }
        }
    }
    let fin = crate::solver::strategies::apply_elims(mid, d.elims());
    crate::solver::strategies::lemma_apply_elims_pointwise(mid, d.elims());
    assert forall|p: Position| pos_valid(p) implies (#[trigger] fin[p.spec_index()]).spec_can_be(
        asn[p.spec_index()],
    ) by {
        if exists|i: int| 0 <= i < d.elims().len() && (#[trigger] d.elims()[i]).0.spec_index()
            == p.spec_index() {
            let i = choose|i: int|
                0 <= i < d.elims().len() && (#[trigger] d.elims()[i]).0.spec_index()
                    == p.spec_index();
            Position::lemma_index_injective(d.elims()[i].0, p);
            crate::solver::strategies::lemma_assoc_get_at_index(d.elims(), i);
            assert(d.spec_elims(p) == d.elims()[i].1.to_set());
            assert(fin[p.spec_index()] == elim_cell(mid[p.spec_index()], d.elims()[i].1));
            assert(!d.elims()[i].1.to_set().contains(asn[p.spec_index()]));
            lemma_elim_cell_admits(mid[p.spec_index()], d.elims()[i].1, asn[p.spec_index()]);
        } else {
            assert(fin[p.spec_index()] == mid[p.spec_index()]);
        }
    }
}

/// Pruning agrees with any consistent completed solution: a candidate equal
/// to a seen solved value cannot be that solution's value for the cell.
pub proof fn lemma_prune_respects(cells: Seq<Cell>, d: StrategyDelta, asn: Seq<u8>)
    requires
        cells.len() == 81,
        PruneCandidates.delta_spec(cells, d),
        assignment_wf(asn),
        consistent(asn),
        admits(cells, asn),
    ensures
        delta_respects(d, asn),
{
    assert forall|p: Position, v: u8|
        pos_valid(p) && #[trigger] d.spec_elims(p).contains(v) implies asn[p.spec_index()]
        != v by {
        assert(prune_elims(cells, p).contains(v));
        let q = choose|q: Position|
            {
                &&& pos_valid(q)
                &&& q != p
                &&& Position::sees(p, q)
                &&& spec_solved_value(#[trigger] cells[q.spec_index()], v)
            };
        assert(cells[q.spec_index()].spec_can_be(asn[q.spec_index()]));
        assert(asn[q.spec_index()] == v);
        assert(asn[p.spec_index()] != asn[q.spec_index()]);
    }
}

/// The nine values, as a set.
spec fn all_values() -> Set<u8> {
    seq![1u8, 2u8, 3u8, 4u8, 5u8, 6u8, 7u8, 8u8, 9u8].to_set()
}

proof fn lemma_all_values()
    ensures
        all_values().finite(),
        all_values().len() == 9,
        forall|v: u8| all_values().contains(v) <==> 1 <= v <= 9,
{
    let s = seq![1u8, 2u8, 3u8, 4u8, 5u8, 6u8, 7u8, 8u8, 9u8];
    assert(s[0] == 1 && s[1] == 2 && s[2] == 3 && s[3] == 4 && s[4] == 5 && s[5] == 6 && s[6] == 7
        && s[7] == 8 && s[8] == 9);
    assert(s.no_duplicates());
    s.unique_seq_to_set();
    vstd::seq_lib::seq_to_set_is_finite::<u8>(s);
    assert forall|v: u8| all_values().contains(v) <==> 1 <= v <= 9 by {
        if 1 <= v <= 9 {
            assert(s[v - 1] == v);
        }
        if s.to_set().contains(v) {
            let j = choose|j: int| 0 <= j < s.len() && s[j] == v;
        }
    }
}

/// A unit snapshot of the grid is a well-formed group whose cells match the
/// grid, with mutually seeing, distinct positions.
proof fn lemma_snapshot_facts(cells: Seq<Cell>, ps: Seq<Position>, u: Seq<(Position, Cell)>)
    requires
        cells.len() == 81,
        is_unit(ps),
        unit_snapshot_of(cells, ps, u),
    ensures
        unit_wf(u),
        u.len() == 9,
        forall|i: int, j: int|
            0 <= i < 9 && 0 <= j < 9 ==> Position::sees(#[trigger] u[i].0, #[trigger] u[j].0),
        forall|i: int, j: int| 0 <= i < j < 9 ==> u[i].0 != u[j].0,
        forall|i: int| 0 <= i < 9 ==> pos_valid((#[trigger] u[i]).0) && u[i].1 == cells[u[i].0.spec_index()],
        forall|q: Position| assoc_has(u, q) ==> #[trigger] assoc_get(u, q) == Some(
            cells[q.spec_index()],
        ),
{
    crate::pos::lemma_unit_mutually_sees(ps);
    assert(ps.len() == 9) by {
        if exists|row: u8| 1 <= row <= 9 && crate::pos::is_row_unit(ps, row) {
        } else if exists|col: u8| 1 <= col <= 9 && crate::pos::is_col_unit(ps, col) {
        } else {
            assert(exists|bc: int, br: int|
                0 <= bc < 3 && 0 <= br < 3 && crate::pos::is_box_unit(ps, bc, br));
        }
    }
    assert(u.len() == 9);
    assert forall|i: int| 0 <= i < 9 implies pos_valid((#[trigger] u[i]).0) && u[i].1
        == cells[u[i].0.spec_index()] by {
        assert(u[i] == (ps[i], cells[ps[i].spec_index()]));
    }
    assert(u.map_values(|e: (Position, Cell)| e.0).no_duplicates()) by {
        let keys = u.map_values(|e: (Position, Cell)| e.0);
        assert forall|i: int, j: int| 0 <= i < j < keys.len() implies keys[i] != keys[j] by {
            assert(keys[i] == ps[i] && keys[j] == ps[j]);
        }
    }
    assert forall|q: Position| assoc_has(u, q) implies #[trigger] assoc_get(u, q) == Some(
        cells[q.spec_index()],
    ) by {
        crate::solver::strategies::lemma_assoc_get_index(u, q);
        let i = choose|i: int| 0 <= i < u.len() && (#[trigger] u[i]).0 == q;
        crate::solver::strategies::lemma_assoc_get_at_index(u, i);
        assert(u[i] == (ps[i], cells[ps[i].spec_index()]));
    }
}

/// Naked-N is sound: a value some naked set accounts for elsewhere in the
/// group cannot be the solution's value for a cell outside that set. The
/// argument is the pigeonhole: the solution maps the set's n positions
/// one-to-one into its n accounted values, so it uses them all up.
pub proof fn lemma_naked_unit_sound(
    cells: Seq<Cell>,
    ps: Seq<Position>,
    u: Seq<(Position, Cell)>,
    n: nat,
    p: Position,
    v: u8,
    asn: Seq<u8>,
)
    requires
        cells.len() == 81,
        is_unit(ps),
        unit_snapshot_of(cells, ps, u),
        assignment_wf(asn),
        consistent(asn),
        admits(cells, asn),
        naked_elim_set(u, n, p).contains(v),
    ensures
        asn[p.spec_index()] != v,
{
    lemma_snapshot_facts(cells, ps, u);
    let pset = choose|pset: Set<Position>| #[trigger]
        naked_critical(u, pset, n) && !pset.contains(p) && naked_union(u, pset).contains(v);
    let f = |q: Position| asn[q.spec_index()];
    // the members of the naked set are listed positions
    assert forall|q: Position| #[trigger] pset.contains(q) implies (exists|i: int|
        0 <= i < 9 && (#[trigger] u[i]).0 == q) by {
        crate::solver::strategies::lemma_assoc_get_index(u, q);
    }
    // the solution's value at each member is among the accounted values
    assert forall|q: Position| #[trigger] pset.contains(q) implies naked_union(u, pset).contains(
        f(q),
    ) by {
        let i = choose|i: int| 0 <= i < 9 && (#[trigger] u[i]).0 == q;
        assert(pos_valid(q));
        assert(cells[q.spec_index()].spec_can_be(asn[q.spec_index()]));
        assert(assoc_get(u, q) == Some(cells[q.spec_index()]));
        assert(cell_vals(cells[q.spec_index()]).contains(f(q))) by {
            match cells[q.spec_index()] {
                Cell::Solved(_) => {},
                Cell::Unsolved(cd) => {
                    crate::cells::lemma_candidate_list(cd.bits());
                    assert(candidate_list(cd.bits()).contains(f(q)));
                },
            }
        }
    }
    // the image of the set under the solution is exactly the accounted values
    let img = pset.map(f);
    assert(vstd::relations::injective_on(f, pset)) by {
        assert forall|a: Position, b: Position|
            pset.contains(a) && pset.contains(b) && #[trigger] f(a) == #[trigger] f(b) implies a
            == b by {
            if a != b {
                let ia = choose|i: int| 0 <= i < 9 && (#[trigger] u[i]).0 == a;
                let ib = choose|i: int| 0 <= i < 9 && (#[trigger] u[i]).0 == b;
                assert(Position::sees(u[ia].0, u[ib].0));
                assert(pos_valid(a) && pos_valid(b));
            }
        }
    }
    lemma_map_size(pset, img, f);
    assert(img.len() == n);
    assert(img <= naked_union(u, pset)) by {
        assert forall|w: u8| #[trigger] img.contains(w) implies naked_union(u, pset).contains(
            w,
        ) by {
            let q = choose|q: Position| pset.contains(q) && f(q) == w;
        }
    }
    lemma_subset_equality(img, naked_union(u, pset));
    // were the eliminated value the solution's, it would collide inside the set
    if asn[p.spec_index()] == v {
        assert(naked_union(u, pset).contains(v));
        assert(img.contains(v));
        let q = choose|q: Position| pset.contains(q) && f(q) == v;
        assert(q != p);
        let iq = choose|i: int| 0 <= i < 9 && (#[trigger] u[i]).0 == q;
        assert(assoc_get(u, p) is Some) by {
            assert(naked_elim_set(u, n, p).contains(v));
        }
        crate::solver::strategies::lemma_assoc_get_index(u, p);
        let ip = choose|i: int| 0 <= i < u.len() && (#[trigger] u[i]).0 == p;
        assert(Position::sees(u[ip].0, u[iq].0));
        assert(pos_valid(p) && pos_valid(q));
        assert(asn[p.spec_index()] != asn[q.spec_index()]);
        assert(false);
    }
}

/// Candidates agree with solved cells throughout the group: what pruning
/// establishes, and what hidden-N's soundness rests on.
pub open spec fn unit_pruned(u: Seq<(Position, Cell)>) -> bool {
    forall|i: int, j: int, v: u8|
        0 <= i < u.len() && 0 <= j < u.len() && ((#[trigger] u[i]).1 matches Cell::Unsolved(cd)
            && cd.has(v)) ==> !(#[trigger] spec_solved_value(u[j].1, v))
}

/// Hidden-N is sound on a pruned group: the solution must place each of the
/// hidden set's n values at one of its n confining positions, so those
/// positions carry nothing else.
pub proof fn lemma_hidden_unit_sound(
    cells: Seq<Cell>,
    ps: Seq<Position>,
    u: Seq<(Position, Cell)>,
    n: nat,
    p: Position,
    c: u8,
    asn: Seq<u8>,
)
    requires
        cells.len() == 81,
        is_unit(ps),
        unit_snapshot_of(cells, ps, u),
        unit_pruned(u),
        assignment_wf(asn),
        consistent(asn),
        admits(cells, asn),
        hidden_elim_set(u, n, p).contains(c),
    ensures
        asn[p.spec_index()] != c,
{
    lemma_snapshot_facts(cells, ps, u);
    let vset = choose|vset: Set<u8>| #[trigger]
        hidden_critical(u, vset, n) && hidden_union(u, vset).contains(p) && !vset.contains(c);
    let f = |q: Position| asn[q.spec_index()];
    // the solution attains every value on the group's nine cells
    let upos = u.map_values(|e: (Position, Cell)| e.0).to_set();
    u.map_values(|e: (Position, Cell)| e.0).unique_seq_to_set();
    vstd::seq_lib::seq_to_set_is_finite::<Position>(u.map_values(|e: (Position, Cell)| e.0));
    assert(upos.len() == 9);
    assert forall|q: Position| #[trigger] upos.contains(q) implies (exists|i: int|
        0 <= i < 9 && (#[trigger] u[i]).0 == q) by {
        let keys = u.map_values(|e: (Position, Cell)| e.0);
        assert(keys.to_set().contains(q));
        let i = choose|i: int| 0 <= i < keys.len() && keys[i] == q;
        assert(u[i].0 == q);
    }
    let img = upos.map(f);
    assert(vstd::relations::injective_on(f, upos)) by {
        assert forall|a: Position, b: Position|
            upos.contains(a) && upos.contains(b) && #[trigger] f(a) == #[trigger] f(b) implies a
            == b by {
            if a != b {
                let ia = choose|i: int| 0 <= i < 9 && (#[trigger] u[i]).0 == a;
                let ib = choose|i: int| 0 <= i < 9 && (#[trigger] u[i]).0 == b;
                assert(Position::sees(u[ia].0, u[ib].0));
                assert(pos_valid(a) && pos_valid(b));
            }
        }
    }
    lemma_map_size(upos, img, f);
    lemma_all_values();
    assert(img <= all_values()) by {
        assert forall|w: u8| #[trigger] img.contains(w) implies all_values().contains(w) by {
            let q = choose|q: Position| upos.contains(q) && f(q) == w;
            let i = choose|i: int| 0 <= i < 9 && (#[trigger] u[i]).0 == q;
            assert(pos_valid(q));
            assert(1 <= asn[q.spec_index()] <= 9);
        }
    }
    lemma_subset_equality(img, all_values());
    // each hidden value is placed at one of its own spots
    let place = |v: u8| choose|q: Position| upos.contains(q) && f(q) == v;
    assert forall|v: u8| #[trigger] vset.contains(v) implies (upos.contains(place(v)) && f(place(v))
        == v && hidden_spots(u, v).contains(place(v))) by {
        // v lies in 1..9 because it has a spot
        let q0 = choose|q0: Position| hidden_spots(u, v).contains(q0);
        assert(assoc_get(u, q0).unwrap() matches Cell::Unsolved(cd) && cd.has(v));
        assert(1 <= v <= 9);
        assert(all_values().contains(v));
        assert(img.contains(v));
        let q = place(v);
        assert(upos.contains(q) && f(q) == v);
        let i = choose|i: int| 0 <= i < 9 && (#[trigger] u[i]).0 == q;
        assert(pos_valid(q));
        assert(cells[q.spec_index()].spec_can_be(v));
        assert(u[i].1 == cells[q.spec_index()]);
        match cells[q.spec_index()] {
            Cell::Solved(_) => {
                // the value is solved at q, yet still open at one of its
                // spots: the group is not pruned, contradiction
                assert(assoc_has(u, q0));
                crate::solver::strategies::lemma_assoc_get_index(u, q0);
                let j0 = choose|j0: int| 0 <= j0 < u.len() && (#[trigger] u[j0]).0 == q0;
                assert(u[j0].1 == cells[q0.spec_index()]);
                assert(assoc_get(u, q0) == Some(cells[q0.spec_index()]));
                assert(u[j0].1 matches Cell::Unsolved(cd) && cd.has(v));
                assert(spec_solved_value(u[i].1, v));
                assert(false);
            },
            Cell::Unsolved(cd) => {
                crate::solver::strategies::lemma_assoc_get_index(u, q);
                assert(assoc_get(u, q) == Some(cells[q.spec_index()]));
                assert(hidden_spots(u, v).contains(q));
            },
        }
    }
    // the places of the hidden values fill the confining positions
    let places = vset.map(place);
    assert(vstd::relations::injective_on(place, vset)) by {
        assert forall|a: u8, b: u8|
            vset.contains(a) && vset.contains(b) && #[trigger] place(a) == #[trigger] place(b)
            implies a == b by {
            assert(f(place(a)) == a && f(place(b)) == b);
        }
    }
    lemma_map_size(vset, places, place);
    assert(places.len() == n);
    assert(places <= hidden_union(u, vset)) by {
        assert forall|q: Position| #[trigger] places.contains(q) implies hidden_union(
            u,
            vset,
        ).contains(q) by {
            let v = choose|v: u8| vset.contains(v) && place(v) == q;
            assert(hidden_spots(u, v).contains(q));
        }
    }
    assert(hidden_union(u, vset).finite() && hidden_union(u, vset).len() == n);
    lemma_subset_equality(places, hidden_union(u, vset));
    // p is one of the confining positions, so it carries a hidden value
    assert(hidden_union(u, vset).contains(p));
    assert(places.contains(p));
    let v = choose|v: u8| vset.contains(v) && place(v) == p;
    assert(f(p) == v);
    assert(asn[p.spec_index()] == v);
    assert(v != c);
}

/// On a grid where pruning proposes nothing, every group's candidates agree
/// with its solved cells.
pub proof fn lemma_pruned_units(cells: Seq<Cell>, ps: Seq<Position>, u: Seq<(Position, Cell)>)
    requires
        cells.len() == 81,
        is_unit(ps),
        unit_snapshot_of(cells, ps, u),
        forall|p: Position, v: u8|
            pos_valid(p) ==> !(#[trigger] prune_elims(cells, p).contains(v)),
    ensures
        unit_pruned(u),
{
    lemma_snapshot_facts(cells, ps, u);
    assert forall|i: int, j: int, v: u8|
        0 <= i < u.len() && 0 <= j < u.len() && ((#[trigger] u[i]).1 matches Cell::Unsolved(cd)
            && cd.has(v)) implies !(#[trigger] spec_solved_value(u[j].1, v)) by {
        if spec_solved_value(u[j].1, v) {
            let pi = u[i].0;
            let pj = u[j].0;
            assert(i != j);
            assert(pi != pj) by {
                if i < j {
                } else {
                    assert(u[j].0 != u[i].0);
                }
            }
            assert(Position::sees(pi, pj));
            assert(pos_valid(pi) && pos_valid(pj));
            assert(cells[pi.spec_index()] == u[i].1);
            assert(cells[pj.spec_index()] == u[j].1);
            assert(prune_elims(cells, pi).contains(v)) by {
                assert(pos_valid(pj) && pj != pi && Position::sees(pi, pj) && spec_solved_value(
                    cells[pj.spec_index()],
                    v,
                ));
            }
        }
    }
}

/// An empty delta eliminates nothing and proposes no values anywhere.
proof fn lemma_empty_delta_respects(d: StrategyDelta, asn: Seq<u8>)
    requires
        d.spec_is_empty(),
    ensures
        delta_respects(d, asn),
{
    assert forall|p: Position, v: u8|
        pos_valid(p) && #[trigger] d.spec_elims(p).contains(v) implies asn[p.spec_index()]
        != v by {
        crate::solver::strategies::lemma_assoc_get_index(d.elims(), p);
    }
    assert forall|p: Position| pos_valid(p) implies ((#[trigger] d.spec_solved(p)) matches Some(w)
        ==> asn[p.spec_index()] == w.val()) by {
        crate::solver::strategies::lemma_assoc_get_index(d.solves(), p);
    }
}


/// The position list behind a numbered group is one of the 27 groups.
proof fn lemma_nth_is_unit(i: int, ps: Seq<Position>)
    requires
        0 <= i < 27,
        nth_unit_positions(i, ps),
    ensures
        is_unit(ps),
{
    if i < 9 {
        assert(crate::pos::is_row_unit(ps, (i + 1) as u8));
    } else if i < 18 {
        assert(crate::pos::is_col_unit(ps, (i - 8) as u8));
    } else {
        assert(crate::pos::is_box_unit(ps, (i - 18) / 3, (i - 18) % 3));
    }
}

/// A naked-N delta agrees with any consistent completed solution.
proof fn lemma_naked_respects<const N: usize>(
    s: crate::solver::naked_n::NakedN<N>,
    cells: Seq<Cell>,
    d: StrategyDelta,
    asn: Seq<u8>,
)
    requires
        cells.len() == 81,
        first_unit_delta(&s, cells, d),
        assignment_wf(asn),
        consistent(asn),
        admits(cells, asn),
    ensures
        delta_respects(d, asn),
{
    if d.spec_is_empty() {
        lemma_empty_delta_respects(d, asn);
    } else {
        let (i, u) = choose|i: int, u: Seq<(Position, Cell)>|
            {
                &&& 0 <= i < 27
                &&& #[trigger] nth_unit(cells, i, u)
                &&& s.unit_delta_spec(u, d)
                &&& !d.spec_is_empty()
                &&& forall|j: int|
                    0 <= j < i ==> #[trigger] crate::solver::strategies::unit_makes_no_progress(
                        &s,
                        cells,
                        j,
                    )
            };
        let ps = choose|ps: Seq<Position>| #[trigger]
            nth_unit_positions(i, ps) && unit_snapshot_of(cells, ps, u);
        lemma_nth_is_unit(i, ps);
        assert forall|p: Position, v: u8|
            pos_valid(p) && #[trigger] d.spec_elims(p).contains(v) implies asn[p.spec_index()]
            != v by {
            assert(d.spec_elims(p) == naked_elim_set(u, N as nat, p));
            lemma_naked_unit_sound(cells, ps, u, N as nat, p, v, asn);
        }
    }
}

/// A hidden-N delta agrees with any consistent completed solution, provided
/// the grid's candidates agree with its solved cells.
proof fn lemma_hidden_respects<const N: usize>(
    s: crate::solver::hidden_n::HiddenN<N>,
    cells: Seq<Cell>,
    d: StrategyDelta,
    asn: Seq<u8>,
)
    requires
        cells.len() == 81,
        first_unit_delta(&s, cells, d),
        assignment_wf(asn),
        consistent(asn),
        admits(cells, asn),
        forall|p: Position, v: u8|
            pos_valid(p) ==> !(#[trigger] prune_elims(cells, p).contains(v)),
    ensures
        delta_respects(d, asn),
{
    if d.spec_is_empty() {
        lemma_empty_delta_respects(d, asn);
    } else {
        let (i, u) = choose|i: int, u: Seq<(Position, Cell)>|
            {
                &&& 0 <= i < 27
                &&& #[trigger] nth_unit(cells, i, u)
                &&& s.unit_delta_spec(u, d)
                &&& !d.spec_is_empty()
                &&& forall|j: int|
                    0 <= j < i ==> #[trigger] crate::solver::strategies::unit_makes_no_progress(
                        &s,
                        cells,
                        j,
                    )
            };
        let ps = choose|ps: Seq<Position>| #[trigger]
            nth_unit_positions(i, ps) && unit_snapshot_of(cells, ps, u);
        lemma_nth_is_unit(i, ps);
        lemma_pruned_units(cells, ps, u);
        assert forall|p: Position, v: u8|
            pos_valid(p) && #[trigger] d.spec_elims(p).contains(v) implies asn[p.spec_index()]
            != v by {
            assert(d.spec_elims(p) == hidden_elim_set(u, N as nat, p));
            lemma_hidden_unit_sound(cells, ps, u, N as nat, p, v, asn);
        }
    }
}

/// Soundness of one solving step: a consistent completed solution the grid
/// admits is still admitted after the step's delta is applied. For a hidden
/// strategy this leans on the solving order: pruning ran to a fixpoint
/// first, so candidates agree with solved cells.
pub proof fn lemma_step_sound(
    strats: Seq<StrategyKind>,
    cells: Seq<Cell>,
    step: crate::solver::SolutionStep,
    next: Seq<Cell>,
    asn: Seq<u8>,
)
    requires
        crate::solver::strategies::well_ordered(strats),
        crate::solver::step_valid(strats, cells, step, next),
        cells.len() == 81,
        assignment_wf(asn),
        consistent(asn),
        admits(cells, asn),
    ensures
        admits(next, asn),
        next.len() == 81,
{
    let d = step.delta;
    // when the firing strategy is not the pruning strategy, pruning proposed
    // nothing, so the grid's candidates agree with its solved cells
    let pruned = !(step.strategy is Prune);
    if pruned {
        let i = choose|i: int|
            0 <= i < strats.len() && #[trigger] strats[i] == step.strategy && (forall|j: int|
                0 <= j < i ==> crate::solver::strategies::makes_no_progress(strats[j], cells));
        assert(i > 0) by {
            if i == 0 {
                assert(strats[0] is Prune);
            }
        }
        assert(crate::solver::strategies::makes_no_progress(strats[0], cells));
    }
    assert(pruned ==> forall|p: Position, v: u8|
        pos_valid(p) ==> !(#[trigger] prune_elims(cells, p).contains(v))) by {
        if pruned {
            let d0 = choose|d0: StrategyDelta| #[trigger]
                strats[0].delta_spec(cells, d0) && d0.spec_is_empty();
            assert(strats[0] is Prune);
            assert forall|p: Position, v: u8|
                pos_valid(p) implies !(#[trigger] prune_elims(cells, p).contains(v)) by {
                assert(d0.spec_elims(p) == prune_elims(cells, p));
                crate::solver::strategies::lemma_assoc_get_index(d0.elims(), p);
                assert(d0.spec_elims(p) =~= Set::<u8>::empty());
            }
        }
    }
    assert(delta_respects(d, asn)) by {
        match step.strategy {
            StrategyKind::Prune(s) => {
                lemma_prune_respects(cells, d, asn);
            },
            StrategyKind::Naked1(s) => {
                lemma_naked_respects::<1>(s, cells, d, asn);
            },
            StrategyKind::Naked2(s) => {
                lemma_naked_respects::<2>(s, cells, d, asn);
            },
            StrategyKind::Naked3(s) => {
                lemma_naked_respects::<3>(s, cells, d, asn);
            },
            StrategyKind::Naked4(s) => {
                lemma_naked_respects::<4>(s, cells, d, asn);
            },
            StrategyKind::Hidden1(s) => {
                lemma_hidden_respects::<1>(s, cells, d, asn);
            },
            StrategyKind::Hidden2(s) => {
                lemma_hidden_respects::<2>(s, cells, d, asn);
            },
            StrategyKind::Hidden3(s) => {
                lemma_hidden_respects::<3>(s, cells, d, asn);
            },
            StrategyKind::Hidden4(s) => {
                lemma_hidden_respects::<4>(s, cells, d, asn);
            },
        }
    }
    lemma_apply_admits(d, cells, asn);
    crate::solver::strategies::lemma_apply_solves_pointwise(cells, d.solves());
    crate::solver::strategies::lemma_apply_elims_pointwise(
        crate::solver::strategies::apply_solves(cells, d.solves()),
        d.elims(),
    );
}

/// Soundness of a whole solve: a consistent completed solution admitted by
/// the starting grid is admitted by every grid of a valid trace, the final
/// one included. No strategy ever rules the true solution out.
pub proof fn lemma_trace_sound(
    strats: Seq<StrategyKind>,
    gs: Seq<Seq<Cell>>,
    steps: Seq<crate::solver::SolutionStep>,
    asn: Seq<u8>,
)
    requires
        crate::solver::strategies::well_ordered(strats),
        crate::solver::trace_valid(strats, gs, steps),
        gs.len() == steps.len() + 1,
        gs[0].len() == 81,
        assignment_wf(asn),
        consistent(asn),
        admits(gs[0], asn),
    ensures
        forall|i: int| 0 <= i < gs.len() ==> admits(#[trigger] gs[i], asn) && gs[i].len() == 81,
    decreases steps.len(),
{
    if steps.len() > 0 {
        let pre_gs = gs.drop_last();
        let pre_steps = steps.drop_last();
        assert(crate::solver::trace_valid(strats, pre_gs, pre_steps)) by {
            assert forall|i: int|
                0 <= i < pre_steps.len() implies crate::solver::step_valid(
                strats,
                pre_gs[i],
                #[trigger] pre_steps[i],
                pre_gs[i + 1],
            ) by {
                assert(pre_steps[i] == steps[i]);
                assert(pre_gs[i] == gs[i] && pre_gs[i + 1] == gs[i + 1]);
            }
        }
        lemma_trace_sound(strats, pre_gs, pre_steps, asn);
        let n = steps.len();
        assert(crate::solver::step_valid(strats, gs[n - 1], steps[n - 1], gs[n as int]));
        assert(admits(gs[n - 1], asn) && gs[n - 1].len() == 81) by {
            assert(pre_gs[n - 1] == gs[n - 1]);
        }
        lemma_step_sound(strats, gs[n - 1], steps[n - 1], gs[n as int], asn);
        assert forall|i: int| 0 <= i < gs.len() implies admits(#[trigger] gs[i], asn) && gs[i].len()
            == 81 by {
            if i < gs.len() - 1 {
                assert(gs[i] == pre_gs[i]);
            }
        }
    }
}

/// A naked pair is a naked set of order two, so the pair strategy's
/// eliminations are sound on any grid.
pub proof fn lemma_naked_pair_sound(
    cells: Seq<Cell>,
    ps: Seq<Position>,
    u: Seq<(Position, Cell)>,
    p: Position,
    v: u8,
    asn: Seq<u8>,
)
    requires
        cells.len() == 81,
        is_unit(ps),
        unit_snapshot_of(cells, ps, u),
        assignment_wf(asn),
        consistent(asn),
        admits(cells, asn),
        crate::solver::naked_pair::naked_pair_elim_set(u, p).contains(v),
    ensures
        asn[p.spec_index()] != v,
{
    lemma_snapshot_facts(cells, ps, u);
    let (i, j, cd) = choose|i: int, j: int, cd: crate::cells::Candidates|
        {
            &&& #[trigger] crate::solver::naked_pair::naked_pair_at(u, i, j, cd)
            &&& p != u[i].0 && p != u[j].0
            &&& cd.has(v)
        };
    let pset = Set::empty().insert(u[i].0).insert(u[j].0);
    assert(naked_critical(u, pset, 2)) by {
        assert(u[i].0 != u[j].0);
        assert(pset.len() == 2);
        crate::solver::strategies::lemma_assoc_get_at_index(u, i);
        crate::solver::strategies::lemma_assoc_get_at_index(u, j);
        crate::cells::lemma_candidate_list(cd.bits());
        let lst = crate::cells::candidate_list(cd.bits());
        assert forall|q: Position| #[trigger] pset.contains(q) implies (assoc_has(u, q) && (exists|
            w: u8,
        |
            cell_vals(assoc_get(u, q).unwrap()).contains(w))) by {
            assert(q == u[i].0 || q == u[j].0);
            if q == u[i].0 {
                assert(assoc_get(u, q) == Some(u[i].1));
            } else {
                assert(assoc_get(u, q) == Some(u[j].1));
            }
            assert(lst.contains(lst[0]));
            assert(cd.to_set().contains(lst[0]));
            assert(cell_vals(Cell::Unsolved(cd)).contains(lst[0]));
            assert(assoc_get(u, q).unwrap() == Cell::Unsolved(cd));
            assert(cell_vals(assoc_get(u, q).unwrap()).contains(lst[0]));
        }
        assert(naked_union(u, pset) =~= cd.to_set()) by {
            assert forall|w: u8| #[trigger] naked_union(u, pset).contains(w) implies cd.to_set().contains(
                w,
            ) by {
                let q = choose|q: Position| #[trigger]
                    pset.contains(q) && assoc_has(u, q) && cell_vals(
                        assoc_get(u, q).unwrap(),
                    ).contains(w);
            }
            assert forall|w: u8| cd.to_set().contains(w) implies #[trigger] naked_union(
                u,
                pset,
            ).contains(w) by {
                assert(pset.contains(u[i].0));
                assert(cell_vals(assoc_get(u, u[i].0).unwrap()).contains(w));
            }
        }
        lst.unique_seq_to_set();
        vstd::seq_lib::seq_to_set_is_finite::<u8>(lst);
    }
    assert(naked_elim_set(u, 2, p).contains(v)) by {
        assert(!pset.contains(p));
        assert(naked_union(u, pset).contains(v)) by {
            assert(pset.contains(u[i].0));
            crate::solver::strategies::lemma_assoc_get_at_index(u, i);
            crate::cells::lemma_candidate_list(cd.bits());
            assert(cell_vals(assoc_get(u, u[i].0).unwrap()).contains(v));
        }
    }
    lemma_naked_unit_sound(cells, ps, u, 2, p, v, asn);
}

/// A naked triple is a naked set of order three, so the triple strategy's
/// eliminations are sound on any grid.
pub proof fn lemma_naked_triple_sound(
    cells: Seq<Cell>,
    ps: Seq<Position>,
    u: Seq<(Position, Cell)>,
    p: Position,
    v: u8,
    asn: Seq<u8>,
)
    requires
        cells.len() == 81,
        is_unit(ps),
        unit_snapshot_of(cells, ps, u),
        assignment_wf(asn),
        consistent(asn),
        admits(cells, asn),
        crate::solver::naked_triple::naked_triple_elim_set(u, p).contains(v),
    ensures
        asn[p.spec_index()] != v,
{
    lemma_snapshot_facts(cells, ps, u);
    let (i, j, k) = choose|i: int, j: int, k: int|
        {
            &&& #[trigger] crate::solver::naked_triple::triple_at(u, i, j, k)
            &&& p != u[i].0 && p != u[j].0 && p != u[k].0
            &&& crate::solver::naked_triple::triple_union(u, i, j, k).contains(v)
        };
    let pset = Set::empty().insert(u[i].0).insert(u[j].0).insert(u[k].0);
    let tu = crate::solver::naked_triple::triple_union(u, i, j, k);
    crate::solver::strategies::lemma_assoc_get_at_index(u, i);
    crate::solver::strategies::lemma_assoc_get_at_index(u, j);
    crate::solver::strategies::lemma_assoc_get_at_index(u, k);
    // the set's accounted values are exactly the triple's union
    assert(naked_union(u, pset) =~= tu) by {
        assert forall|w: u8| #[trigger] naked_union(u, pset).contains(w) implies tu.contains(w) by {
            let q = choose|q: Position| #[trigger]
                pset.contains(q) && assoc_has(u, q) && cell_vals(assoc_get(u, q).unwrap()).contains(
                    w,
                );
            assert(q == u[i].0 || q == u[j].0 || q == u[k].0);
        }
        assert forall|w: u8| tu.contains(w) implies #[trigger] naked_union(u, pset).contains(w) by {
            if crate::solver::naked_triple::cell_cand_set(u[i].1).contains(w) {
                assert(pset.contains(u[i].0));
                assert(cell_vals(assoc_get(u, u[i].0).unwrap()).contains(w));
            } else if crate::solver::naked_triple::cell_cand_set(u[j].1).contains(w) {
                assert(pset.contains(u[j].0));
                assert(cell_vals(assoc_get(u, u[j].0).unwrap()).contains(w));
            } else {
                assert(pset.contains(u[k].0));
                assert(cell_vals(assoc_get(u, u[k].0).unwrap()).contains(w));
            }
        }
    }
    // each member accounts for at least the solution's value at it
    assert forall|q: Position| #[trigger] pset.contains(q) implies (assoc_has(u, q) && (exists|
        w: u8,
    |
        cell_vals(assoc_get(u, q).unwrap()).contains(w))) by {
        assert(q == u[i].0 || q == u[j].0 || q == u[k].0);
        assert(assoc_get(u, q) == Some(cells[q.spec_index()]));
        let w = asn[q.spec_index()];
        assert(pos_valid(q)) by {
            if q == u[i].0 {
            } else if q == u[j].0 {
            }
        }
        assert(cells[q.spec_index()].spec_can_be(w));
        assert(cell_vals(cells[q.spec_index()]).contains(w)) by {
            match cells[q.spec_index()] {
                Cell::Solved(_) => {},
                Cell::Unsolved(cd2) => {
                    crate::cells::lemma_candidate_list(cd2.bits());
                    assert(crate::cells::candidate_list(cd2.bits()).contains(w));
                },
            }
        }
    }
    // finiteness of the union, from the three candidate lists
    assert(tu.finite()) by {
        match u[i].1 {
            Cell::Unsolved(cd) => {
                vstd::seq_lib::seq_to_set_is_finite::<u8>(crate::cells::candidate_list(cd.bits()));
            },
            Cell::Solved(_) => {},
        }
        match u[j].1 {
            Cell::Unsolved(cd) => {
                vstd::seq_lib::seq_to_set_is_finite::<u8>(crate::cells::candidate_list(cd.bits()));
            },
            Cell::Solved(_) => {},
        }
        match u[k].1 {
            Cell::Unsolved(cd) => {
                vstd::seq_lib::seq_to_set_is_finite::<u8>(crate::cells::candidate_list(cd.bits()));
            },
            Cell::Solved(_) => {},
        }
    }
    assert(naked_critical(u, pset, 3)) by {
        assert(u[i].0 != u[j].0 && u[i].0 != u[k].0 && u[j].0 != u[k].0);
        assert(pset.len() == 3);
        assert(naked_union(u, pset).len() == 3);
    }
    assert(naked_elim_set(u, 3, p).contains(v)) by {
        assert(!pset.contains(p));
        assert(naked_union(u, pset).contains(v));
    }
    lemma_naked_unit_sound(cells, ps, u, 3, p, v, asn);
}

/// A hidden single is a hidden set of order one: on a pruned group, the
/// value a unique spot proposes is exactly the solution's value there.
pub proof fn lemma_hidden_single_sound(
    cells: Seq<Cell>,
    ps: Seq<Position>,
    u: Seq<(Position, Cell)>,
    p: Position,
    v: u8,
    asn: Seq<u8>,
)
    requires
        cells.len() == 81,
        is_unit(ps),
        unit_snapshot_of(cells, ps, u),
        unit_pruned(u),
        assignment_wf(asn),
        consistent(asn),
        admits(cells, asn),
        crate::solver::hidden_single::unique_spot(u, v, p),
    ensures
        asn[p.spec_index()] == v,
{
    lemma_snapshot_facts(cells, ps, u);
    let vset = Set::<u8>::empty().insert(v);
    assert(hidden_critical(u, vset, 1)) by {
        assert(vset.len() == 1);
        assert forall|w: u8| #[trigger] vset.contains(w) implies exists|q: Position|
            hidden_spots(u, w).contains(q) by {
            assert(hidden_spots(u, v).contains(p));
        }
        assert(hidden_union(u, vset) =~= Set::<Position>::empty().insert(p)) by {
            assert forall|q: Position| #[trigger] hidden_union(u, vset).contains(q) implies q
                == p by {
                let w = choose|w: u8| #[trigger] vset.contains(w) && hidden_spots(u, w).contains(q);
            }
            assert(vset.contains(v) && hidden_spots(u, v).contains(p));
            assert(hidden_union(u, vset).contains(p));
        }
    }
    if asn[p.spec_index()] != v {
        let c = asn[p.spec_index()];
        // the cell is an unsolved spot of v, and the solution's value there
        // is one of its candidates, so c would be a hidden elimination
        assert(hidden_spots(u, v).contains(p));
        assert(assoc_get(u, p) == Some(cells[p.spec_index()]));
        assert(pos_valid(p)) by {
            crate::solver::strategies::lemma_assoc_get_index(u, p);
            let i = choose|i: int| 0 <= i < u.len() && (#[trigger] u[i]).0 == p;
        }
        assert(cells[p.spec_index()].spec_can_be(c));
        assert(hidden_elim_set(u, 1, p).contains(c)) by {
            assert(hidden_critical(u, vset, 1) && hidden_union(u, vset).contains(p)
                && !vset.contains(c));
        }
        lemma_hidden_unit_sound(cells, ps, u, 1, p, c, asn);
        assert(false);
    }
}

} // verus!

