//! The naked-N strategy: N positions of a group whose cells together account
//! for exactly N values confine those values to those positions, so the
//! values are removed from every other cell of the group. Solved cells join
//! the map as single-value sets, which correctly excludes their value
//! elsewhere.

use vstd::prelude::*;
use vstd::set_lib::*;

use crate::cells::Cell;
use crate::grid::Unit;
use crate::pos::pos_valid;
use crate::pos::Position;
use crate::solver::sets::contains_u8;
use crate::solver::sets::has_key;
use crate::solver::sets::is_critical;
use crate::solver::sets::multimap_wf;
use crate::solver::sets::union_vals;
use crate::solver::sets::vals_of;
use crate::solver::sets::Order;
use crate::solver::sets::Subsets;
use crate::solver::strategies::assoc_get;
use crate::solver::strategies::assoc_has;
use crate::solver::strategies::cell_vals;
use crate::solver::strategies::unit_wf;
use crate::solver::strategies::Difficulty;
use crate::solver::strategies::StrategyDelta;
use crate::solver::strategies::UnitStrategy;

verus! {

broadcast use crate::cells::Candidates::lemma_bits_len;

/// The values the cells of the group account for at the positions `ps`.
pub open spec fn naked_union(u: Seq<(Position, Cell)>, ps: Set<Position>) -> Set<u8> {
    Set::new(
        |v: u8|
            exists|q: Position| #[trigger]
                ps.contains(q) && assoc_has(u, q) && cell_vals(assoc_get(u, q).unwrap()).contains(
                    v,
                ),
    )
}

/// A naked set in the group: exactly `n` listed positions whose cells
/// together account for exactly `n` values.
pub open spec fn naked_critical(u: Seq<(Position, Cell)>, ps: Set<Position>, n: nat) -> bool {
    &&& ps.finite()
    &&& ps.len() == n
    &&& forall|q: Position| #[trigger]
        ps.contains(q) ==> assoc_has(u, q) && (exists|v: u8|
            cell_vals(assoc_get(u, q).unwrap()).contains(v))
    &&& naked_union(u, ps).finite()
    &&& naked_union(u, ps).len() == n
}

/// What naked-N eliminates at `p`: candidates of `p`'s unsolved cell that
/// some naked set not holding `p` accounts for.
pub open spec fn naked_elim_set(u: Seq<(Position, Cell)>, n: nat, p: Position) -> Set<u8> {
    Set::new(
        |v: u8|
            {
                &&& assoc_get(u, p) matches Some(c) && c is Unsolved && c.spec_can_be(v)
                &&& exists|ps: Set<Position>| #[trigger]
                    naked_critical(u, ps, n) && !ps.contains(p) && naked_union(u, ps).contains(v)
            },
    )
}

/// The multimap `m` encodes the group `u` for the naked search: each listed
/// position with at least one accounted value is a key (its row-major
/// offset), mapped to exactly those values.
pub open spec fn naked_map_of(m: Seq<(u8, Seq<u8>)>, u: Seq<(Position, Cell)>) -> bool {
    &&& forall|i: int|
        0 <= i < u.len() ==> vals_of(m, (#[trigger] u[i]).0.spec_code()) == cell_vals(u[i].1)
    &&& forall|k: u8| #[trigger]
        has_key(m, k) ==> exists|i: int|
            {
                &&& 0 <= i < u.len()
                &&& (#[trigger] u[i]).0.spec_code() == k
                &&& exists|v: u8| cell_vals(u[i].1).contains(v)
            }
    &&& forall|i: int|
        0 <= i < u.len() && (exists|v: u8| cell_vals((#[trigger] u[i]).1).contains(v)) ==> has_key(
            m,
            u[i].0.spec_code(),
        )
}

/// All positions of a well-formed group are in range and reachable by
/// `assoc_get`.
proof fn lemma_unit_entry(u: Seq<(Position, Cell)>, i: int)
    requires
        unit_wf(u),
        0 <= i < u.len(),
    ensures
        pos_valid(u[i].0),
        assoc_get(u, u[i].0) == Some(u[i].1),
{
    let keys = u.map_values(|e: (Position, Cell)| e.0);
    assert(keys[i] == u[i].0);
    crate::solver::strategies::lemma_assoc_get_at_index(u, i);
}

/// Encoding a naked set of the group gives a critical set of the multimap,
/// with the same union of values.
proof fn lemma_naked_encode(
    u: Seq<(Position, Cell)>,
    m: Seq<(u8, Seq<u8>)>,
    ps: Set<Position>,
    n: nat,
)
    requires
        unit_wf(u),
        multimap_wf(m),
        naked_map_of(m, u),
        naked_critical(u, ps, n),
    ensures
        is_critical(m, ps.map(|q: Position| q.spec_code()), n),
        forall|v: u8|
            union_vals(m, ps.map(|q: Position| q.spec_code())).contains(v) <==> naked_union(
                u,
                ps,
            ).contains(v),
        forall|p: Position|
            pos_valid(p) ==> (ps.map(|q: Position| q.spec_code()).contains(p.spec_code())
                <==> ps.contains(p)),
{
    let f = |q: Position| q.spec_code();
    let ks = ps.map(f);
    // every member of ps is a listed, hence valid, position
    assert forall|q: Position| #[trigger] ps.contains(q) implies pos_valid(q) by {
        crate::solver::strategies::lemma_assoc_get_index(u, q);
        let i = choose|i: int| 0 <= i < u.len() && (#[trigger] u[i]).0 == q;
        lemma_unit_entry(u, i);
    }
    assert(vstd::relations::injective_on(f, ps)) by {
        assert forall|a: Position, b: Position|
            ps.contains(a) && ps.contains(b) && #[trigger] f(a) == #[trigger] f(b) implies a
            == b by {
            Position::lemma_index_injective(a, b);
        }
    }
    lemma_map_size(ps, ks, f);
    assert(ks.len() == n);
    // each key of ks is a key of m
    assert forall|k: u8| ks.contains(k) implies has_key(m, k) by {
        let q = choose|q: Position| ps.contains(q) && f(q) == k;
        crate::solver::strategies::lemma_assoc_get_index(u, q);
        let i = choose|i: int| 0 <= i < u.len() && (#[trigger] u[i]).0 == q;
        lemma_unit_entry(u, i);
        assert(cell_vals(u[i].1) == cell_vals(assoc_get(u, q).unwrap()));
        assert(has_key(m, u[i].0.spec_code()));
    }
    // the unions agree value for value
    crate::solver::sets::lemma_union_vals_characterized(m, ks);
    assert forall|v: u8| union_vals(m, ks).contains(v) <==> naked_union(u, ps).contains(v) by {
        if union_vals(m, ks).contains(v) {
            let k = choose|k: u8| ks.contains(k) && #[trigger] vals_of(m, k).contains(v);
            let q = choose|q: Position| ps.contains(q) && f(q) == k;
            crate::solver::strategies::lemma_assoc_get_index(u, q);
            let i = choose|i: int| 0 <= i < u.len() && (#[trigger] u[i]).0 == q;
            lemma_unit_entry(u, i);
            assert(vals_of(m, u[i].0.spec_code()) == cell_vals(u[i].1));
            assert(cell_vals(assoc_get(u, q).unwrap()).contains(v));
            assert(naked_union(u, ps).contains(v));
        }
        if naked_union(u, ps).contains(v) {
            let q = choose|q: Position| #[trigger]
                ps.contains(q) && assoc_has(u, q) && cell_vals(assoc_get(u, q).unwrap()).contains(
                    v,
                );
            crate::solver::strategies::lemma_assoc_get_index(u, q);
            let i = choose|i: int| 0 <= i < u.len() && (#[trigger] u[i]).0 == q;
            lemma_unit_entry(u, i);
            assert(vals_of(m, u[i].0.spec_code()) == cell_vals(u[i].1));
            assert(ks.contains(f(q)));
            assert(vals_of(m, f(q)).contains(v));
        }
    }
    crate::solver::sets::lemma_union_vals_finite(m, ks);
    assert(union_vals(m, ks) =~= naked_union(u, ps));
    // membership of codes mirrors membership of positions
    assert forall|p: Position|
        pos_valid(p) implies (ks.contains(p.spec_code()) <==> ps.contains(p)) by {
        if ks.contains(p.spec_code()) {
            let q = choose|q: Position| ps.contains(q) && f(q) == p.spec_code();
            Position::lemma_index_injective(q, p);
        }
        if ps.contains(p) {
            assert(ks.contains(f(p)));
        }
    }
}

/// Decoding a critical set of the multimap gives a naked set of the group,
/// with the same union of values.
proof fn lemma_naked_decode(
    u: Seq<(Position, Cell)>,
    m: Seq<(u8, Seq<u8>)>,
    ks: Set<u8>,
    n: nat,
) -> (ps: Set<Position>)
    requires
        unit_wf(u),
        multimap_wf(m),
        naked_map_of(m, u),
        is_critical(m, ks, n),
    ensures
        naked_critical(u, ps, n),
        forall|p: Position|
            #[trigger] ps.contains(p) <==> (assoc_has(u, p) && ks.contains(p.spec_code())),
        forall|v: u8| naked_union(u, ps).contains(v) <==> union_vals(m, ks).contains(v),
{
    let ps = Set::new(|q: Position| assoc_has(u, q) && ks.contains(q.spec_code()));
    let f = |q: Position| q.spec_code();
    // ps sits inside the group's position set, so it is finite
    let upos = u.map_values(|e: (Position, Cell)| e.0).to_set();
    vstd::seq_lib::seq_to_set_is_finite::<Position>(u.map_values(|e: (Position, Cell)| e.0));
    assert forall|q: Position| #[trigger] ps.contains(q) implies upos.contains(q) by {
        crate::solver::strategies::lemma_assoc_get_index(u, q);
        let i = choose|i: int| 0 <= i < u.len() && (#[trigger] u[i]).0 == q;
        assert(u.map_values(|e: (Position, Cell)| e.0)[i] == q);
        assert(u.map_values(|e: (Position, Cell)| e.0).contains(q));
    }
    lemma_set_subset_finite(upos, ps);
    // every member of ps is valid
    assert forall|q: Position| #[trigger] ps.contains(q) implies pos_valid(q) by {
        crate::solver::strategies::lemma_assoc_get_index(u, q);
        let i = choose|i: int| 0 <= i < u.len() && (#[trigger] u[i]).0 == q;
        lemma_unit_entry(u, i);
    }
    // the codes of ps are exactly ks
    assert(ps.map(f) =~= ks) by {
        assert forall|k: u8| #[trigger] ps.map(f).contains(k) implies ks.contains(k) by {
            let q = choose|q: Position| ps.contains(q) && f(q) == k;
        }
        assert forall|k: u8| #[trigger] ks.contains(k) implies ps.map(f).contains(k) by {
            assert(has_key(m, k));
            let i = choose|i: int|
                {
                    &&& 0 <= i < u.len()
                    &&& (#[trigger] u[i]).0.spec_code() == k
                    &&& exists|v: u8| cell_vals(u[i].1).contains(v)
                };
            lemma_unit_entry(u, i);
            crate::solver::strategies::lemma_assoc_get_index(u, u[i].0);
            assert(ps.contains(u[i].0));
            assert(f(u[i].0) == k);
        }
    }
    assert(vstd::relations::injective_on(f, ps)) by {
        assert forall|a: Position, b: Position|
            ps.contains(a) && ps.contains(b) && #[trigger] f(a) == #[trigger] f(b) implies a
            == b by {
            Position::lemma_index_injective(a, b);
        }
    }
    lemma_map_size(ps, ks, f);
    assert(ps.len() == n);
    // members of ps account for at least one value
    assert forall|q: Position| #[trigger] ps.contains(q) implies (assoc_has(u, q) && (exists|v: u8|
        cell_vals(assoc_get(u, q).unwrap()).contains(v))) by {
        assert(has_key(m, q.spec_code()));
        let i = choose|i: int|
            {
                &&& 0 <= i < u.len()
                &&& (#[trigger] u[i]).0.spec_code() == q.spec_code()
                &&& exists|v: u8| cell_vals(u[i].1).contains(v)
            };
        lemma_unit_entry(u, i);
        assert(0 <= u[i].0.spec_index() < 81 && 0 <= q.spec_index() < 81);
        assert(u[i].0.spec_index() == q.spec_index());
        Position::lemma_index_injective(u[i].0, q);
        assert(assoc_get(u, q) == Some(u[i].1));
        let v = choose|v: u8| cell_vals(u[i].1).contains(v);
        assert(cell_vals(assoc_get(u, q).unwrap()).contains(v));
    }
    // the unions agree value for value
    crate::solver::sets::lemma_union_vals_characterized(m, ks);
    assert forall|v: u8| naked_union(u, ps).contains(v) <==> union_vals(m, ks).contains(v) by {
        if naked_union(u, ps).contains(v) {
            let q = choose|q: Position| #[trigger]
                ps.contains(q) && assoc_has(u, q) && cell_vals(assoc_get(u, q).unwrap()).contains(
                    v,
                );
            crate::solver::strategies::lemma_assoc_get_index(u, q);
            let i = choose|i: int| 0 <= i < u.len() && (#[trigger] u[i]).0 == q;
            lemma_unit_entry(u, i);
            assert(vals_of(m, u[i].0.spec_code()) == cell_vals(u[i].1));
            assert(ks.contains(q.spec_code()) && vals_of(m, q.spec_code()).contains(v));
        }
        if union_vals(m, ks).contains(v) {
            let k = choose|k: u8| ks.contains(k) && #[trigger] vals_of(m, k).contains(v);
            assert(has_key(m, k)) by {
                if !has_key(m, k) {
                    crate::solver::sets::lemma_vals_of_no_key(m, k);
                }
            }
            let i = choose|i: int|
                {
                    &&& 0 <= i < u.len()
                    &&& (#[trigger] u[i]).0.spec_code() == k
                    &&& exists|v2: u8| cell_vals(u[i].1).contains(v2)
                };
            lemma_unit_entry(u, i);
            crate::solver::strategies::lemma_assoc_get_index(u, u[i].0);
            assert(ps.contains(u[i].0));
            assert(vals_of(m, u[i].0.spec_code()) == cell_vals(u[i].1));
            assert(cell_vals(assoc_get(u, u[i].0).unwrap()).contains(v));
            assert(naked_union(u, ps).contains(v));
        }
    }
    assert(naked_union(u, ps) =~= union_vals(m, ks));
    crate::solver::sets::lemma_union_vals_finite(m, ks);
    ps
}

/// The position-to-values multimap naked-N searches: keys are row-major
/// position offsets, values the cell's accounted values.
pub struct CandidateMap(Subsets);

impl CandidateMap {
    /// The underlying multimap view.
    pub closed spec fn map(&self) -> Seq<(u8, Seq<u8>)> {
        self.0@
    }

    pub open spec fn wf(&self) -> bool {
        multimap_wf(self.map())
    }

    pub fn new() -> (r: Self)
        ensures
            r.wf(),
            r.map().len() == 0,
    {
        CandidateMap(Subsets::new())
    }

    /// Record one cell: an unsolved cell contributes its candidates, a solved
    /// cell its value.
    pub fn add_cell(&mut self, pos: &Position, cell: &Cell)
        requires
            old(self).wf(),
        ensures
            final(self).wf(),
            forall|v: u8|
                vals_of(final(self).map(), pos.spec_code()).contains(v) <==> (vals_of(
                    old(self).map(),
                    pos.spec_code(),
                ).contains(v) || cell_vals(*cell).contains(v)),
            forall|k2: u8|
                k2 != pos.spec_code() ==> vals_of(final(self).map(), k2) == vals_of(
                    old(self).map(),
                    k2,
                ),
            forall|k2: u8|
                has_key(final(self).map(), k2) <==> (has_key(old(self).map(), k2) || (k2
                    == pos.spec_code() && exists|v: u8| cell_vals(*cell).contains(v))),
    {
        let code = pos.code();
        match cell {
            Cell::Solved(w) => {
                let wv = w.get();
                self.0.insert(code, wv);
                proof {
                    assert forall|v: u8|
                        vals_of(self.0@, code).contains(v) <==> (vals_of(
                            old(self).map(),
                            code,
                        ).contains(v) || cell_vals(*cell).contains(v)) by {}
                    assert(cell_vals(*cell).contains(w.val()));
                }
            },
            Cell::Unsolved(cds) => {
                let vlist = cds.to_vec();
                proof {
                    crate::cells::lemma_candidate_list(cds.bits());
                    assert forall|jj: int|
                        0 <= jj < vlist@.len() implies cds.has((#[trigger] vlist@[jj]).val()) by {
                        let lst = crate::cells::candidate_list(cds.bits());
                        assert(vlist@.map_values(|c: crate::cells::CellValue| c.val())[jj]
                            == lst[jj]);
                    }
                }
                let mut j: usize = 0;
                while j < vlist.len()
                    invariant
                        j <= vlist@.len(),
                        code == pos.spec_code(),
                        self.wf(),
                        vlist@.map_values(|c: crate::cells::CellValue| c.val())
                            == crate::cells::candidate_list(cds.bits()),
                        forall|jj: int|
                            0 <= jj < vlist@.len() ==> cds.has((#[trigger] vlist@[jj]).val()),
                        forall|v: u8|
                            vals_of(self.0@, code).contains(v) <==> (vals_of(
                                old(self).map(),
                                code,
                            ).contains(v) || crate::cells::candidate_list(cds.bits()).subrange(
                                0,
                                j as int,
                            ).contains(v)),
                        forall|k2: u8|
                            k2 != code ==> vals_of(self.0@, k2) == vals_of(old(self).map(), k2),
                        forall|k2: u8|
                            has_key(self.0@, k2) <==> (has_key(old(self).map(), k2) || (k2 == code
                                && j > 0)),
                    decreases vlist@.len() - j,
                {
                    let v = vlist[j];
                    proof {
                        assert(v.val() == crate::cells::candidate_list(cds.bits())[j as int]);
                    }
                    let vv = v.get();
                    let ghost m_pre = self.0@;
                    self.0.insert(code, vv);
                    proof {
                        let lst = crate::cells::candidate_list(cds.bits());
                        let pre = lst.subrange(0, j as int);
                        let cur = lst.subrange(0, j + 1);
                        assert(cur.drop_last() =~= pre);
                        assert(cur.last() == lst[j as int]);
                        assert(vals_of(self.0@, code) =~= vals_of(m_pre, code).insert(vv));
                        assert forall|v2: u8|
                            vals_of(self.0@, code).contains(v2) <==> (vals_of(
                                old(self).map(),
                                code,
                            ).contains(v2) || cur.contains(v2)) by {
                            assert(vals_of(m_pre, code).contains(v2) <==> (vals_of(
                                old(self).map(),
                                code,
                            ).contains(v2) || pre.contains(v2)));
                            if cur.contains(v2) {
                                let w = choose|w: int| 0 <= w < cur.len() && cur[w] == v2;
                                if w < pre.len() {
                                    assert(pre[w] == v2);
                                } else {
                                    assert(v2 == vv);
                                }
                            }
                            if pre.contains(v2) {
                                let w = choose|w: int| 0 <= w < pre.len() && pre[w] == v2;
                                assert(cur[w] == v2);
                            }
                            if v2 == vv {
                                assert(cur[cur.len() - 1] == vv);
                            }
                        }
                    }
                    j = j + 1;
                }
                proof {
                    let lst = crate::cells::candidate_list(cds.bits());
                    assert(lst.subrange(0, lst.len() as int) =~= lst);
                    crate::cells::lemma_candidate_list(cds.bits());
                    assert forall|v: u8|
                        vals_of(self.0@, code).contains(v) <==> (vals_of(
                            old(self).map(),
                            code,
                        ).contains(v) || cell_vals(*cell).contains(v)) by {
                        assert(vals_of(self.0@, code).contains(v) <==> (vals_of(
                            old(self).map(),
                            code,
                        ).contains(v) || lst.subrange(0, vlist@.len() as int).contains(v)));
                        assert(cell_vals(*cell) == cds.to_set());
                        assert(cds.to_set().contains(v) <==> lst.contains(v));
                    }
                    assert forall|k2: u8|
                        has_key(self.0@, k2) <==> (has_key(old(self).map(), k2) || (k2
                            == pos.spec_code() && exists|v: u8| cell_vals(*cell).contains(v))) by {
                        assert(has_key(self.0@, k2) <==> (has_key(old(self).map(), k2) || (k2
                            == code && vlist@.len() > 0)));
                        assert(cell_vals(*cell) == cds.to_set());
                        if vlist@.len() > 0 {
                            assert(lst.contains(lst[0]));
                            assert(cell_vals(*cell).contains(lst[0]));
                        } else {
                            assert(lst =~= Seq::<u8>::empty());
                            if exists|v: u8| cell_vals(*cell).contains(v) {
                                let v = choose|v: u8| cell_vals(*cell).contains(v);
                                assert(lst.contains(v));
                            }
                        }
                    }
                }
            },
        }
    }

    /// All critical sets of the map, by delegation to the shared search.
    pub fn find_naked(&self, n: usize) -> (r: Vec<(Vec<u8>, Vec<u8>)>)
        requires
            self.wf(),
        ensures
            crate::solver::sets::sound_results(self.map(), Set::empty(), n as nat, r@),
            forall|s: Set<u8>|
                is_critical(self.map(), s, n as nat) ==> crate::solver::sets::found_in(r@, s),
    {
        self.0.find_critical_sets(n)
    }
}

/// Some reported pair eliminates `v` at the position with offset `code`: its
/// key set leaves the position out and its union holds the value.
pub open spec fn naked_hit(rs: Seq<(Vec<u8>, Vec<u8>)>, code: u8, v: u8) -> bool {
    exists|j: int|
        0 <= j < rs.len() && !(#[trigger] rs[j]).0@.contains(code) && rs[j].1@.contains(v)
}

/// The naked-N strategy over one group, parameterized by the order `N`.
#[derive(Copy, Clone, PartialEq, Eq, Debug)]
pub struct NakedN<const N: usize>;

impl<const N: usize> UnitStrategy for NakedN<N> {
    open spec fn spec_difficulty(&self) -> Difficulty {
        Difficulty::Standard
    }

    /// The delta solves nothing and eliminates, at every position, exactly
    /// the candidates some naked N-set accounts for elsewhere.
    open spec fn unit_delta_spec(&self, u: Seq<(Position, Cell)>, d: StrategyDelta) -> bool {
        &&& forall|p: Position| (#[trigger] d.spec_solved(p)) is None
        &&& forall|p: Position| #[trigger] d.spec_elims(p) == naked_elim_set(u, N as nat, p)
    }

    fn name(&self) -> String {
        let order = Order(N);
        String::from_str("Naked ").concat(order.label())
    }

    fn difficulty(&self) -> (r: Difficulty)
        ensures
            r == self.spec_difficulty(),
    {
        Difficulty::Standard
    }

    #[verifier::rlimit(100)]
    fn solve_unit(&self, unit: &Unit) -> (d: StrategyDelta) {
        let ghost u = unit@;
        let mut cmap = CandidateMap::new();
        let mut bi: usize = 0;
        while bi < unit.len()
            invariant
                cmap.wf(),
                unit_wf(u),
                u == unit@,
                bi <= u.len(),
                forall|i: int|
                    0 <= i < bi ==> vals_of(cmap.map(), (#[trigger] u[i]).0.spec_code())
                        =~= cell_vals(u[i].1),
                forall|k: u8| #[trigger]
                    has_key(cmap.map(), k) ==> exists|i: int|
                        {
                            &&& 0 <= i < bi
                            &&& (#[trigger] u[i]).0.spec_code() == k
                            &&& exists|v: u8| cell_vals(u[i].1).contains(v)
                        },
                forall|i: int|
                    0 <= i < bi && (exists|v: u8| cell_vals((#[trigger] u[i]).1).contains(v))
                        ==> has_key(cmap.map(), u[i].0.spec_code()),
            decreases u.len() - bi,
        {
            let (p, cell) = unit[bi];
            let ghost cm_pre = cmap.map();
            proof {
                lemma_unit_entry(u, bi as int);
                assert(!has_key(cm_pre, p.spec_code())) by {
                    if has_key(cm_pre, p.spec_code()) {
                        let i = choose|i: int|
                            {
                                &&& 0 <= i < bi
                                &&& (#[trigger] u[i]).0.spec_code() == p.spec_code()
                                &&& exists|v: u8| cell_vals(u[i].1).contains(v)
                            };
                        lemma_unit_entry(u, i);
                        Position::lemma_index_injective(u[i].0, p);
                        let keys = u.map_values(|e: (Position, Cell)| e.0);
                        assert(keys[i] == u[i].0);
                        assert(keys[bi as int] == p);
                    }
                }
                crate::solver::sets::lemma_vals_of_no_key(cm_pre, p.spec_code());
            }
            cmap.add_cell(&p, &cell);
            proof {
                assert forall|i: int|
                    0 <= i < bi + 1 implies vals_of(cmap.map(), (#[trigger] u[i]).0.spec_code())
                    =~= cell_vals(u[i].1) by {
                    if i < bi {
                        assert(u[i].0.spec_code() != p.spec_code()) by {
                            lemma_unit_entry(u, i);
                            if u[i].0.spec_code() == p.spec_code() {
                                Position::lemma_index_injective(u[i].0, p);
                                let keys = u.map_values(|e: (Position, Cell)| e.0);
                                assert(keys[i] == u[i].0);
                                assert(keys[bi as int] == p);
                            }
                        }
                        assert(vals_of(cmap.map(), u[i].0.spec_code()) == vals_of(
                            cm_pre,
                            u[i].0.spec_code(),
                        ));
                    } else {
                        assert(u[i] == (p, cell));
                        assert forall|v: u8|
                            vals_of(cmap.map(), p.spec_code()).contains(v) <==> cell_vals(
                                cell,
                            ).contains(v) by {
                            assert(vals_of(cm_pre, p.spec_code()) =~= Set::<u8>::empty());
                        }
                    }
                }
                assert forall|k: u8| #[trigger] has_key(cmap.map(), k) implies exists|i: int|
                    {
                        &&& 0 <= i < bi + 1
                        &&& (#[trigger] u[i]).0.spec_code() == k
                        &&& exists|v: u8| cell_vals(u[i].1).contains(v)
                    } by {
                    if has_key(cm_pre, k) {
                        let i = choose|i: int|
                            {
                                &&& 0 <= i < bi
                                &&& (#[trigger] u[i]).0.spec_code() == k
                                &&& exists|v: u8| cell_vals(u[i].1).contains(v)
                            };
                        assert(0 <= i < bi + 1 && u[i].0.spec_code() == k);
                    } else {
                        assert(k == p.spec_code() && exists|v: u8| cell_vals(cell).contains(v));
                        assert(u[bi as int].0.spec_code() == k);
                        assert(u[bi as int] == (p, cell));
                    }
                }
            }
            bi = bi + 1;
        }
        proof {
            assert(naked_map_of(cmap.map(), u)) by {
                assert forall|i: int|
                    0 <= i < u.len() implies vals_of(cmap.map(), (#[trigger] u[i]).0.spec_code())
                    == cell_vals(u[i].1) by {
                    assert(vals_of(cmap.map(), u[i].0.spec_code()) =~= cell_vals(u[i].1));
                }
            }
        }
        let results = cmap.find_naked(N);
        let ghost m = cmap.map();
        let mut d = StrategyDelta::new();
        let mut ui: usize = 0;
        while ui < unit.len()
            invariant
                d.wf(),
                d.solves().len() == 0,
                u == unit@,
                unit_wf(u),
                m == cmap.map(),
                multimap_wf(m),
                naked_map_of(m, u),
                crate::solver::sets::sound_results(m, Set::empty(), N as nat, results@),
                forall|s: Set<u8>|
                    is_critical(m, s, N as nat) ==> crate::solver::sets::found_in(results@, s),
                ui <= u.len(),
                forall|k: int|
                    0 <= k < ui ==> #[trigger] d.spec_elims(u[k].0) == naked_elim_set(
                        u,
                        N as nat,
                        u[k].0,
                    ),
                forall|q: Position|
                    assoc_has(d.elims(), q) ==> exists|k: int| 0 <= k < ui && (#[trigger] u[k]).0 == q,
            decreases u.len() - ui,
        {
            let (p, cell) = unit[ui];
            let ghost d_pre = d;
            proof {
                lemma_unit_entry(u, ui as int);
                assert(assoc_get(u, p) == Some(cell));
                crate::solver::strategies::lemma_assoc_get_index(d.elims(), p);
                if assoc_has(d.elims(), p) {
                    let k = choose|k: int| 0 <= k < ui && (#[trigger] u[k]).0 == p;
                    let keys = u.map_values(|e: (Position, Cell)| e.0);
                    assert(keys[k] == u[k].0);
                    assert(keys[ui as int] == p);
                }
                assert(!assoc_has(d.elims(), p));
                assert(d.spec_elims(p) =~= Set::<u8>::empty());
            }
            match cell {
                Cell::Unsolved(cand) => {
                    let cvals = cand.to_vec();
                    let code = p.code();
                    proof {
                        crate::cells::lemma_candidate_list(cand.bits());
                        assert forall|t: int|
                            0 <= t < cvals@.len() implies cand.has(
                            (#[trigger] cvals@[t]).val(),
                        ) by {
                            let lst = crate::cells::candidate_list(cand.bits());
                            assert(cvals@.map_values(|c: crate::cells::CellValue| c.val())[t]
                                == lst[t]);
                        }
                    }
                    let mut t: usize = 0;
                    while t < cvals.len()
                        invariant
                            t <= cvals@.len(),
                            u == unit@,
                            unit_wf(u),
                            0 <= (ui as int) < u.len(),
                            (p, cell) == u[ui as int],
                            cell == Cell::Unsolved(cand),
                            assoc_get(u, p) == Some(cell),
                            code == p.spec_code(),
                            pos_valid(p),
                            m == cmap.map(),
                            multimap_wf(m),
                            naked_map_of(m, u),
                            crate::solver::sets::sound_results(m, Set::empty(), N as nat, results@),
                            forall|s: Set<u8>|
                                is_critical(m, s, N as nat) ==> crate::solver::sets::found_in(
                                    results@,
                                    s,
                                ),
                            cvals@.map_values(|c: crate::cells::CellValue| c.val())
                                == crate::cells::candidate_list(cand.bits()),
                            d.wf(),
                            d.solves().len() == 0,
                            forall|v: u8| #[trigger]
                                d.spec_elims(p).contains(v) <==> (crate::cells::candidate_list(
                                    cand.bits(),
                                ).subrange(0, t as int).contains(v) && naked_hit(
                                    results@,
                                    p.spec_code(),
                                    v,
                                )),
                            forall|q: Position| q != p ==> d.spec_elims(q) == d_pre.spec_elims(q),
                            forall|q: Position|
                                assoc_has(d.elims(), q) ==> (assoc_has(d_pre.elims(), q) || q == p),
                            d.solves() == d_pre.solves(),
                        decreases cvals@.len() - t,
                    {
                        let v = cvals[t];
                        proof {
                            assert(v.val() == crate::cells::candidate_list(cand.bits())[t as int]);
                        }
                        let vv = v.get();
                        let mut hit = false;
                        let mut j: usize = 0;
                        while j < results.len()
                            invariant
                                j <= results@.len(),
                                vv == v.val(),
                                code < 81,
                                hit == exists|jj: int|
                                    0 <= jj < j && !(#[trigger] results@[jj]).0@.contains(code)
                                        && results@[jj].1@.contains(vv),
                            decreases results@.len() - j,
                        {
                            let pair = &results[j];
                            let in_ks = contains_u8(&pair.0, code);
                            let in_vs = contains_u8(&pair.1, vv);
                            if !in_ks && in_vs {
                                hit = true;
                                proof {
                                    assert(!(results@[j as int]).0@.contains(code)
                                        && results@[j as int].1@.contains(vv));
                                }
                            }
                            j = j + 1;
                        }
                        proof {
                            assert(hit == naked_hit(results@, p.spec_code(), v.val()));
                        }
                        if hit {
                            d.eliminate(p, v);
                        }
                        proof {
                            let lst = crate::cells::candidate_list(cand.bits());
                            let pre = lst.subrange(0, t as int);
                            let cur = lst.subrange(0, t + 1);
                            assert(cur.drop_last() =~= pre);
                            assert(cur.last() == lst[t as int]);
                            assert forall|v2: u8| #[trigger]
                                d.spec_elims(p).contains(v2) <==> (cur.contains(v2) && naked_hit(
                                results@,
                                p.spec_code(),
                                v2,
                            )) by {
                                if cur.contains(v2) {
                                    let w = choose|w: int| 0 <= w < cur.len() && cur[w] == v2;
                                    if w < pre.len() {
                                        assert(pre[w] == v2);
                                    } else {
                                        assert(v2 == v.val());
                                    }
                                }
                                if pre.contains(v2) {
                                    let w = choose|w: int| 0 <= w < pre.len() && pre[w] == v2;
                                    assert(cur[w] == v2);
                                }
                                if v2 == v.val() {
                                    assert(cur[cur.len() - 1] == v2);
                                }
                            }
                        }
                        t = t + 1;
                    }
                    proof {
                        let lst = crate::cells::candidate_list(cand.bits());
                        assert(lst.subrange(0, lst.len() as int) =~= lst);
                        assert forall|v: u8| #[trigger]
                            d.spec_elims(p).contains(v) <==> naked_elim_set(
                            u,
                            N as nat,
                            p,
                        ).contains(v) by {
                            assert(d.spec_elims(p).contains(v) <==> (lst.contains(v) && naked_hit(
                                results@,
                                p.spec_code(),
                                v,
                            )));
                            assert(lst.contains(v) <==> cand.has(v));
                            if lst.contains(v) && naked_hit(results@, p.spec_code(), v) {
                                // a reported pair justifies the elimination:
                                // decode it into a naked set of the group
                                let j = choose|jj: int|
                                    0 <= jj < results@.len() && !(
                                    #[trigger] results@[jj]).0@.contains(p.spec_code())
                                        && results@[jj].1@.contains(v);
                                let ks = results@[j].0@.to_set();
                                assert(is_critical(m, ks, N as nat));
                                let ps = lemma_naked_decode(u, m, ks, N as nat);
                                assert(!ps.contains(p)) by {
                                    if ps.contains(p) {
                                        assert(ks.contains(p.spec_code()));
                                    }
                                }
                                assert(naked_union(u, ps).contains(v)) by {
                                    assert(results@[j].1@.to_set() == union_vals(m, ks));
                                    assert(results@[j].1@.to_set().contains(v));
                                }
                                assert(naked_critical(u, ps, N as nat) && !ps.contains(p)
                                    && naked_union(u, ps).contains(v));
                            }
                            if naked_elim_set(u, N as nat, p).contains(v) {
                                let ps = choose|ps: Set<Position>| #[trigger]
                                    naked_critical(u, ps, N as nat) && !ps.contains(p)
                                        && naked_union(u, ps).contains(v);
                                lemma_naked_encode(u, m, ps, N as nat);
                                let ks = ps.map(|q: Position| q.spec_code());
                                assert(is_critical(m, ks, N as nat));
                                assert(crate::solver::sets::found_in(results@, ks));
                                let j = choose|j: int|
                                    0 <= j < results@.len() && (#[trigger] results@[j]).0@.to_set()
                                        == ks;
                                assert(!results@[j].0@.contains(p.spec_code())) by {
                                    assert(!ks.contains(p.spec_code()));
                                    if results@[j].0@.contains(p.spec_code()) {
                                        assert(results@[j].0@.to_set().contains(p.spec_code()));
                                    }
                                }
                                assert(results@[j].1@.contains(v)) by {
                                    assert(union_vals(m, ks).contains(v));
                                    assert(results@[j].1@.to_set() == union_vals(m, ks));
                                }
                                assert(naked_hit(results@, p.spec_code(), v));
                            }
                        }
                        assert(d.spec_elims(p) =~= naked_elim_set(u, N as nat, p));
                    }
                },
                Cell::Solved(_) => {
                    proof {
                        assert(d.spec_elims(p) =~= naked_elim_set(u, N as nat, p)) by {
                            assert forall|v: u8|
                                !(#[trigger] naked_elim_set(u, N as nat, p).contains(v)) by {}
                        }
                    }
                },
            }
            proof {
                assert forall|k: int|
                    0 <= k < ui + 1 implies #[trigger] d.spec_elims(u[k].0) == naked_elim_set(
                    u,
                    N as nat,
                    u[k].0,
                ) by {
                    if k < ui {
                        assert(u[k].0 != u[ui as int].0) by {
                            let keys = u.map_values(|e: (Position, Cell)| e.0);
                            assert(keys[k] == u[k].0);
                            assert(keys[ui as int] == u[ui as int].0);
                        }
                        assert(d.spec_elims(u[k].0) == d_pre.spec_elims(u[k].0));
                    } else {
                        assert(u[k].0 == p);
                    }
                }
                assert forall|q: Position|
                    assoc_has(d.elims(), q) implies exists|k: int|
                    0 <= k < ui + 1 && (#[trigger] u[k]).0 == q by {
                    if q == p {
                        assert(u[ui as int].0 == q);
                    } else {
                        assert(assoc_has(d_pre.elims(), q));
                        let k = choose|k: int| 0 <= k < ui && (#[trigger] u[k]).0 == q;
                    }
                }
            }
            ui = ui + 1;
        }
        proof {
            assert forall|p: Position| #[trigger] d.spec_elims(p) == naked_elim_set(
                u,
                N as nat,
                p,
            ) by {
                crate::solver::strategies::lemma_assoc_get_index(d.elims(), p);
                crate::solver::strategies::lemma_assoc_get_index(u, p);
                if exists|k: int| 0 <= k < u.len() && (#[trigger] u[k]).0 == p {
                    let k = choose|k: int| 0 <= k < u.len() && (#[trigger] u[k]).0 == p;
                    assert(d.spec_elims(u[k].0) == naked_elim_set(u, N as nat, u[k].0));
                } else {
                    assert(!assoc_has(d.elims(), p)) by {
                        if assoc_has(d.elims(), p) {
                            let k = choose|k: int| 0 <= k < u.len() && (#[trigger] u[k]).0 == p;
                        }
                    }
                    assert(!assoc_has(u, p));
                    assert(d.spec_elims(p) =~= Set::<u8>::empty());
                    assert(naked_elim_set(u, N as nat, p) =~= Set::<u8>::empty()) by {
                        assert forall|v: u8|
                            !(#[trigger] naked_elim_set(u, N as nat, p).contains(v)) by {}
                    }
                }
            }
            assert forall|p: Position| ((#[trigger] d.spec_solved(p)) is None) by {
                crate::solver::strategies::lemma_assoc_get_index(d.solves(), p);
            }
            // grounded: every recorded elimination matches the
            // characterization at its own position
            assert forall|k: int| 0 <= k < d.elims().len() implies {
                let p = (#[trigger] d.elims()[k]).0;
                let cd = d.elims()[k].1;
                &&& assoc_get(u, p) matches Some(c) && c is Unsolved && (forall|v: u8|
                    cd.to_set().contains(v) ==> c.spec_can_be(v))
            } by {
                let p = d.elims()[k].0;
                let cd = d.elims()[k].1;
                crate::solver::strategies::lemma_assoc_get_at_index(d.elims(), k);
                assert(d.spec_elims(p) == cd.to_set());
                assert(d.spec_elims(p) == naked_elim_set(u, N as nat, p));
                crate::cells::lemma_candidate_list(cd.bits());
                let lst = crate::cells::candidate_list(cd.bits());
                assert(lst.len() >= 1);
                assert(cd.to_set().contains(lst[0]));
                assert(naked_elim_set(u, N as nat, p).contains(lst[0]));
                assert forall|v: u8| cd.to_set().contains(v) implies assoc_get(
                    u,
                    p,
                ).unwrap().spec_can_be(v) by {
                    assert(naked_elim_set(u, N as nat, p).contains(v));
                }
            }
        }
        d
    }
}

} // verus!
