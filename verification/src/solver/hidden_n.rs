//! The hidden-N strategy: N values of a group confined to exactly N
//! positions must occupy those positions, so every other candidate is
//! removed from those cells. Only unsolved cells feed the map.

use vstd::prelude::*;
use vstd::set_lib::*;

use crate::cells::Cell;
use crate::grid::Unit;
use crate::pos::pos_valid;
use crate::pos::Position;
use crate::solver::sets::contains_u8;
use crate::solver::sets::has_key;
use crate::solver::sets::is_critical;
use crate::solver::sets::multimap_wf;
use crate::solver::sets::union_vals;
use crate::solver::sets::vals_of;
use crate::solver::sets::Order;
use crate::solver::sets::Subsets;
use crate::solver::strategies::assoc_get;
use crate::solver::strategies::assoc_has;
use crate::solver::strategies::unit_wf;
use crate::solver::strategies::Difficulty;
use crate::solver::strategies::StrategyDelta;
use crate::solver::strategies::UnitStrategy;

verus! {

broadcast use crate::cells::Candidates::lemma_bits_len;

/// The positions of the group whose unsolved cells still admit value `v`.
pub open spec fn hidden_spots(u: Seq<(Position, Cell)>, v: u8) -> Set<Position> {
    Set::new(
        |q: Position|
            assoc_has(u, q) && (assoc_get(u, q).unwrap() matches Cell::Unsolved(cd) && cd.has(v)),
    )
}

/// The positions some value of `vs` could still occupy.
pub open spec fn hidden_union(u: Seq<(Position, Cell)>, vs: Set<u8>) -> Set<Position> {
    Set::new(|q: Position| exists|v: u8| #[trigger] vs.contains(v) && hidden_spots(u, v).contains(q))
}

/// A hidden set in the group: exactly `n` values confined to exactly `n`
/// positions, each value still open somewhere.
pub open spec fn hidden_critical(u: Seq<(Position, Cell)>, vs: Set<u8>, n: nat) -> bool {
    &&& vs.finite()
    &&& vs.len() == n
    &&& forall|v: u8| #[trigger]
        vs.contains(v) ==> exists|q: Position| hidden_spots(u, v).contains(q)
    &&& hidden_union(u, vs).finite()
    &&& hidden_union(u, vs).len() == n
}

/// What hidden-N eliminates at `p`: candidates of `p`'s unsolved cell that
/// lie outside some hidden set confined to positions including `p`.
pub open spec fn hidden_elim_set(u: Seq<(Position, Cell)>, n: nat, p: Position) -> Set<u8> {
    Set::new(
        |c: u8|
            {
                &&& assoc_get(u, p) matches Some(cl) && cl is Unsolved && cl.spec_can_be(c)
                &&& exists|vs: Set<u8>| #[trigger]
                    hidden_critical(u, vs, n) && hidden_union(u, vs).contains(p) && !vs.contains(c)
            },
    )
}

/// The multimap `m` encodes the group `u` for the hidden search: each value
/// still open in some unsolved cell is a key, mapped to the row-major
/// offsets of exactly those cells.
pub open spec fn hidden_map_of(m: Seq<(u8, Seq<u8>)>, u: Seq<(Position, Cell)>) -> bool {
    &&& forall|v: u8, k: u8|
        #[trigger] vals_of(m, v).contains(k) <==> exists|q: Position| #[trigger]
            hidden_spots(u, v).contains(q) && q.spec_code() == k
    &&& forall|v: u8| #[trigger]
        has_key(m, v) <==> exists|q: Position| hidden_spots(u, v).contains(q)
}

/// Spot positions are listed positions of the group.
proof fn lemma_spot_listed(u: Seq<(Position, Cell)>, v: u8, q: Position)
    requires
        unit_wf(u),
        hidden_spots(u, v).contains(q),
    ensures
        pos_valid(q),
        exists|i: int| 0 <= i < u.len() && (#[trigger] u[i]).0 == q,
{
    crate::solver::strategies::lemma_assoc_get_index(u, q);
    let i = choose|i: int| 0 <= i < u.len() && (#[trigger] u[i]).0 == q;
    let keys = u.map_values(|e: (Position, Cell)| e.0);
    assert(keys[i] == u[i].0);
    crate::solver::strategies::lemma_assoc_get_at_index(u, i);
}

/// The hidden multimap's unions mirror the group's: value sets are critical
/// in the multimap exactly when they are hidden sets of the group, and the
/// union of codes matches the union of positions point for point.
proof fn lemma_hidden_bridge(u: Seq<(Position, Cell)>, m: Seq<(u8, Seq<u8>)>, vs: Set<u8>, n: nat)
    requires
        unit_wf(u),
        multimap_wf(m),
        hidden_map_of(m, u),
        vs.finite(),
    ensures
        hidden_union(u, vs).finite(),
        forall|p: Position|
            pos_valid(p) ==> (union_vals(m, vs).contains(p.spec_code()) <==> hidden_union(
                u,
                vs,
            ).contains(p)),
        union_vals(m, vs).len() == hidden_union(u, vs).len(),
        is_critical(m, vs, n) <==> hidden_critical(u, vs, n),
{
    let f = |q: Position| q.spec_code();
    let hu = hidden_union(u, vs);
    // the union of positions sits inside the group's position set
    let upos = u.map_values(|e: (Position, Cell)| e.0).to_set();
    vstd::seq_lib::seq_to_set_is_finite::<Position>(u.map_values(|e: (Position, Cell)| e.0));
    assert forall|q: Position| #[trigger] hu.contains(q) implies upos.contains(q) && pos_valid(
        q,
    ) by {
        let v = choose|v: u8| #[trigger] vs.contains(v) && hidden_spots(u, v).contains(q);
        lemma_spot_listed(u, v, q);
        let i = choose|i: int| 0 <= i < u.len() && (#[trigger] u[i]).0 == q;
        assert(u.map_values(|e: (Position, Cell)| e.0)[i] == q);
        assert(u.map_values(|e: (Position, Cell)| e.0).contains(q));
    }
    lemma_set_subset_finite(upos, hu);
    // code for code, the multimap's union is the image of the position union
    crate::solver::sets::lemma_union_vals_characterized(m, vs);
    assert(hu.map(f) =~= union_vals(m, vs)) by {
        assert forall|k: u8| #[trigger] hu.map(f).contains(k) implies union_vals(m, vs).contains(
            k,
        ) by {
            let q = choose|q: Position| hu.contains(q) && f(q) == k;
            let v = choose|v: u8| #[trigger] vs.contains(v) && hidden_spots(u, v).contains(q);
            assert(vals_of(m, v).contains(k));
        }
        assert forall|k: u8| #[trigger] union_vals(m, vs).contains(k) implies hu.map(f).contains(
            k,
        ) by {
            let v = choose|v: u8| vs.contains(v) && #[trigger] vals_of(m, v).contains(k);
            let q = choose|q: Position| #[trigger]
                hidden_spots(u, v).contains(q) && q.spec_code() == k;
            assert(hu.contains(q));
            assert(f(q) == k);
        }
    }
    assert(vstd::relations::injective_on(f, hu)) by {
        assert forall|a: Position, b: Position|
            hu.contains(a) && hu.contains(b) && #[trigger] f(a) == #[trigger] f(b) implies a
            == b by {
            Position::lemma_index_injective(a, b);
        }
    }
    lemma_map_size(hu, union_vals(m, vs), f);
    // membership mirrors membership
    assert forall|p: Position|
        pos_valid(p) implies (union_vals(m, vs).contains(p.spec_code()) <==> hu.contains(p)) by {
        if union_vals(m, vs).contains(p.spec_code()) {
            let q = choose|q: Position| hu.contains(q) && f(q) == p.spec_code();
            Position::lemma_index_injective(q, p);
        }
        if hu.contains(p) {
            assert(hu.map(f).contains(f(p)));
        }
    }
    crate::solver::sets::lemma_union_vals_finite(m, vs);
}

/// The value-to-positions multimap hidden-N searches: keys are values still
/// open in unsolved cells, mapped to those cells' row-major offsets.
pub struct PositionMap(Subsets);

impl PositionMap {
    /// The underlying multimap view.
    pub closed spec fn map(&self) -> Seq<(u8, Seq<u8>)> {
        self.0@
    }

    pub open spec fn wf(&self) -> bool {
        multimap_wf(self.map())
    }

    pub fn new() -> (r: Self)
        ensures
            r.wf(),
            r.map().len() == 0,
    {
        PositionMap(Subsets::new())
    }

    /// Record one cell: an unsolved cell registers its position under each of
    /// its candidate values; a solved cell registers nothing.
    pub fn add_cell(&mut self, pos: &Position, cell: &Cell)
        requires
            old(self).wf(),
        ensures
            final(self).wf(),
            forall|v: u8, k: u8|
                #[trigger] vals_of(final(self).map(), v).contains(k) <==> (vals_of(
                    old(self).map(),
                    v,
                ).contains(k) || (*cell matches Cell::Unsolved(cd) && cd.has(v) && k
                    == pos.spec_code())),
            forall|v: u8|
                #[trigger] has_key(final(self).map(), v) <==> (has_key(old(self).map(), v) || (
                *cell matches Cell::Unsolved(cd) && cd.has(v))),
    {
        let code = pos.code();
        match cell {
            Cell::Solved(_) => {},
            Cell::Unsolved(cds) => {
                let vlist = cds.to_vec();
                proof {
                    crate::cells::lemma_candidate_list(cds.bits());
                    assert forall|jj: int|
                        0 <= jj < vlist@.len() implies cds.has((#[trigger] vlist@[jj]).val()) by {
                        let lst = crate::cells::candidate_list(cds.bits());
                        assert(vlist@.map_values(|c: crate::cells::CellValue| c.val())[jj]
                            == lst[jj]);
                    }
                }
                let mut j: usize = 0;
                while j < vlist.len()
                    invariant
                        j <= vlist@.len(),
                        code == pos.spec_code(),
                        self.wf(),
                        vlist@.map_values(|c: crate::cells::CellValue| c.val())
                            == crate::cells::candidate_list(cds.bits()),
                        forall|jj: int|
                            0 <= jj < vlist@.len() ==> cds.has((#[trigger] vlist@[jj]).val()),
                        forall|v: u8, k: u8|
                            #[trigger] vals_of(self.0@, v).contains(k) <==> (vals_of(
                                old(self).map(),
                                v,
                            ).contains(k) || (crate::cells::candidate_list(cds.bits()).subrange(
                                0,
                                j as int,
                            ).contains(v) && k == code)),
                        forall|v: u8|
                            #[trigger] has_key(self.0@, v) <==> (has_key(old(self).map(), v)
                                || crate::cells::candidate_list(cds.bits()).subrange(
                                0,
                                j as int,
                            ).contains(v)),
                    decreases vlist@.len() - j,
                {
                    let v = vlist[j];
                    proof {
                        assert(v.val() == crate::cells::candidate_list(cds.bits())[j as int]);
                    }
                    let vv = v.get();
                    let ghost m_pre = self.0@;
                    self.0.insert(vv, code);
                    proof {
                        let lst = crate::cells::candidate_list(cds.bits());
                        let pre = lst.subrange(0, j as int);
                        let cur = lst.subrange(0, j + 1);
                        assert(cur.drop_last() =~= pre);
                        assert(cur.last() == lst[j as int]);
                        assert(vals_of(self.0@, vv) =~= vals_of(m_pre, vv).insert(code));
                        assert forall|v2: u8, k: u8|
                            #[trigger] vals_of(self.0@, v2).contains(k) <==> (vals_of(
                                old(self).map(),
                                v2,
                            ).contains(k) || (cur.contains(v2) && k == code)) by {
                            if v2 != vv {
                                assert(vals_of(self.0@, v2) == vals_of(m_pre, v2));
                                if cur.contains(v2) {
                                    let w = choose|w: int| 0 <= w < cur.len() && cur[w] == v2;
                                    if w < pre.len() {
                                        assert(pre[w] == v2);
                                    } else {
                                        assert(v2 == vv);
                                    }
                                }
                                if pre.contains(v2) {
                                    let w = choose|w: int| 0 <= w < pre.len() && pre[w] == v2;
                                    assert(cur[w] == v2);
                                }
                            } else {
                                assert(vals_of(m_pre, vv).contains(k) <==> (vals_of(
                                    old(self).map(),
                                    vv,
                                ).contains(k) || (pre.contains(vv) && k == code)));
                                assert(cur[cur.len() - 1] == vv);
                            }
                        }
                        assert forall|v2: u8|
                            #[trigger] has_key(self.0@, v2) <==> (has_key(old(self).map(), v2)
                                || cur.contains(v2)) by {
                            if v2 != vv {
                                if cur.contains(v2) {
                                    let w = choose|w: int| 0 <= w < cur.len() && cur[w] == v2;
                                    if w < pre.len() {
                                        assert(pre[w] == v2);
                                    } else {
                                        assert(v2 == vv);
                                    }
                                }
                                if pre.contains(v2) {
                                    let w = choose|w: int| 0 <= w < pre.len() && pre[w] == v2;
                                    assert(cur[w] == v2);
                                }
                            } else {
                                assert(cur[cur.len() - 1] == vv);
                            }
                        }
                    }
                    j = j + 1;
                }
                proof {
                    let lst = crate::cells::candidate_list(cds.bits());
                    assert(lst.subrange(0, lst.len() as int) =~= lst);
                    assert forall|v: u8, k: u8|
                        #[trigger] vals_of(self.0@, v).contains(k) <==> (vals_of(
                            old(self).map(),
                            v,
                        ).contains(k) || (*cell matches Cell::Unsolved(cd) && cd.has(v) && k
                            == pos.spec_code())) by {
                        assert(vals_of(self.0@, v).contains(k) <==> (vals_of(
                            old(self).map(),
                            v,
                        ).contains(k) || (lst.subrange(0, vlist@.len() as int).contains(v) && k
                            == code)));
                        assert(lst.contains(v) <==> cds.has(v));
                    }
                    assert forall|v: u8|
                        #[trigger] has_key(self.0@, v) <==> (has_key(old(self).map(), v) || (
                        *cell matches Cell::Unsolved(cd) && cd.has(v))) by {
                        assert(has_key(self.0@, v) <==> (has_key(old(self).map(), v)
                            || lst.subrange(0, vlist@.len() as int).contains(v)));
                        assert(lst.contains(v) <==> cds.has(v));
                    }
                }
            },
        }
    }

    /// All critical sets of the map, by delegation to the shared search.
    pub fn find_hidden(&self, n: usize) -> (r: Vec<(Vec<u8>, Vec<u8>)>)
        requires
            self.wf(),
        ensures
            crate::solver::sets::sound_results(self.map(), Set::empty(), n as nat, r@),
            forall|s: Set<u8>|
                is_critical(self.map(), s, n as nat) ==> crate::solver::sets::found_in(r@, s),
    {
        self.0.find_critical_sets(n)
    }
}

/// Some reported pair eliminates `c` at the position with offset `code`: its
/// union of positions holds the cell while its value set leaves `c` out.
pub open spec fn hidden_hit(rs: Seq<(Vec<u8>, Vec<u8>)>, code: u8, c: u8) -> bool {
    exists|j: int|
        0 <= j < rs.len() && (#[trigger] rs[j]).1@.contains(code) && !rs[j].0@.contains(c)
}

/// The hidden-N strategy over one group, parameterized by the order `N`.
#[derive(Copy, Clone, PartialEq, Eq, Debug)]
pub struct HiddenN<const N: usize>;

impl<const N: usize> UnitStrategy for HiddenN<N> {
    open spec fn spec_difficulty(&self) -> Difficulty {
        Difficulty::Standard
    }

    /// The delta solves nothing and eliminates, at every position, exactly
    /// the candidates outside a hidden N-set confined to that cell and its
    /// fellows.
    open spec fn unit_delta_spec(&self, u: Seq<(Position, Cell)>, d: StrategyDelta) -> bool {
        &&& forall|p: Position| (#[trigger] d.spec_solved(p)) is None
        &&& forall|p: Position| #[trigger] d.spec_elims(p) == hidden_elim_set(u, N as nat, p)
    }

    fn name(&self) -> String {
        let order = Order(N);
        String::from_str("Hidden ").concat(order.label())
    }

    fn difficulty(&self) -> (r: Difficulty)
        ensures
            r == self.spec_difficulty(),
    {
        Difficulty::Standard
    }

    #[verifier::rlimit(100)]
    fn solve_unit(&self, unit: &Unit) -> (d: StrategyDelta) {
        let ghost u = unit@;
        let mut pmap = PositionMap::new();
        let mut bi: usize = 0;
        while bi < unit.len()
            invariant
                pmap.wf(),
                unit_wf(u),
                u == unit@,
                bi <= u.len(),
                forall|v: u8, k: u8|
                    #[trigger] vals_of(pmap.map(), v).contains(k) <==> exists|i: int|
                        {
                            &&& 0 <= i < bi
                            &&& (#[trigger] u[i]).1 matches Cell::Unsolved(cd)
                            &&& cd.has(v)
                            &&& u[i].0.spec_code() == k
                        },
                forall|v: u8|
                    #[trigger] has_key(pmap.map(), v) <==> exists|i: int|
                        {
                            &&& 0 <= i < bi
                            &&& (#[trigger] u[i]).1 matches Cell::Unsolved(cd)
                            &&& cd.has(v)
                        },
            decreases u.len() - bi,
        {
            let (p, cell) = unit[bi];
            let ghost pm_pre = pmap.map();
            pmap.add_cell(&p, &cell);
            proof {
                assert(u[bi as int] == (p, cell));
                assert forall|v: u8, k: u8|
                    #[trigger] vals_of(pmap.map(), v).contains(k) <==> exists|i: int|
                        {
                            &&& 0 <= i < bi + 1
                            &&& (#[trigger] u[i]).1 matches Cell::Unsolved(cd)
                            &&& cd.has(v)
                            &&& u[i].0.spec_code() == k
                        } by {
                    if vals_of(pmap.map(), v).contains(k) {
                        if vals_of(pm_pre, v).contains(k) {
                            let i = choose|i: int|
                                {
                                    &&& 0 <= i < bi
                                    &&& (#[trigger] u[i]).1 matches Cell::Unsolved(cd)
                                    &&& cd.has(v)
                                    &&& u[i].0.spec_code() == k
                                };
                            assert(0 <= i < bi + 1 && (u[i].1 matches Cell::Unsolved(cd) && cd.has(
                                v,
                            ) && u[i].0.spec_code() == k));
                        } else {
                            assert(u[bi as int].1 matches Cell::Unsolved(cd) && cd.has(v)
                                && u[bi as int].0.spec_code() == k);
                        }
                    }
                    if exists|i: int|
                        {
                            &&& 0 <= i < bi + 1
                            &&& (#[trigger] u[i]).1 matches Cell::Unsolved(cd)
                            &&& cd.has(v)
                            &&& u[i].0.spec_code() == k
                        } {
                        let i = choose|i: int|
                            {
                                &&& 0 <= i < bi + 1
                                &&& (#[trigger] u[i]).1 matches Cell::Unsolved(cd)
                                &&& cd.has(v)
                                &&& u[i].0.spec_code() == k
                            };
                        if i < bi {
                            assert(vals_of(pm_pre, v).contains(k));
                        }
                    }
                }
                assert forall|v: u8|
                    #[trigger] has_key(pmap.map(), v) <==> exists|i: int|
                        {
                            &&& 0 <= i < bi + 1
                            &&& (#[trigger] u[i]).1 matches Cell::Unsolved(cd)
                            &&& cd.has(v)
                        } by {
                    if has_key(pmap.map(), v) {
                        if has_key(pm_pre, v) {
                            let i = choose|i: int|
                                {
                                    &&& 0 <= i < bi
                                    &&& (#[trigger] u[i]).1 matches Cell::Unsolved(cd)
                                    &&& cd.has(v)
                                };
                            assert(0 <= i < bi + 1 && (u[i].1 matches Cell::Unsolved(cd) && cd.has(
                                v,
                            )));
                        } else {
                            assert(u[bi as int].1 matches Cell::Unsolved(cd) && cd.has(v));
                        }
                    }
                    if exists|i: int|
                        {
                            &&& 0 <= i < bi + 1
                            &&& (#[trigger] u[i]).1 matches Cell::Unsolved(cd)
                            &&& cd.has(v)
                        } {
                        let i = choose|i: int|
                            {
                                &&& 0 <= i < bi + 1
                                &&& (#[trigger] u[i]).1 matches Cell::Unsolved(cd)
                                &&& cd.has(v)
                            };
                        if i < bi {
                            assert(has_key(pm_pre, v));
                        }
                    }
                }
            }
            bi = bi + 1;
        }
        proof {
            // the finished map encodes the group's spots
            assert(hidden_map_of(pmap.map(), u)) by {
                assert forall|v: u8, k: u8|
                    #[trigger] vals_of(pmap.map(), v).contains(k) <==> exists|q: Position|
                        #[trigger] hidden_spots(u, v).contains(q) && q.spec_code() == k by {
                    if vals_of(pmap.map(), v).contains(k) {
                        let i = choose|i: int|
                            {
                                &&& 0 <= i < u.len()
                                &&& (#[trigger] u[i]).1 matches Cell::Unsolved(cd)
                                &&& cd.has(v)
                                &&& u[i].0.spec_code() == k
                            };
                        crate::solver::strategies::lemma_assoc_get_at_index(u, i);
                        let keys = u.map_values(|e: (Position, Cell)| e.0);
                        assert(keys[i] == u[i].0);
                        crate::solver::strategies::lemma_assoc_get_index(u, u[i].0);
                        assert(hidden_spots(u, v).contains(u[i].0));
                    }
                    if exists|q: Position| #[trigger]
                        hidden_spots(u, v).contains(q) && q.spec_code() == k {
                        let q = choose|q: Position| #[trigger]
                            hidden_spots(u, v).contains(q) && q.spec_code() == k;
                        crate::solver::strategies::lemma_assoc_get_index(u, q);
                        let i = choose|i: int| 0 <= i < u.len() && (#[trigger] u[i]).0 == q;
                        crate::solver::strategies::lemma_assoc_get_at_index(u, i);
                        let keys = u.map_values(|e: (Position, Cell)| e.0);
                        assert(keys[i] == u[i].0);
                        assert(u[i].1 matches Cell::Unsolved(cd) && cd.has(v)
                            && u[i].0.spec_code() == k);
                    }
                }
                assert forall|v: u8|
                    #[trigger] has_key(pmap.map(), v) <==> exists|q: Position|
                        hidden_spots(u, v).contains(q) by {
                    if has_key(pmap.map(), v) {
                        let i = choose|i: int|
                            {
                                &&& 0 <= i < u.len()
                                &&& (#[trigger] u[i]).1 matches Cell::Unsolved(cd)
                                &&& cd.has(v)
                            };
                        crate::solver::strategies::lemma_assoc_get_at_index(u, i);
                        let keys = u.map_values(|e: (Position, Cell)| e.0);
                        assert(keys[i] == u[i].0);
                        crate::solver::strategies::lemma_assoc_get_index(u, u[i].0);
                        assert(hidden_spots(u, v).contains(u[i].0));
                    }
                    if exists|q: Position| hidden_spots(u, v).contains(q) {
                        let q = choose|q: Position| hidden_spots(u, v).contains(q);
                        crate::solver::strategies::lemma_assoc_get_index(u, q);
                        let i = choose|i: int| 0 <= i < u.len() && (#[trigger] u[i]).0 == q;
                        crate::solver::strategies::lemma_assoc_get_at_index(u, i);
                        let keys = u.map_values(|e: (Position, Cell)| e.0);
                        assert(keys[i] == u[i].0);
                        assert(u[i].1 matches Cell::Unsolved(cd) && cd.has(v));
                    }
                }
            }
        }
        let results = pmap.find_hidden(N);
        let ghost m = pmap.map();
        let mut d = StrategyDelta::new();
        let mut ui: usize = 0;
        while ui < unit.len()
            invariant
                d.wf(),
                d.solves().len() == 0,
                u == unit@,
                unit_wf(u),
                m == pmap.map(),
                multimap_wf(m),
                hidden_map_of(m, u),
                crate::solver::sets::sound_results(m, Set::empty(), N as nat, results@),
                forall|s: Set<u8>|
                    is_critical(m, s, N as nat) ==> crate::solver::sets::found_in(results@, s),
                ui <= u.len(),
                forall|k: int|
                    0 <= k < ui ==> #[trigger] d.spec_elims(u[k].0) == hidden_elim_set(
                        u,
                        N as nat,
                        u[k].0,
                    ),
                forall|q: Position|
                    assoc_has(d.elims(), q) ==> exists|k: int| 0 <= k < ui && (#[trigger] u[k]).0 == q,
            decreases u.len() - ui,
        {
            let (p, cell) = unit[ui];
            let ghost d_pre = d;
            proof {
                let keys = u.map_values(|e: (Position, Cell)| e.0);
                assert(keys[ui as int] == u[ui as int].0);
                crate::solver::strategies::lemma_assoc_get_at_index(u, ui as int);
                assert(assoc_get(u, p) == Some(cell));
                assert(pos_valid(p)) by {
                    assert(u.map_values(|e: (Position, Cell)| e.0)[ui as int] == p);
                }
                crate::solver::strategies::lemma_assoc_get_index(d.elims(), p);
                if assoc_has(d.elims(), p) {
                    let k = choose|k: int| 0 <= k < ui && (#[trigger] u[k]).0 == p;
                    assert(keys[k] == u[k].0);
                }
                assert(!assoc_has(d.elims(), p));
                assert(d.spec_elims(p) =~= Set::<u8>::empty());
            }
            match cell {
                Cell::Unsolved(cand) => {
                    let cvals = cand.to_vec();
                    let code = p.code();
                    proof {
                        crate::cells::lemma_candidate_list(cand.bits());
                        assert forall|t: int|
                            0 <= t < cvals@.len() implies cand.has(
                            (#[trigger] cvals@[t]).val(),
                        ) by {
                            let lst = crate::cells::candidate_list(cand.bits());
                            assert(cvals@.map_values(|c: crate::cells::CellValue| c.val())[t]
                                == lst[t]);
                        }
                    }
                    let mut t: usize = 0;
                    while t < cvals.len()
                        invariant
                            t <= cvals@.len(),
                            u == unit@,
                            unit_wf(u),
                            0 <= (ui as int) < u.len(),
                            (p, cell) == u[ui as int],
                            cell == Cell::Unsolved(cand),
                            assoc_get(u, p) == Some(cell),
                            code == p.spec_code(),
                            pos_valid(p),
                            m == pmap.map(),
                            multimap_wf(m),
                            hidden_map_of(m, u),
                            crate::solver::sets::sound_results(m, Set::empty(), N as nat, results@),
                            forall|s: Set<u8>|
                                is_critical(m, s, N as nat) ==> crate::solver::sets::found_in(
                                    results@,
                                    s,
                                ),
                            cvals@.map_values(|c: crate::cells::CellValue| c.val())
                                == crate::cells::candidate_list(cand.bits()),
                            d.wf(),
                            d.solves().len() == 0,
                            forall|v: u8| #[trigger]
                                d.spec_elims(p).contains(v) <==> (crate::cells::candidate_list(
                                    cand.bits(),
                                ).subrange(0, t as int).contains(v) && hidden_hit(
                                    results@,
                                    p.spec_code(),
                                    v,
                                )),
                            forall|q: Position| q != p ==> d.spec_elims(q) == d_pre.spec_elims(q),
                            forall|q: Position|
                                assoc_has(d.elims(), q) ==> (assoc_has(d_pre.elims(), q) || q == p),
                            d.solves() == d_pre.solves(),
                        decreases cvals@.len() - t,
                    {
                        let v = cvals[t];
                        proof {
                            assert(v.val() == crate::cells::candidate_list(cand.bits())[t as int]);
                        }
                        let vv = v.get();
                        let mut hit = false;
                        let mut j: usize = 0;
                        while j < results.len()
                            invariant
                                j <= results@.len(),
                                vv == v.val(),
                                code < 81,
                                hit == exists|jj: int|
                                    0 <= jj < j && (#[trigger] results@[jj]).1@.contains(code)
                                        && !results@[jj].0@.contains(vv),
                            decreases results@.len() - j,
                        {
                            let pair = &results[j];
                            let in_vs = contains_u8(&pair.0, vv);
                            let in_ps = contains_u8(&pair.1, code);
                            if in_ps && !in_vs {
                                hit = true;
                                proof {
                                    assert((results@[j as int]).1@.contains(code)
                                        && !results@[j as int].0@.contains(vv));
                                }
                            }
                            j = j + 1;
                        }
                        proof {
                            assert(hit == hidden_hit(results@, p.spec_code(), v.val()));
                        }
                        if hit {
                            d.eliminate(p, v);
                        }
                        proof {
                            let lst = crate::cells::candidate_list(cand.bits());
                            let pre = lst.subrange(0, t as int);
                            let cur = lst.subrange(0, t + 1);
                            assert(cur.drop_last() =~= pre);
                            assert(cur.last() == lst[t as int]);
                            assert forall|v2: u8| #[trigger]
                                d.spec_elims(p).contains(v2) <==> (cur.contains(v2) && hidden_hit(
                                results@,
                                p.spec_code(),
                                v2,
                            )) by {
                                if cur.contains(v2) {
                                    let w = choose|w: int| 0 <= w < cur.len() && cur[w] == v2;
                                    if w < pre.len() {
                                        assert(pre[w] == v2);
                                    } else {
                                        assert(v2 == v.val());
                                    }
                                }
                                if pre.contains(v2) {
                                    let w = choose|w: int| 0 <= w < pre.len() && pre[w] == v2;
                                    assert(cur[w] == v2);
                                }
                                if v2 == v.val() {
                                    assert(cur[cur.len() - 1] == v2);
                                }
                            }
                        }
                        t = t + 1;
                    }
                    proof {
                        let lst = crate::cells::candidate_list(cand.bits());
                        assert(lst.subrange(0, lst.len() as int) =~= lst);
                        assert forall|v: u8| #[trigger]
                            d.spec_elims(p).contains(v) <==> hidden_elim_set(
                            u,
                            N as nat,
                            p,
                        ).contains(v) by {
                            assert(d.spec_elims(p).contains(v) <==> (lst.contains(v) && hidden_hit(
                                results@,
                                p.spec_code(),
                                v,
                            )));
                            assert(lst.contains(v) <==> cand.has(v));
                            if lst.contains(v) && hidden_hit(results@, p.spec_code(), v) {
                                let j = choose|jj: int|
                                    0 <= jj < results@.len() && (#[trigger] results@[jj]).1@.contains(
                                        p.spec_code(),
                                    ) && !results@[jj].0@.contains(v);
                                let vs = results@[j].0@.to_set();
                                assert(is_critical(m, vs, N as nat));
                                lemma_hidden_bridge(u, m, vs, N as nat);
                                assert(hidden_critical(u, vs, N as nat));
                                assert(hidden_union(u, vs).contains(p)) by {
                                    assert(results@[j].1@.to_set() == union_vals(m, vs));
                                    assert(results@[j].1@.to_set().contains(p.spec_code()));
                                }
                                assert(!vs.contains(v)) by {
                                    if results@[j].0@.to_set().contains(v) {
                                        assert(results@[j].0@.contains(v));
                                    }
                                }
                                assert(hidden_critical(u, vs, N as nat) && hidden_union(
                                    u,
                                    vs,
                                ).contains(p) && !vs.contains(v));
                            }
                            if hidden_elim_set(u, N as nat, p).contains(v) {
                                let vs = choose|vs: Set<u8>| #[trigger]
                                    hidden_critical(u, vs, N as nat) && hidden_union(
                                        u,
                                        vs,
                                    ).contains(p) && !vs.contains(v);
                                lemma_hidden_bridge(u, m, vs, N as nat);
                                assert(is_critical(m, vs, N as nat));
                                assert(crate::solver::sets::found_in(results@, vs));
                                let j = choose|j: int|
                                    0 <= j < results@.len() && (#[trigger] results@[j]).0@.to_set()
                                        == vs;
                                assert(results@[j].1@.contains(p.spec_code())) by {
                                    assert(union_vals(m, vs).contains(p.spec_code()));
                                    assert(results@[j].1@.to_set() == union_vals(m, vs));
                                }
                                assert(!results@[j].0@.contains(v)) by {
                                    if results@[j].0@.contains(v) {
                                        assert(results@[j].0@.to_set().contains(v));
                                    }
                                }
                                assert(hidden_hit(results@, p.spec_code(), v));
                            }
                        }
                        assert(d.spec_elims(p) =~= hidden_elim_set(u, N as nat, p));
                    }
                },
                Cell::Solved(_) => {
                    proof {
                        assert(d.spec_elims(p) =~= hidden_elim_set(u, N as nat, p)) by {
                            assert forall|v: u8|
                                !(#[trigger] hidden_elim_set(u, N as nat, p).contains(v)) by {}
                        }
                    }
                },
            }
            proof {
                assert forall|k: int|
                    0 <= k < ui + 1 implies #[trigger] d.spec_elims(u[k].0) == hidden_elim_set(
                    u,
                    N as nat,
                    u[k].0,
                ) by {
                    if k < ui {
                        assert(u[k].0 != u[ui as int].0) by {
                            let keys = u.map_values(|e: (Position, Cell)| e.0);
                            assert(keys[k] == u[k].0);
                            assert(keys[ui as int] == u[ui as int].0);
                        }
                        assert(d.spec_elims(u[k].0) == d_pre.spec_elims(u[k].0));
                    } else {
                        assert(u[k].0 == p);
                    }
                }
                assert forall|q: Position|
                    assoc_has(d.elims(), q) implies exists|k: int|
                    0 <= k < ui + 1 && (#[trigger] u[k]).0 == q by {
                    if q == p {
                        assert(u[ui as int].0 == q);
                    } else {
                        assert(assoc_has(d_pre.elims(), q));
                        let k = choose|k: int| 0 <= k < ui && (#[trigger] u[k]).0 == q;
                    }
                }
            }
            ui = ui + 1;
        }
        proof {
            assert forall|p: Position| #[trigger] d.spec_elims(p) == hidden_elim_set(
                u,
                N as nat,
                p,
            ) by {
                crate::solver::strategies::lemma_assoc_get_index(d.elims(), p);
                crate::solver::strategies::lemma_assoc_get_index(u, p);
                if exists|k: int| 0 <= k < u.len() && (#[trigger] u[k]).0 == p {
                    let k = choose|k: int| 0 <= k < u.len() && (#[trigger] u[k]).0 == p;
                    assert(d.spec_elims(u[k].0) == hidden_elim_set(u, N as nat, u[k].0));
                } else {
                    assert(!assoc_has(d.elims(), p)) by {
                        if assoc_has(d.elims(), p) {
                            let k = choose|k: int| 0 <= k < u.len() && (#[trigger] u[k]).0 == p;
                        }
                    }
                    assert(!assoc_has(u, p));
                    assert(d.spec_elims(p) =~= Set::<u8>::empty());
                    assert(hidden_elim_set(u, N as nat, p) =~= Set::<u8>::empty()) by {
                        assert forall|v: u8|
                            !(#[trigger] hidden_elim_set(u, N as nat, p).contains(v)) by {}
                    }
                }
            }
            assert forall|p: Position| ((#[trigger] d.spec_solved(p)) is None) by {
                crate::solver::strategies::lemma_assoc_get_index(d.solves(), p);
            }
            assert forall|k: int| 0 <= k < d.elims().len() implies {
                let p = (#[trigger] d.elims()[k]).0;
                let cd = d.elims()[k].1;
                &&& assoc_get(u, p) matches Some(c) && c is Unsolved && (forall|v: u8|
                    cd.to_set().contains(v) ==> c.spec_can_be(v))
            } by {
                let p = d.elims()[k].0;
                let cd = d.elims()[k].1;
                crate::solver::strategies::lemma_assoc_get_at_index(d.elims(), k);
                assert(d.spec_elims(p) == cd.to_set());
                assert(d.spec_elims(p) == hidden_elim_set(u, N as nat, p));
                crate::cells::lemma_candidate_list(cd.bits());
                let lst = crate::cells::candidate_list(cd.bits());
                assert(lst.len() >= 1);
                assert(cd.to_set().contains(lst[0]));
                assert(hidden_elim_set(u, N as nat, p).contains(lst[0]));
                assert forall|v: u8| cd.to_set().contains(v) implies assoc_get(
                    u,
                    p,
                ).unwrap().spec_can_be(v) by {
                    assert(hidden_elim_set(u, N as nat, p).contains(v));
                }
            }
        }
        d
    }
}

/// Hidden/naked duality: over a group, "value still open at position" is a
/// single relation that naked-N reads by position and hidden-N by value. A
/// family of n unsolved positions and n values that are exactly each
/// other's images under that relation is at once a naked n-set and a
/// hidden n-set of the same order.
pub proof fn lemma_hidden_naked_duality(
    u: Seq<(Position, Cell)>,
    ps: Set<Position>,
    vs: Set<u8>,
    n: nat,
)
    requires
        crate::solver::strategies::unit_wf(u),
        ps.finite(),
        vs.finite(),
        ps.len() == n,
        vs.len() == n,
        forall|q: Position| #[trigger]
            ps.contains(q) ==> assoc_has(u, q) && assoc_get(u, q).unwrap() is Unsolved,
        crate::solver::naked_n::naked_union(u, ps) == vs,
        hidden_union(u, vs) == ps,
    ensures
        crate::solver::naked_n::naked_critical(u, ps, n),
        hidden_critical(u, vs, n),
{
    assert forall|q: Position| #[trigger] ps.contains(q) implies (assoc_has(u, q) && (exists|v: u8|
        crate::solver::strategies::cell_vals(assoc_get(u, q).unwrap()).contains(v))) by {
        assert(hidden_union(u, vs).contains(q));
        let v = choose|v: u8| #[trigger] vs.contains(v) && hidden_spots(u, v).contains(q);
        assert(assoc_get(u, q).unwrap() matches Cell::Unsolved(cd) && cd.has(v));
        match assoc_get(u, q).unwrap() {
            Cell::Unsolved(cd) => {
                crate::cells::lemma_candidate_list(cd.bits());
                assert(crate::cells::candidate_list(cd.bits()).contains(v));
                assert(crate::solver::strategies::cell_vals(assoc_get(u, q).unwrap()).contains(v));
            },
            Cell::Solved(_) => {},
        }
    }
    assert forall|v: u8| #[trigger] vs.contains(v) implies exists|q: Position|
        hidden_spots(u, v).contains(q) by {
        assert(crate::solver::naked_n::naked_union(u, ps).contains(v));
        let q = choose|q: Position| #[trigger]
            ps.contains(q) && assoc_has(u, q) && crate::solver::strategies::cell_vals(
                assoc_get(u, q).unwrap(),
            ).contains(v);
        match assoc_get(u, q).unwrap() {
            Cell::Unsolved(cd) => {
                crate::cells::lemma_candidate_list(cd.bits());
                assert(cd.to_set().contains(v));
                assert(crate::cells::candidate_list(cd.bits()).contains(v));
                assert(cd.has(v));
                assert(hidden_spots(u, v).contains(q));
            },
            Cell::Solved(_) => {},
        }
    }
}

} // verus!
