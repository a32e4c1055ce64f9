//! The generic critical-set search shared by the hidden-N and naked-N
//! strategies.
//!
//! A multimap from keys to value sets is searched for every subset of keys of
//! size exactly `order` whose mapped values union to a set of size exactly
//! `order` — a "critical set", by analogy with a critical system of
//! equations. Hidden-N keys values by position, naked-N positions by value;
//! both are views of the same multimap with keys and values swapped.

use vstd::prelude::*;
use vstd::seq_lib::*;
use vstd::set_lib::*;

verus! {

/// Whether `k` is a key of the multimap view `m`.
pub open spec fn has_key(m: Seq<(u8, Seq<u8>)>, k: u8) -> bool
    decreases m.len(),
{
    if m.len() == 0 {
        false
    } else {
        m.last().0 == k || has_key(m.drop_last(), k)
    }
}

/// The values mapped to key `k`, as a set; empty when `k` is not a key.
pub open spec fn vals_of(m: Seq<(u8, Seq<u8>)>, k: u8) -> Set<u8>
    decreases m.len(),
{
    if m.len() == 0 {
        Set::empty()
    } else if m.last().0 == k {
        m.last().1.to_set()
    } else {
        vals_of(m.drop_last(), k)
    }
}

/// The union of the values mapped to the keys in `ks`.
pub open spec fn union_vals(m: Seq<(u8, Seq<u8>)>, ks: Set<u8>) -> Set<u8>
    decreases m.len(),
{
    if m.len() == 0 {
        Set::empty()
    } else {
        union_vals(m.drop_last(), ks) + if ks.contains(m.last().0) {
            m.last().1.to_set()
        } else {
            Set::<u8>::empty()
        }
    }
}

/// The keys of the multimap, in entry order.
pub open spec fn key_seq(m: Seq<(u8, Seq<u8>)>) -> Seq<u8> {
    m.map_values(|e: (u8, Seq<u8>)| e.0)
}

/// A well-formed multimap view: distinct keys, and each key mapped to a
/// duplicate-free, non-empty value list.
pub open spec fn multimap_wf(m: Seq<(u8, Seq<u8>)>) -> bool {
    &&& key_seq(m).no_duplicates()
    &&& forall|i: int| 0 <= i < m.len() ==> (#[trigger] m[i]).1.no_duplicates()
    &&& forall|i: int| 0 <= i < m.len() ==> (#[trigger] m[i]).1.len() >= 1
}

/// A critical set of keys of `m`: exactly `order` keys whose mapped values
/// union to exactly `order` values.
pub open spec fn is_critical(m: Seq<(u8, Seq<u8>)>, ks: Set<u8>, order: nat) -> bool {
    &&& ks.finite()
    &&& ks.len() == order
    &&& forall|k: u8| ks.contains(k) ==> has_key(m, k)
    &&& union_vals(m, ks).finite()
    &&& union_vals(m, ks).len() == order
}

pub proof fn lemma_union_vals_finite(m: Seq<(u8, Seq<u8>)>, ks: Set<u8>)
    ensures
        union_vals(m, ks).finite(),
    decreases m.len(),
{
    if m.len() > 0 {
        lemma_union_vals_finite(m.drop_last(), ks);
    }
}

/// The union over no keys is empty.
pub proof fn lemma_union_vals_empty(m: Seq<(u8, Seq<u8>)>)
    ensures
        union_vals(m, Set::empty()) =~= Set::<u8>::empty(),
    decreases m.len(),
{
    if m.len() > 0 {
        lemma_union_vals_empty(m.drop_last());
    }
}

/// The union only grows with the key set.
pub proof fn lemma_union_vals_monotone(m: Seq<(u8, Seq<u8>)>, ks1: Set<u8>, ks2: Set<u8>)
    requires
        ks1 <= ks2,
    ensures
        union_vals(m, ks1) <= union_vals(m, ks2),
    decreases m.len(),
{
    if m.len() > 0 {
        lemma_union_vals_monotone(m.drop_last(), ks1, ks2);
    }
}

/// `has_key` holds exactly of the listed keys.
pub proof fn lemma_has_key_index(m: Seq<(u8, Seq<u8>)>, k: u8)
    ensures
        has_key(m, k) <==> exists|i: int| 0 <= i < m.len() && (#[trigger] m[i]).0 == k,
    decreases m.len(),
{
    if m.len() > 0 {
        lemma_has_key_index(m.drop_last(), k);
        if m.last().0 == k {
            assert(m[m.len() - 1].0 == k);
        } else if has_key(m.drop_last(), k) {
            let i = choose|i: int| 0 <= i < m.len() - 1 && (#[trigger] m.drop_last()[i]).0 == k;
            assert(m[i].0 == k);
        } else {
            if exists|i: int| 0 <= i < m.len() && (#[trigger] m[i]).0 == k {
                let i = choose|i: int| 0 <= i < m.len() && (#[trigger] m[i]).0 == k;
                assert(i < m.len() - 1);
                assert(m.drop_last()[i].0 == k);
            }
        }
    }
}

/// The values of a key are part of the union of any key set holding it.
pub proof fn lemma_vals_of_in_union(m: Seq<(u8, Seq<u8>)>, ks: Set<u8>, k: u8)
    requires
        ks.contains(k),
    ensures
        vals_of(m, k) <= union_vals(m, ks),
    decreases m.len(),
{
    if m.len() > 0 {
        lemma_vals_of_in_union(m.drop_last(), ks, k);
    }
}

/// With distinct keys, adding key `k` to the key set adds exactly `k`'s
/// values to the union.
pub proof fn lemma_union_vals_insert(m: Seq<(u8, Seq<u8>)>, ks: Set<u8>, k: u8)
    requires
        key_seq(m).no_duplicates(),
        !ks.contains(k),
    ensures
        union_vals(m, ks.insert(k)) =~= union_vals(m, ks) + vals_of(m, k),
    decreases m.len(),
{
    if m.len() > 0 {
        let prefix = m.drop_last();
        assert(key_seq(prefix) =~= key_seq(m).drop_last());
        lemma_union_vals_insert(prefix, ks, k);
        if m.last().0 == k {
            // k is the last key; by distinctness it is not a key of the prefix,
            // so the prefix union is unchanged by inserting it.
            assert(!has_key(prefix, k)) by {
                lemma_has_key_index(prefix, k);
                if exists|i: int| 0 <= i < prefix.len() && (#[trigger] prefix[i]).0 == k {
                    let i = choose|i: int| 0 <= i < prefix.len() && (#[trigger] prefix[i]).0 == k;
                    assert(key_seq(m)[i] == k);
                    assert(key_seq(m)[m.len() - 1] == k);
                }
            }
            lemma_vals_of_no_key(prefix, k);
            assert(vals_of(prefix, k) =~= Set::<u8>::empty());
        }
    }
}

/// With distinct keys, the union holds exactly the values some key of `ks`
/// maps to.
pub proof fn lemma_union_vals_characterized(m: Seq<(u8, Seq<u8>)>, ks: Set<u8>)
    requires
        key_seq(m).no_duplicates(),
    ensures
        forall|v: u8|
            union_vals(m, ks).contains(v) <==> exists|k: u8|
                ks.contains(k) && #[trigger] vals_of(m, k).contains(v),
{
    assert forall|v: u8|
        union_vals(m, ks).contains(v) <==> exists|k: u8|
            ks.contains(k) && #[trigger] vals_of(m, k).contains(v) by {
        if union_vals(m, ks).contains(v) {
            lemma_union_vals_member(m, ks, v);
        }
        if exists|k: u8| ks.contains(k) && #[trigger] vals_of(m, k).contains(v) {
            let k = choose|k: u8| ks.contains(k) && #[trigger] vals_of(m, k).contains(v);
            lemma_vals_of_in_union(m, ks, k);
        }
    }
}

/// A missing key maps to no values.
pub proof fn lemma_vals_of_no_key(m: Seq<(u8, Seq<u8>)>, k: u8)
    requires
        !has_key(m, k),
    ensures
        vals_of(m, k) =~= Set::<u8>::empty(),
    decreases m.len(),
{
    if m.len() > 0 {
        lemma_vals_of_no_key(m.drop_last(), k);
    }
}

/// The union never reaches outside the mapped values of the keys in `ks`.
pub proof fn lemma_union_vals_member(m: Seq<(u8, Seq<u8>)>, ks: Set<u8>, v: u8)
    requires
        key_seq(m).no_duplicates(),
        union_vals(m, ks).contains(v),
    ensures
        exists|k: u8| ks.contains(k) && vals_of(m, k).contains(v),
    decreases m.len(),
{
    if m.len() > 0 {
        let prefix = m.drop_last();
        assert(key_seq(prefix) =~= key_seq(m).drop_last());
        if ks.contains(m.last().0) && m.last().1.to_set().contains(v) {
            let k0 = m.last().0;
            if m.last().0 == k0 {
                assert(vals_of(m, k0) == m.last().1.to_set());
            }
        } else {
            lemma_union_vals_member(prefix, ks, v);
            let k0 = choose|k: u8| ks.contains(k) && vals_of(prefix, k).contains(v);
            if m.last().0 != k0 {
                assert(vals_of(m, k0) == vals_of(prefix, k0));
            } else {
                // vals_of(prefix, k0) is inhabited, so k0 is a key of the
                // prefix, contradicting key distinctness.
                assert(has_key(prefix, k0)) by {
                    if !has_key(prefix, k0) {
                        lemma_vals_of_no_key(prefix, k0);
                    }
                }
                lemma_has_key_index(prefix, k0);
                let i = choose|i: int| 0 <= i < prefix.len() && (#[trigger] prefix[i]).0 == k0;
                assert(key_seq(m)[i] == k0);
                assert(key_seq(m)[m.len() - 1] == k0);
                assert(false);
            }
        }
    }
}

/// With distinct keys, the values of the key at entry `i` are exactly that
/// entry's values.
pub proof fn lemma_vals_at_index(m: Seq<(u8, Seq<u8>)>, i: int)
    requires
        key_seq(m).no_duplicates(),
        0 <= i < m.len(),
    ensures
        vals_of(m, m[i].0) == m[i].1.to_set(),
    decreases m.len(),
{
    if i == m.len() - 1 {
        assert(m.last() == m[i]);
    } else {
        let prefix = m.drop_last();
        assert(key_seq(prefix) =~= key_seq(m).drop_last());
        lemma_vals_at_index(prefix, i);
        assert(key_seq(m)[i] == m[i].0);
        assert(key_seq(m)[m.len() - 1] == m.last().0);
        assert(m.last().0 != m[i].0);
        assert(prefix[i] == m[i]);
    }
}

/// Replacing entry `i` by one with the same key rewrites that key's values
/// and leaves every other key alone.
pub proof fn lemma_vals_update(m: Seq<(u8, Seq<u8>)>, i: int, e: (u8, Seq<u8>))
    requires
        key_seq(m).no_duplicates(),
        0 <= i < m.len(),
        m[i].0 == e.0,
    ensures
        vals_of(m.update(i, e), e.0) == e.1.to_set(),
        forall|k2: u8| k2 != e.0 ==> vals_of(m.update(i, e), k2) == vals_of(m, k2),
        forall|k2: u8| has_key(m.update(i, e), k2) <==> has_key(m, k2),
    decreases m.len(),
{
    let m2 = m.update(i, e);
    if i == m.len() - 1 {
        assert(m2.last() == e);
        assert(m2.drop_last() =~= m.drop_last());
        assert forall|k2: u8| k2 != e.0 implies vals_of(m2, k2) == vals_of(m, k2) by {
            assert(vals_of(m2, k2) == vals_of(m2.drop_last(), k2));
            assert(vals_of(m, k2) == vals_of(m.drop_last(), k2));
        }
    } else {
        let prefix = m.drop_last();
        assert(key_seq(prefix) =~= key_seq(m).drop_last());
        assert(prefix[i].0 == e.0);
        lemma_vals_update(prefix, i, e);
        assert(m2.last() == m.last());
        assert(m2.drop_last() =~= prefix.update(i, e));
        // the last key differs from e.0 by key distinctness
        assert(key_seq(m)[i] == e.0);
        assert(key_seq(m)[m.len() - 1] == m.last().0);
        assert(m.last().0 != e.0);
        assert(vals_of(m2, e.0) == vals_of(prefix.update(i, e), e.0));
        assert forall|k2: u8| k2 != e.0 implies vals_of(m2, k2) == vals_of(m, k2) by {
            if m.last().0 == k2 {
            } else {
                assert(vals_of(m2, k2) == vals_of(prefix.update(i, e), k2));
                assert(vals_of(m, k2) == vals_of(prefix, k2));
            }
        }
        assert forall|k2: u8| has_key(m2, k2) <==> has_key(m, k2) by {
            assert(m2.drop_last() == prefix.update(i, e));
            assert(has_key(m2, k2) == (m2.last().0 == k2 || has_key(prefix.update(i, e), k2)));
            assert(has_key(m, k2) == (m.last().0 == k2 || has_key(prefix, k2)));
        }
    }
}

/// Appending an entry with a fresh key adds that key with exactly its listed
/// values and leaves every other key alone.
pub proof fn lemma_vals_push(m: Seq<(u8, Seq<u8>)>, e: (u8, Seq<u8>))
    ensures
        vals_of(m.push(e), e.0) == e.1.to_set(),
        forall|k2: u8| k2 != e.0 ==> vals_of(m.push(e), k2) == vals_of(m, k2),
        forall|k2: u8| has_key(m.push(e), k2) <==> (has_key(m, k2) || k2 == e.0),
{
    let m2 = m.push(e);
    assert(m2.last() == e);
    assert(m2.drop_last() =~= m);
}

/// How the naked and hidden strategies feed the search: a mutable multimap
/// from keys to sets of values, both single bytes.
pub struct Subsets {
    entries: Vec<(u8, Vec<u8>)>,
}

impl View for Subsets {
    type V = Seq<(u8, Seq<u8>)>;

    closed spec fn view(&self) -> Seq<(u8, Seq<u8>)> {
        self.entries@.map_values(|e: (u8, Vec<u8>)| (e.0, e.1@))
    }
}

impl Subsets {
    /// A well-formed multimap, as `insert` keeps it.
    pub open spec fn wf(&self) -> bool {
        multimap_wf(self@)
    }

    pub fn new() -> (r: Self)
        ensures
            r.wf(),
            r@.len() == 0,
    {
        Subsets { entries: Vec::new() }
    }

    /// Add `v` to the values of `k`, creating the key if it is new.
    pub fn insert(&mut self, k: u8, v: u8)
        requires
            old(self).wf(),
        ensures
            final(self).wf(),
            vals_of(final(self)@, k) =~= vals_of(old(self)@, k).insert(v),
            forall|k2: u8| k2 != k ==> vals_of(final(self)@, k2) == vals_of(old(self)@, k2),
            forall|k2: u8| has_key(final(self)@, k2) <==> (has_key(old(self)@, k2) || k2 == k),
    {
        let ghost m0 = self@;
        let n = self.entries.len();
        let mut i: usize = 0;
        while i < n
            invariant
                self.entries@ == old(self).entries@,
                self@ == m0,
                old(self).wf(),
                n == self.entries@.len(),
                i <= n,
                forall|j: int| 0 <= j < i ==> (#[trigger] self.entries@[j]).0 != k,
            decreases n - i,
        {
            if self.entries[i].0 == k {
                let mut pair = self.entries.remove(i);
                let ghost inner0 = pair.1@;
                if !contains_u8(&pair.1, v) {
                    pair.1.push(v);
                    proof {
                        assert forall|x: u8| #[trigger]
                            pair.1@.to_set().contains(x) implies inner0.to_set().insert(v).contains(
                            x,
                        ) by {
                            let jj = choose|jj: int|
                                0 <= jj < pair.1@.len() && pair.1@[jj] == x;
                            if jj < inner0.len() {
                                assert(inner0[jj] == x);
                            }
                        }
                        assert forall|x: u8| inner0.to_set().insert(v).contains(x) implies
                            #[trigger] pair.1@.to_set().contains(x) by {
                            if inner0.to_set().contains(x) {
                                let jj = choose|jj: int|
                                    0 <= jj < inner0.len() && inner0[jj] == x;
                                assert(pair.1@[jj] == x);
                            } else {
                                assert(pair.1@[pair.1@.len() - 1] == v);
                            }
                        }
                        assert(pair.1@.to_set() =~= inner0.to_set().insert(v));
                    }
                } else {
                    proof {
                        assert(inner0.to_set().contains(v));
                        assert(pair.1@.to_set() =~= inner0.to_set().insert(v));
                    }
                }
                proof {
                    assert(m0[i as int] == (old(self).entries@[i as int].0,
                        old(self).entries@[i as int].1@));
                }
                self.entries.insert(i, pair);
                proof {
                    assert(self.entries@ =~= old(self).entries@.update(i as int, pair));
                    assert(self@ =~= m0.update(i as int, (pair.0, pair.1@)));
                    lemma_vals_update(m0, i as int, (pair.0, pair.1@));
                    lemma_vals_at_index(m0, i as int);
                    assert(m0[i as int].0 == k);
                    assert(vals_of(m0, k) == inner0.to_set());
                    assert(key_seq(self@) =~= key_seq(m0));
                    assert(vals_of(self@, k) == pair.1@.to_set());
                    assert(vals_of(self@, k) =~= vals_of(m0, k).insert(v));
                    lemma_has_key_index(m0, k);
                    assert(has_key(m0, k));
                }
                return ;
            }
            i = i + 1;
        }
        // k is a fresh key
        let inner: Vec<u8> = vec![v];
        let pair = (k, inner);
        self.entries.push(pair);
        proof {
            assert(self@ =~= m0.push((k, pair.1@)));
            lemma_vals_push(m0, (k, pair.1@));
            assert(pair.1@.to_set() =~= Set::<u8>::empty().insert(v));
            assert(!has_key(m0, k)) by {
                lemma_has_key_index(m0, k);
                if exists|j: int| 0 <= j < m0.len() && (#[trigger] m0[j]).0 == k {
                    let j = choose|j: int| 0 <= j < m0.len() && (#[trigger] m0[j]).0 == k;
                    assert(old(self).entries@[j].0 == k);
                }
            }
            lemma_vals_of_no_key(m0, k);
            assert(vals_of(self@, k) =~= vals_of(m0, k).insert(v));
            // key distinctness is kept: the new key was absent
            assert(key_seq(self@) =~= key_seq(m0).push(k));
            assert forall|j: int| 0 <= j < key_seq(m0).len() implies key_seq(m0)[j] != k by {
                assert(old(self).entries@[j].0 != k);
            }
            assert(key_seq(self@).no_duplicates());
        }
    }
}

/// Whether `v` holds `x`.
pub fn contains_u8(v: &Vec<u8>, x: u8) -> (r: bool)
    ensures
        r == v@.contains(x),
{
    let mut j: usize = 0;
    while j < v.len()
        invariant
            j <= v@.len(),
            forall|t: int| 0 <= t < j ==> v@[t] != x,
        decreases v@.len() - j,
    {
        if v[j] == x {
            return true;
        }
        j = j + 1;
    }
    proof {
        if v@.contains(x) {
            let t = choose|t: int| 0 <= t < v@.len() && v@[t] == x;
        }
    }
    false
}


/// A candidate completion for the search: `S` extends `path` using only keys
/// listed at entries `start` onward, has exactly `order` keys, and its mapped
/// values union to exactly `order` values.
pub open spec fn extends_path(
    m: Seq<(u8, Seq<u8>)>,
    path: Set<u8>,
    start: int,
    order: nat,
    s: Set<u8>,
) -> bool {
    &&& path <= s
    &&& forall|k: u8|
        s.contains(k) && !path.contains(k) ==> exists|i: int|
            start <= i < m.len() && (#[trigger] m[i]).0 == k
    &&& s.finite()
    &&& s.len() == order
    &&& union_vals(m, s).len() == order
}

/// Whether some reported pair has exactly the key set `s`.
pub open spec fn found_in(r: Seq<(Vec<u8>, Vec<u8>)>, s: Set<u8>) -> bool {
    exists|j: int| 0 <= j < r.len() && (#[trigger] r[j]).0@.to_set() == s
}

/// Every reported pair is a critical set extending `path`, with its union.
pub open spec fn sound_results(
    m: Seq<(u8, Seq<u8>)>,
    path: Set<u8>,
    order: nat,
    r: Seq<(Vec<u8>, Vec<u8>)>,
) -> bool {
    forall|j: int|
        0 <= j < r.len() ==> {
            let ks = (#[trigger] r[j]).0@;
            let vs = r[j].1@;
            &&& ks.no_duplicates()
            &&& ks.len() == order
            &&& path <= ks.to_set()
            &&& (forall|k: u8| ks.to_set().contains(k) ==> has_key(m, k))
            &&& vs.no_duplicates()
            &&& vs.len() == order
            &&& vs.to_set() == union_vals(m, ks.to_set())
            &&& is_critical(m, ks.to_set(), order)
        }
}

/// Pushing onto a sequence inserts into its set of members.
pub proof fn lemma_to_set_push(s: Seq<u8>, x: u8)
    ensures
        s.push(x).to_set() =~= s.to_set().insert(x),
{
    assert forall|y: u8| #[trigger] s.push(x).to_set().contains(y) implies s.to_set().insert(
        x,
    ).contains(y) by {
        let j = choose|j: int| 0 <= j < s.push(x).len() && s.push(x)[j] == y;
        if j < s.len() {
            assert(s[j] == y);
        }
    }
    assert forall|y: u8| s.to_set().insert(x).contains(y) implies #[trigger] s.push(
        x,
    ).to_set().contains(y) by {
        if s.to_set().contains(y) {
            let j = choose|j: int| 0 <= j < s.len() && s[j] == y;
            assert(s.push(x)[j] == y);
        } else {
            assert(s.push(x)[s.len() as int] == x);
        }
    }
}

/// An element-for-element copy.
fn copy_u8_vec(v: &Vec<u8>) -> (r: Vec<u8>)
    ensures
        r@ == v@,
{
    let mut r: Vec<u8> = Vec::new();
    let mut i: usize = 0;
    while i < v.len()
        invariant
            i <= v@.len(),
            r@ =~= v@.subrange(0, i as int),
        decreases v@.len() - i,
    {
        r.push(v[i]);
        proof {
            assert(r@ =~= v@.subrange(0, i + 1));
        }
        i = i + 1;
    }
    proof {
        assert(v@.subrange(0, v@.len() as int) =~= v@);
    }
    r
}

/// The members of `a`, followed by the members of `b` not already present.
fn union_vec(a: &Vec<u8>, b: &Vec<u8>) -> (r: Vec<u8>)
    requires
        a@.no_duplicates(),
    ensures
        r@.no_duplicates(),
        r@.to_set() =~= a@.to_set() + b@.to_set(),
{
    let mut r = copy_u8_vec(a);
    let mut i: usize = 0;
    while i < b.len()
        invariant
            i <= b@.len(),
            r@.no_duplicates(),
            r@.to_set() =~= a@.to_set() + b@.subrange(0, i as int).to_set(),
        decreases b@.len() - i,
    {
        let x = b[i];
        proof {
            assert(b@.subrange(0, i + 1) =~= b@.subrange(0, i as int).push(b@[i as int]));
            lemma_to_set_push(b@.subrange(0, i as int), x);
        }
        if !contains_u8(&r, x) {
            proof {
                lemma_to_set_push(r@, x);
            }
            r.push(x);
        } else {
            proof {
                assert(r@.to_set().contains(x));
            }
        }
        proof {
            assert(r@.to_set() =~= a@.to_set() + b@.subrange(0, i + 1).to_set());
        }
        i = i + 1;
    }
    proof {
        assert(b@.subrange(0, b@.len() as int) =~= b@);
    }
    r
}

impl Subsets {
    /// Depth-first search for every critical set of size `order` whose keys
    /// extend `path_ks` using entries `start` onward. `path_vs` carries the
    /// running union of the path's values; a branch is pruned as soon as that
    /// union exceeds `order` members.
    fn rec_find(
        &self,
        order: usize,
        start: usize,
        path_ks: &Vec<u8>,
        path_vs: &Vec<u8>,
    ) -> (r: Vec<(Vec<u8>, Vec<u8>)>)
        requires
            self.wf(),
            start <= self@.len(),
            path_ks@.no_duplicates(),
            path_vs@.no_duplicates(),
            path_ks@.len() <= order,
            forall|k: u8|
                path_ks@.to_set().contains(k) ==> exists|i: int|
                    0 <= i < start && (#[trigger] self@[i]).0 == k,
            path_vs@.to_set() == union_vals(self@, path_ks@.to_set()),
        ensures
            sound_results(self@, path_ks@.to_set(), order as nat, r@),
            forall|s: Set<u8>|
                extends_path(self@, path_ks@.to_set(), start as int, order as nat, s) ==> found_in(
                    r@,
                    s,
                ),
        decreases self@.len() - start,
    {
        let ghost m = self@;
        let ghost path = path_ks@.to_set();
        proof {
            path_ks@.unique_seq_to_set();
            path_vs@.unique_seq_to_set();
            vstd::seq_lib::seq_to_set_is_finite::<u8>(path_ks@);
            vstd::seq_lib::seq_to_set_is_finite::<u8>(path_vs@);
            lemma_union_vals_finite(m, path);
        }
        if path_ks.len() == order {
            if path_vs.len() == order {
                let pair = (copy_u8_vec(path_ks), copy_u8_vec(path_vs));
                let mut out: Vec<(Vec<u8>, Vec<u8>)> = Vec::new();
                out.push(pair);
                proof {
                    assert forall|k: u8| path.contains(k) implies has_key(m, k) by {
                        lemma_has_key_index(m, k);
                    }
                    assert(is_critical(m, path, order as nat));
                    assert(sound_results(m, path, order as nat, out@));
                    assert forall|s: Set<u8>|
                        extends_path(m, path, start as int, order as nat, s) implies found_in(
                        out@,
                        s,
                    ) by {
                        lemma_subset_equality(path, s);
                        assert(out@[0].0@.to_set() == s);
                    }
                }
                out
            } else {
                let out: Vec<(Vec<u8>, Vec<u8>)> = Vec::new();
                proof {
                    assert forall|s: Set<u8>|
                        extends_path(m, path, start as int, order as nat, s) implies found_in(
                        out@,
                        s,
                    ) by {
                        lemma_subset_equality(path, s);
                        assert(union_vals(m, s).len() == path_vs@.len());
                    }
                }
                out
            }
        } else {
            let mut out: Vec<(Vec<u8>, Vec<u8>)> = Vec::new();
            let mut i: usize = start;
            let n = self.entries.len();
            while i < n
                invariant
                    self.wf(),
                    m == self@,
                    path == path_ks@.to_set(),
                    n == m.len(),
                    start <= i <= n,
                    path_ks@.no_duplicates(),
                    path_vs@.no_duplicates(),
                    path_ks@.len() < order,
                    path.finite(),
                    path.len() == path_ks@.len(),
                    path_vs@.to_set().finite(),
                    path_vs@.to_set().len() == path_vs@.len(),
                    forall|k: u8|
                        path.contains(k) ==> exists|ii: int|
                            0 <= ii < start && (#[trigger] m[ii]).0 == k,
                    path_vs@.to_set() == union_vals(m, path),
                    sound_results(m, path, order as nat, out@),
                    forall|s: Set<u8>|
                        extends_path(m, path, start as int, order as nat, s) && (exists|jj: int|
                            start <= jj < i && s.contains((#[trigger] m[jj]).0) && !path.contains(
                                m[jj].0,
                            )) ==> found_in(out@, s),
                decreases n - i,
            {
                let key = self.entries[i].0;
                proof {
                    assert(m[i as int] == (self.entries@[i as int].0, self.entries@[i as int].1@));
                }
                let new_vs = union_vec(path_vs, &self.entries[i].1);
                proof {
                    lemma_vals_at_index(m, i as int);
                    assert(vals_of(m, key) == self.entries@[i as int].1@.to_set());
                    // key is fresh: its index i is at or past start, while all
                    // path keys sit before start
                    assert(!path.contains(key)) by {
                        if path.contains(key) {
                            let ii = choose|ii: int| 0 <= ii < start && (#[trigger] m[ii]).0 == key;
                            assert(key_seq(m)[ii] == key);
                            assert(key_seq(m)[i as int] == key);
                        }
                    }
                    lemma_union_vals_insert(m, path, key);
                    assert(new_vs@.to_set() =~= union_vals(m, path.insert(key)));
                    new_vs@.unique_seq_to_set();
                    vstd::seq_lib::seq_to_set_is_finite::<u8>(new_vs@);
                }
                if new_vs.len() <= order {
                    let mut new_ks = copy_u8_vec(path_ks);
                    new_ks.push(key);
                    proof {
                        lemma_to_set_push(path_ks@, key);
                        assert(new_ks@.to_set() =~= path.insert(key));
                        assert forall|k: u8|
                            new_ks@.to_set().contains(k) implies exists|ii: int|
                            0 <= ii < i + 1 && (#[trigger] m[ii]).0 == k by {
                            if path.contains(k) {
                                let ii = choose|ii: int|
                                    0 <= ii < start && (#[trigger] m[ii]).0 == k;
                                assert(m[ii].0 == k);
                            } else {
                                assert(k == key);
                                assert(m[i as int].0 == key);
                            }
                        }
                        assert(!path_ks@.contains(key));
                        assert(new_ks@.no_duplicates());
                    }
                    let mut sub = self.rec_find(order, i + 1, &new_ks, &new_vs);
                    let ghost out_pre = out@;
                    let ghost sub_view = sub@;
                    out.append(&mut sub);
                    proof {
                        assert(out@ == out_pre + sub_view);
                        // previously reported pairs keep their indices
                        assert forall|j: int| 0 <= j < out_pre.len() implies out@[j]
                            == out_pre[j] by {}
                        // sub's pairs extend the longer path, hence this one
                        assert(sound_results(m, path.insert(key), order as nat, sub_view));
                        assert forall|j: int| 0 <= j < out@.len() implies {
                            let ks = (#[trigger] out@[j]).0@;
                            let vs = out@[j].1@;
                            &&& ks.no_duplicates()
                            &&& ks.len() == order
                            &&& path <= ks.to_set()
                            &&& (forall|k: u8| ks.to_set().contains(k) ==> has_key(m, k))
                            &&& vs.no_duplicates()
                            &&& vs.len() == order
                            &&& vs.to_set() == union_vals(m, ks.to_set())
                            &&& is_critical(m, ks.to_set(), order as nat)
                        } by {
                            if j < out_pre.len() {
                                assert(out@[j] == out_pre[j]);
                            } else {
                                assert(out@[j] == sub_view[j - out_pre.len()]);
                            }
                        }
                        // completeness: a completion using an extra key at an
                        // index before i + 1 is either one seen before, or one
                        // whose first extra key is exactly entry i and which the
                        // recursive call therefore reported
                        assert forall|s: Set<u8>|
                            extends_path(m, path, start as int, order as nat, s) && (exists|jj: int|
                                start <= jj < i + 1 && s.contains((#[trigger] m[jj]).0)
                                    && !path.contains(m[jj].0)) implies found_in(out@, s) by {
                            if exists|jj: int|
                                start <= jj < i && s.contains((#[trigger] m[jj]).0)
                                    && !path.contains(m[jj].0) {
                                assert(found_in(out_pre, s));
                                let j = choose|j: int|
                                    0 <= j < out_pre.len() && (#[trigger] out_pre[j]).0@.to_set()
                                        == s;
                                assert(out@[j] == out_pre[j]);
                            } else {
                                // the extra key at an index in [start, i + 1)
                                // must be entry i itself
                                let jj = choose|jj: int|
                                    start <= jj < i + 1 && s.contains((#[trigger] m[jj]).0)
                                        && !path.contains(m[jj].0);
                                assert(jj == i);
                                assert(s.contains(key));
                                // s extends the longer path using entries past i
                                assert(extends_path(
                                    m,
                                    path.insert(key),
                                    i + 1,
                                    order as nat,
                                    s,
                                )) by {
                                    assert forall|k: u8|
                                        s.contains(k) && !path.insert(key).contains(k)
                                            implies exists|ii: int|
                                        i + 1 <= ii < m.len() && (#[trigger] m[ii]).0 == k by {
                                        let ii = choose|ii: int|
                                            start <= ii < m.len() && (#[trigger] m[ii]).0 == k;
                                        assert(ii != i) by {
                                            if ii == i {
                                                assert(k == key);
                                            }
                                        }
                                        assert(!(start <= ii < i)) by {
                                            if start <= ii < i {
                                                assert(s.contains(m[ii].0) && !path.contains(
                                                    m[ii].0,
                                                ));
                                            }
                                        }
                                        assert(i + 1 <= ii < m.len() && m[ii].0 == k);
                                    }
                                }
                                assert(found_in(sub_view, s));
                                let j = choose|j: int|
                                    0 <= j < sub_view.len() && (#[trigger] sub_view[j]).0@.to_set()
                                        == s;
                                assert(out@[out_pre.len() + j] == sub_view[j]);
                                assert(found_in(out@, s));
                            }
                        }
                    }
                } else {
                    proof {
                        // pruned: no completion holds entry i's key, since the
                        // union already exceeds order
                        assert forall|s: Set<u8>|
                            extends_path(m, path, start as int, order as nat, s) && (exists|jj: int|
                                start <= jj < i + 1 && s.contains((#[trigger] m[jj]).0)
                                    && !path.contains(m[jj].0)) implies found_in(out@, s) by {
                            if exists|jj: int|
                                start <= jj < i && s.contains((#[trigger] m[jj]).0)
                                    && !path.contains(m[jj].0) {
                            } else {
                                let jj = choose|jj: int|
                                    start <= jj < i + 1 && s.contains((#[trigger] m[jj]).0)
                                        && !path.contains(m[jj].0);
                                assert(jj == i);
                                assert(s.contains(key));
                                // the pruned union sits inside the completion's
                                // union, yet is already larger than order
                                lemma_union_vals_monotone(m, path.insert(key), s);
                                lemma_union_vals_finite(m, s);
                                lemma_len_subset(union_vals(m, path.insert(key)), union_vals(m, s));
                                assert(false);
                            }
                        }
                    }
                }
                i = i + 1;
            }
            proof {
                // every completion has an extra key, whose entry lies in
                // [start, n): the loop has therefore reported it
                assert forall|s: Set<u8>|
                    extends_path(m, path, start as int, order as nat, s) implies found_in(
                    out@,
                    s,
                ) by {
                    lemma_len_subset(path, s);
                    if path =~= s {
                        assert(s.len() == path_ks@.len());
                    } else {
                        assert(exists|k: u8| s.contains(k) && !path.contains(k)) by {
                            if forall|k: u8| s.contains(k) ==> #[trigger] path.contains(k) {
                                lemma_subset_equality(path, s);
                            }
                        }
                        let k = choose|k: u8| s.contains(k) && !path.contains(k);
                        let jj = choose|jj: int|
                            start <= jj < m.len() && (#[trigger] m[jj]).0 == k;
                        assert(s.contains(m[jj].0) && !path.contains(m[jj].0));
                    }
                }
            }
            out
        }
    }

    /// Every subset of exactly `order` keys whose mapped values union to
    /// exactly `order` values, each with that union: no critical set is
    /// missed, and nothing else is reported.
    pub fn find_critical_sets(&self, order: usize) -> (r: Vec<(Vec<u8>, Vec<u8>)>)
        requires
            self.wf(),
        ensures
            sound_results(self@, Set::empty(), order as nat, r@),
            forall|s: Set<u8>|
                is_critical(self@, s, order as nat) ==> found_in(r@, s),
    {
        let empty_ks: Vec<u8> = Vec::new();
        let empty_vs: Vec<u8> = Vec::new();
        proof {
            lemma_union_vals_empty(self@);
            assert(empty_ks@.to_set() =~= Set::<u8>::empty());
            assert(empty_vs@.to_set() =~= union_vals(self@, empty_ks@.to_set()));
        }
        let r = self.rec_find(order, 0, &empty_ks, &empty_vs);
        proof {
            assert forall|s: Set<u8>|
                is_critical(self@, s, order as nat) implies found_in(r@, s) by {
                assert forall|k: u8| s.contains(k) && !Set::<u8>::empty().contains(k)
                    implies exists|i: int| 0 <= i < self@.len() && (#[trigger] self@[i]).0 == k by {
                    lemma_has_key_index(self@, k);
                }
                assert(extends_path(self@, empty_ks@.to_set(), 0, order as nat, s));
            }
        }
        r
    }
}

/// The order of a hidden or naked strategy: how many keys a critical set
/// holds.
pub struct Order(pub usize);

impl Order {
    /// The conventional name of the order: single, pair, triple or quad.
    pub fn label(&self) -> (r: &'static str) {
        if self.0 == 1 {
            "Single"
        } else if self.0 == 2 {
            "Pair"
        } else if self.0 == 3 {
            "Triple"
        } else if self.0 == 4 {
            "Quad"
        } else {
            "Set"
        }
    }
}


} // verus!
