//! Ordered maps and sets kept as vectors in strictly ascending key order.
//!
//! The model of an [`OrdMap`] is a finite `Map` over the models of its keys and values, that of an
//! [`OrdSet`] a `Set`. [`sorted_rows`] gives back, from the model alone, the order in which the
//! entries are walked, so that contracts can speak of iteration order as well.
use crate::order::{Dup, Key};
use vstd::prelude::*;

verus! {

/// Rows whose keys are strictly ascending.
pub open spec fn ascending<K: Key, T>(s: Seq<(<K as DeepView>::V, T)>) -> bool {
    forall|i: int, j: int| 0 <= i < j < s.len() ==> K::before((#[trigger] s[i]).0, (#[trigger] s[j]).0)
}

/// Whether some row has key `k`.
pub open spec fn has_row<KV, T>(s: Seq<(KV, T)>, k: KV) -> bool {
    exists|i: int| 0 <= i < s.len() && (#[trigger] s[i]).0 == k
}

/// The index of a row with key `k`.
pub open spec fn row_of<KV, T>(s: Seq<(KV, T)>, k: KV) -> int {
    choose|i: int| 0 <= i < s.len() && (#[trigger] s[i]).0 == k
}

/// The map that a sequence of rows stands for.
pub open spec fn rows_map<KV, T>(s: Seq<(KV, T)>) -> Map<KV, T> {
    Map::new(|k: KV| has_row(s, k), |k: KV| s[row_of(s, k)].1)
}

/// The rows of a finite map in ascending key order.
pub open spec fn sorted_rows<K: Key, T>(m: Map<<K as DeepView>::V, T>) -> Seq<
    (<K as DeepView>::V, T),
> {
    choose|s: Seq<(<K as DeepView>::V, T)>| ascending::<K, T>(s) && rows_map(s) == m
}

/// What the map says of the row at `i`.
pub proof fn lemma_row<K: Key, T>(s: Seq<(<K as DeepView>::V, T)>, i: int)
    requires
        ascending::<K, T>(s),
        0 <= i < s.len(),
    ensures
        rows_map(s).contains_key(s[i].0),
        rows_map(s)[s[i].0] == s[i].1,
        row_of(s, s[i].0) == i,
{
    let k = s[i].0;
    assert(has_row(s, k));
    let j = row_of(s, k);
    assert(0 <= j < s.len() && s[j].0 == k);
    K::before_irreflexive(k);
    if j < i {
        assert(K::before(s[j].0, s[i].0));
    } else if i < j {
        assert(K::before(s[i].0, s[j].0));
    }
}

/// Every key of the map has a row.
pub proof fn lemma_key_row<K: Key, T>(s: Seq<(<K as DeepView>::V, T)>, k: <K as DeepView>::V)
    requires
        ascending::<K, T>(s),
        rows_map(s).contains_key(k),
    ensures
        0 <= row_of(s, k) < s.len(),
        s[row_of(s, k)].0 == k,
        s[row_of(s, k)].1 == rows_map(s)[k],
{
    assert(has_row(s, k));
}

proof fn lemma_rows_prefix<K: Key, T>(
    s: Seq<(<K as DeepView>::V, T)>,
    t: Seq<(<K as DeepView>::V, T)>,
    n: int,
)
    requires
        ascending::<K, T>(s),
        ascending::<K, T>(t),
        rows_map(s) == rows_map(t),
        0 <= n <= s.len(),
    ensures
        n <= t.len(),
        forall|i: int| 0 <= i < n ==> s[i] == t[i],
    decreases n,
{
    if n > 0 {
        lemma_rows_prefix::<K, T>(s, t, n - 1);
        let k = s[n - 1].0;
        lemma_row::<K, T>(s, n - 1);
        lemma_key_row::<K, T>(t, k);
        let j = row_of(t, k);
        if j < n - 1 {
            assert(s[j] == t[j]);
            assert(K::before(s[j].0, s[n - 1].0));
            K::before_irreflexive(k);
        } else if j > n - 1 {
            // t[n - 1] precedes k, so it must be an earlier row of s, hence of t: a repetition.
            let k2 = t[n - 1].0;
            lemma_row::<K, T>(t, n - 1);
            lemma_key_row::<K, T>(s, k2);
            let j2 = row_of(s, k2);
            assert(K::before(k2, k));
            if j2 < n - 1 {
                assert(s[j2] == t[j2]);
                assert(K::before(t[j2].0, t[n - 1].0));
                K::before_irreflexive(k2);
            } else {
                if j2 > n - 1 {
                    assert(K::before(k, k2));
                    K::before_transitive(k, k2, k);
                }
                K::before_irreflexive(k);
            }
        }
    }
}

/// A map has only one ascending sequence of rows.
pub proof fn lemma_rows_unique<K: Key, T>(
    s: Seq<(<K as DeepView>::V, T)>,
    t: Seq<(<K as DeepView>::V, T)>,
)
    requires
        ascending::<K, T>(s),
        ascending::<K, T>(t),
        rows_map(s) == rows_map(t),
    ensures
        s == t,
{
    lemma_rows_prefix::<K, T>(s, t, s.len() as int);
    lemma_rows_prefix::<K, T>(t, s, t.len() as int);
    assert(s =~= t);
}

/// Ascending rows are the sorted rows of their own map.
pub proof fn lemma_sorted_rows<K: Key, T>(s: Seq<(<K as DeepView>::V, T)>)
    requires
        ascending::<K, T>(s),
    ensures
        sorted_rows::<K, T>(rows_map(s)) == s,
{
    let m = rows_map(s);
    let t = sorted_rows::<K, T>(m);
    assert(ascending::<K, T>(t) && rows_map(t) == m);
    lemma_rows_unique::<K, T>(s, t);
}

/// A map has as many keys as it has ascending rows.
proof fn lemma_rows_count<K: Key, T>(s: Seq<(<K as DeepView>::V, T)>)
    requires
        ascending::<K, T>(s),
    ensures
        rows_map(s).dom().finite(),
        rows_map(s).dom().len() == s.len(),
{
    let keys = Seq::new(s.len(), |i: int| s[i].0);
    assert(keys.no_duplicates()) by {
        assert forall|i: int, j: int|
            0 <= i < keys.len() && 0 <= j < keys.len() && i != j implies keys[i] != keys[j] by {
            K::before_irreflexive(keys[i]);
            if i < j {
                assert(K::before(s[i].0, s[j].0));
            } else {
                assert(K::before(s[j].0, s[i].0));
            }
        }
    }
    assert forall|k: <K as DeepView>::V| #[trigger] rows_map(s).dom().contains(k)
        == keys.to_set().contains(k) by {
        if rows_map(s).contains_key(k) {
            lemma_key_row::<K, T>(s, k);
            assert(keys[row_of(s, k)] == k);
        }
        if keys.contains(k) {
            let i = choose|i: int| 0 <= i < keys.len() && keys[i] == k;
            lemma_row::<K, T>(s, i);
        }
    }
    assert(rows_map(s).dom() =~= keys.to_set());
    keys.unique_seq_to_set();
}

/// Replacing the value of a row is an insertion.
proof fn lemma_row_update<K: Key, T>(s: Seq<(<K as DeepView>::V, T)>, i: int, v: T)
    requires
        ascending::<K, T>(s),
        0 <= i < s.len(),
    ensures
        ascending::<K, T>(s.update(i, (s[i].0, v))),
        rows_map(s.update(i, (s[i].0, v))) == rows_map(s).insert(s[i].0, v),
{
    let t = s.update(i, (s[i].0, v));
    assert(ascending::<K, T>(t)) by {
        assert forall|a: int, b: int| 0 <= a < b < t.len() implies K::before(
            (#[trigger] t[a]).0,
            (#[trigger] t[b]).0,
        ) by {
            assert(K::before(s[a].0, s[b].0));
        }
    }
    let lhs = rows_map(t);
    let rhs = rows_map(s).insert(s[i].0, v);
    assert forall|k: <K as DeepView>::V|
        #![trigger lhs.dom().contains(k)]
        #![trigger rhs.dom().contains(k)]
        lhs.dom().contains(k) == rhs.dom().contains(k) && (lhs.dom().contains(k) ==> lhs[k]
            == rhs[k]) by {
        if lhs.contains_key(k) {
            lemma_key_row::<K, T>(t, k);
            let j = row_of(t, k);
            lemma_row::<K, T>(s, j);
            if k == s[i].0 {
                lemma_row::<K, T>(t, i);
            } else {
                assert(j != i);
            }
        }
        if rhs.contains_key(k) {
            if k == s[i].0 {
                lemma_row::<K, T>(t, i);
            } else {
                lemma_key_row::<K, T>(s, k);
                lemma_row::<K, T>(t, row_of(s, k));
            }
        }
    }
    assert(lhs =~= rhs);
}

/// Putting a new row in its place is an insertion.
proof fn lemma_row_insert<K: Key, T>(
    s: Seq<(<K as DeepView>::V, T)>,
    i: int,
    k: <K as DeepView>::V,
    v: T,
)
    requires
        ascending::<K, T>(s),
        0 <= i <= s.len(),
        forall|j: int| 0 <= j < i ==> K::before((#[trigger] s[j]).0, k),
        forall|j: int| i <= j < s.len() ==> K::before(k, (#[trigger] s[j]).0),
    ensures
        ascending::<K, T>(s.insert(i, (k, v))),
        !rows_map(s).contains_key(k),
        rows_map(s.insert(i, (k, v))) == rows_map(s).insert(k, v),
{
    let t = s.insert(i, (k, v));
    assert(forall|j: int| 0 <= j < i ==> t[j] == s[j]);
    assert(forall|j: int| i < j < t.len() ==> t[j] == s[j - 1]);
    assert(t[i] == (k, v));
    assert(ascending::<K, T>(t)) by {
        assert forall|a: int, b: int| 0 <= a < b < t.len() implies K::before(
            (#[trigger] t[a]).0,
            (#[trigger] t[b]).0,
        ) by {
            let a1 = if a < i { a } else { a - 1 };
            let b1 = if b < i { b } else { b - 1 };
            if a != i && b != i {
                assert(K::before(s[a1].0, s[b1].0));
            } else if a == i {
                assert(K::before(k, s[b1].0));
            } else {
                assert(K::before(s[a1].0, k));
            }
        }
    }
    K::before_irreflexive(k);
    if rows_map(s).contains_key(k) {
        lemma_key_row::<K, T>(s, k);
    }
    let lhs = rows_map(t);
    let rhs = rows_map(s).insert(k, v);
    assert forall|q: <K as DeepView>::V|
        #![trigger lhs.dom().contains(q)]
        #![trigger rhs.dom().contains(q)]
        lhs.dom().contains(q) == rhs.dom().contains(q) && (lhs.dom().contains(q) ==> lhs[q]
            == rhs[q]) by {
        if lhs.contains_key(q) {
            lemma_key_row::<K, T>(t, q);
            let j = row_of(t, q);
            if j < i {
                lemma_row::<K, T>(s, j);
            } else if j > i {
                lemma_row::<K, T>(s, j - 1);
            }
        }
        if q == k {
            lemma_row::<K, T>(t, i);
        } else if rhs.contains_key(q) {
            lemma_key_row::<K, T>(s, q);
            let j = row_of(s, q);
            lemma_row::<K, T>(t, if j < i { j } else { j + 1 });
        }
    }
    assert(lhs =~= rhs);
}

/// Taking a row out is a removal.
proof fn lemma_row_remove<K: Key, T>(s: Seq<(<K as DeepView>::V, T)>, i: int)
    requires
        ascending::<K, T>(s),
        0 <= i < s.len(),
    ensures
        ascending::<K, T>(s.remove(i)),
        rows_map(s.remove(i)) == rows_map(s).remove(s[i].0),
{
    let t = s.remove(i);
    let k = s[i].0;
    assert(forall|j: int| 0 <= j < i ==> t[j] == s[j]);
    assert(forall|j: int| i <= j < t.len() ==> t[j] == s[j + 1]);
    assert(ascending::<K, T>(t)) by {
        assert forall|a: int, b: int| 0 <= a < b < t.len() implies K::before(
            (#[trigger] t[a]).0,
            (#[trigger] t[b]).0,
        ) by {
            let a1 = if a < i { a } else { a + 1 };
            let b1 = if b < i { b } else { b + 1 };
            assert(K::before(s[a1].0, s[b1].0));
        }
    }
    let lhs = rows_map(t);
    let rhs = rows_map(s).remove(k);
    assert forall|q: <K as DeepView>::V|
        #![trigger lhs.dom().contains(q)]
        #![trigger rhs.dom().contains(q)]
        lhs.dom().contains(q) == rhs.dom().contains(q) && (lhs.dom().contains(q) ==> lhs[q]
            == rhs[q]) by {
        if lhs.contains_key(q) {
            lemma_key_row::<K, T>(t, q);
            let j = row_of(t, q);
            let j1 = if j < i { j } else { j + 1 };
            lemma_row::<K, T>(s, j1);
            lemma_row::<K, T>(s, i);
        }
        if rhs.contains_key(q) {
            lemma_key_row::<K, T>(s, q);
            let j = row_of(s, q);
            assert(j != i);
            lemma_row::<K, T>(t, if j < i { j } else { j - 1 });
        }
    }
    assert(lhs =~= rhs);
}

/// Where a row with key `k` would stand.
spec fn slot<K: Key, T>(s: Seq<(<K as DeepView>::V, T)>, k: <K as DeepView>::V) -> int
    decreases s.len(),
{
    if s.len() == 0 {
        0
    } else if K::before(s.last().0, k) {
        s.len() as int
    } else {
        slot::<K, T>(s.drop_last(), k)
    }
}

proof fn lemma_slot<K: Key, T>(s: Seq<(<K as DeepView>::V, T)>, k: <K as DeepView>::V)
    requires
        ascending::<K, T>(s),
        !has_row(s, k),
    ensures
        0 <= slot::<K, T>(s, k) <= s.len(),
        forall|j: int| 0 <= j < slot::<K, T>(s, k) ==> K::before((#[trigger] s[j]).0, k),
        forall|j: int| slot::<K, T>(s, k) <= j < s.len() ==> K::before(k, (#[trigger] s[j]).0),
    decreases s.len(),
{
    if s.len() > 0 {
        let z = s.len() - 1;
        if K::before(s.last().0, k) {
            assert forall|j: int| 0 <= j < s.len() implies K::before((#[trigger] s[j]).0, k) by {
                if j < z {
                    assert(K::before(s[j].0, s[z].0));
                    K::before_transitive(s[j].0, s[z].0, k);
                }
            }
        } else {
            let init = s.drop_last();
            assert forall|i: int, j: int| 0 <= i < j < init.len() implies K::before(
                (#[trigger] init[i]).0,
                (#[trigger] init[j]).0,
            ) by {
                assert(K::before(s[i].0, s[j].0));
            }
            assert(!has_row(init, k)) by {
                if has_row(init, k) {
                    assert(s[row_of(init, k)].0 == k);
                }
            }
            lemma_slot::<K, T>(init, k);
            K::before_total(s[z].0, k);
            assert(s[z].0 != k);
            let p = slot::<K, T>(s, k);
            assert forall|j: int| 0 <= j < p implies K::before((#[trigger] s[j]).0, k) by {
                assert(init[j] == s[j]);
            }
            assert forall|j: int| p <= j < s.len() implies K::before(k, (#[trigger] s[j]).0) by {
                if j < z {
                    assert(init[j] == s[j]);
                }
            }
        }
    }
}

/// A finite map has ascending rows.
pub proof fn lemma_finite_rows<K: Key, T>(m: Map<<K as DeepView>::V, T>)
    requires
        m.dom().finite(),
    ensures
        ascending::<K, T>(sorted_rows::<K, T>(m)),
        rows_map(sorted_rows::<K, T>(m)) == m,
    decreases m.dom().len(),
{
    if m.dom().len() == 0 {
        let s = Seq::<(<K as DeepView>::V, T)>::empty();
        assert(rows_map(s) =~= m);
        lemma_sorted_rows::<K, T>(s);
    } else {
        let k = m.dom().choose();
        let rest = m.remove(k);
        assert(rest.dom() =~= m.dom().remove(k));
        lemma_finite_rows::<K, T>(rest);
        let s = sorted_rows::<K, T>(rest);
        assert(!rest.contains_key(k));
        assert(!has_row(s, k)) by {
            if has_row(s, k) {
                assert(rows_map(s).contains_key(k));
            }
        }
        lemma_slot::<K, T>(s, k);
        let i = slot::<K, T>(s, k);
        lemma_row_insert::<K, T>(s, i, k, m[k]);
        assert(rest.insert(k, m[k]) =~= m);
        lemma_sorted_rows::<K, T>(s.insert(i, (k, m[k])));
    }
}

/// A map from keys to values, walked in ascending key order.
#[derive(Debug, PartialEq, Eq)]
pub struct OrdMap<K: Key, V: DeepView> {
    entries: Vec<(K, V)>,
}

impl<K: Key, V: DeepView> View for OrdMap<K, V> {
    type V = Map<<K as DeepView>::V, <V as DeepView>::V>;

    open spec fn view(&self) -> Map<<K as DeepView>::V, <V as DeepView>::V> {
        rows_map(self.rows())
    }
}

impl<K: Key, V: DeepView> DeepView for OrdMap<K, V> {
    type V = Map<<K as DeepView>::V, <V as DeepView>::V>;

    open spec fn deep_view(&self) -> Map<<K as DeepView>::V, <V as DeepView>::V> {
        self@
    }
}

impl<K: Key, V: DeepView> OrdMap<K, V> {
    /// The entries' models, in the order in which they are held.
    pub closed spec fn rows(&self) -> Seq<(<K as DeepView>::V, <V as DeepView>::V)> {
        self.entries.deep_view()
    }

    #[verifier::type_invariant]
    pub closed spec fn in_order(&self) -> bool {
        ascending::<K, <V as DeepView>::V>(self.rows())
    }

    /// The empty map.
    pub fn new() -> (r: Self)
        ensures
            r@ == Map::<<K as DeepView>::V, <V as DeepView>::V>::empty(),
            r.rows().len() == 0,
    {
        let r = OrdMap { entries: Vec::new() };
        assert(r@ =~= Map::<<K as DeepView>::V, <V as DeepView>::V>::empty());
        r
    }

    /// The number of entries. The entries are the sorted rows of the model.
    pub fn len(&self) -> (n: usize)
        ensures
            n == self.rows().len(),
            n == self@.dom().len(),
            self@.dom().finite(),
            ascending::<K, <V as DeepView>::V>(self.rows()),
            self.rows() == sorted_rows::<K, <V as DeepView>::V>(self@),
    {
        proof {
            use_type_invariant(&*self);
            lemma_sorted_rows::<K, <V as DeepView>::V>(self.rows());
            lemma_rows_count::<K, <V as DeepView>::V>(self.rows());
        }
        self.entries.len()
    }

    /// Whether there is no entry.
    pub fn is_empty(&self) -> (r: bool)
        ensures
            r == (self@ == Map::<<K as DeepView>::V, <V as DeepView>::V>::empty()),
            r == (self.rows().len() == 0),
    {
        proof {
            use_type_invariant(&*self);
            if self.rows().len() == 0 {
                assert(self@ =~= Map::<<K as DeepView>::V, <V as DeepView>::V>::empty());
            } else {
                lemma_row::<K, <V as DeepView>::V>(self.rows(), 0);
            }
        }
        self.entries.len() == 0
    }

    /// The key of the `i`-th entry.
    pub fn key_at(&self, i: usize) -> (k: &K)
        requires
            i < self.rows().len(),
        ensures
            k.deep_view() == self.rows()[i as int].0,
            self@.contains_key(k.deep_view()),
    {
        proof {
            use_type_invariant(&*self);
            lemma_row::<K, <V as DeepView>::V>(self.rows(), i as int);
        }
        &self.entries[i].0
    }

    /// The value of the `i`-th entry.
    pub fn value_at(&self, i: usize) -> (v: &V)
        requires
            i < self.rows().len(),
        ensures
            v.deep_view() == self.rows()[i as int].1,
            self@.contains_key(self.rows()[i as int].0),
            v.deep_view() == self@[self.rows()[i as int].0],
    {
        proof {
            use_type_invariant(&*self);
            lemma_row::<K, <V as DeepView>::V>(self.rows(), i as int);
        }
        &self.entries[i].1
    }

    /// The first index whose key does not precede `k`.
    pub fn lower_bound(&self, k: &K) -> (r: usize)
        ensures
            r <= self.rows().len(),
            forall|j: int| 0 <= j < r ==> K::before((#[trigger] self.rows()[j]).0, k.deep_view()),
            forall|j: int|
                r <= j < self.rows().len() ==> !K::before(
                    (#[trigger] self.rows()[j]).0,
                    k.deep_view(),
                ),
    {
        proof {
            use_type_invariant(&*self);
        }
        let mut lo: usize = 0;
        let mut hi: usize = self.entries.len();
        while lo < hi
            invariant
                lo <= hi <= self.entries.len(),
                self.in_order(),
                forall|j: int|
                    0 <= j < lo ==> K::before((#[trigger] self.rows()[j]).0, k.deep_view()),
                forall|j: int|
                    hi <= j < self.entries.len() ==> !K::before(
                        (#[trigger] self.rows()[j]).0,
                        k.deep_view(),
                    ),
            decreases hi - lo,
        {
            let mid: usize = lo + (hi - lo) / 2;
            let ghost s = self.rows();
            assert(s[mid as int].0 == self.entries@[mid as int].0.deep_view());
            if self.entries[mid].0.precedes(k) {
                proof {
                    assert forall|j: int| 0 <= j < mid + 1 implies K::before(
                        (#[trigger] s[j]).0,
                        k.deep_view(),
                    ) by {
                        if j < mid {
                            assert(K::before(s[j].0, s[mid as int].0));
                            K::before_transitive(s[j].0, s[mid as int].0, k.deep_view());
                        }
                    }
                }
                lo = mid + 1;
            } else {
                proof {
                    assert forall|j: int| mid <= j < s.len() implies !K::before(
                        (#[trigger] s[j]).0,
                        k.deep_view(),
                    ) by {
                        if j > mid && K::before(s[j].0, k.deep_view()) {
                            assert(K::before(s[mid as int].0, s[j].0));
                            K::before_transitive(s[mid as int].0, s[j].0, k.deep_view());
                        }
                    }
                }
                hi = mid;
            }
        }
        lo
    }

    /// The index of `k`'s entry, if it has one; else the index where it would stand.
    fn locate(&self, k: &K) -> (r: (bool, usize))
        ensures
            r.1 <= self.entries.len(),
            r.0 == self@.contains_key(k.deep_view()),
            r.0 ==> r.1 < self.entries.len() && self.rows()[r.1 as int] == (
                k.deep_view(),
                self@[k.deep_view()],
            ),
            !r.0 ==> (forall|j: int|
                0 <= j < r.1 ==> K::before((#[trigger] self.rows()[j]).0, k.deep_view())),
            !r.0 ==> (forall|j: int|
                r.1 <= j < self.entries.len() ==> K::before(
                    k.deep_view(),
                    (#[trigger] self.rows()[j]).0,
                )),
    {
        proof {
            use_type_invariant(&*self);
        }
        let i: usize = self.lower_bound(k);
        let ghost s = self.rows();
        let ghost kv = k.deep_view();
        if i < self.entries.len() && self.entries[i].0.same(k) {
            proof {
                assert(s[i as int].0 == self.entries@[i as int].0.deep_view());
                lemma_row::<K, <V as DeepView>::V>(s, i as int);
            }
            (true, i)
        } else {
            proof {
                if i < self.entries.len() {
                    assert(s[i as int].0 == self.entries@[i as int].0.deep_view());
                }
                assert forall|j: int| i <= j < s.len() implies K::before(
                    kv,
                    (#[trigger] s[j]).0,
                ) by {
                    K::before_total(kv, s[i as int].0);
                    if j > i {
                        assert(K::before(s[i as int].0, s[j].0));
                        K::before_transitive(kv, s[i as int].0, s[j].0);
                    }
                }
                K::before_irreflexive(kv);
                if self@.contains_key(kv) {
                    lemma_key_row::<K, <V as DeepView>::V>(s, kv);
                }
            }
            (false, i)
        }
    }

    /// The value of `k`, if there is one.
    pub fn get(&self, k: &K) -> (r: Option<&V>)
        ensures
            r is Some == self@.contains_key(k.deep_view()),
            r matches Some(v) ==> v.deep_view() == self@[k.deep_view()],
    {
        let (found, i) = self.locate(k);
        if found {
            Some(&self.entries[i].1)
        } else {
            None
        }
    }

    /// Whether `k` has a value.
    pub fn contains_key(&self, k: &K) -> (r: bool)
        ensures
            r == self@.contains_key(k.deep_view()),
    {
        self.locate(k).0
    }

    /// Move the entries out.
    fn give_up(&mut self) -> (entries: Vec<(K, V)>)
        ensures
            entries == old(self).entries,
    {
        let mut entries: Vec<(K, V)> = Vec::new();
        std::mem::swap(&mut entries, &mut self.entries);
        entries
    }

    /// Give `k` the value `v`, in place of any value that it had.
    pub fn insert(&mut self, k: K, v: V)
        ensures
            final(self)@ == old(self)@.insert(k.deep_view(), v.deep_view()),
    {
        let (found, i) = self.locate(&k);
        proof {
            use_type_invariant(&*self);
        }
        let mut entries = self.give_up();
        if found {
            replace_row(&mut entries, i, k, v);
        } else {
            insert_row(&mut entries, i, k, v);
        }
        self.entries = entries;
    }

    /// Drop the entry of `k`, if there is one.
    pub fn remove(&mut self, k: &K)
        ensures
            final(self)@ == old(self)@.remove(k.deep_view()),
    {
        let _ = self.take(k);
    }

    /// Drop the entry of `k`, if there is one, and give back its value.
    pub fn take(&mut self, k: &K) -> (r: Option<V>)
        ensures
            final(self)@ == old(self)@.remove(k.deep_view()),
            r is Some == old(self)@.contains_key(k.deep_view()),
            r matches Some(v) ==> v.deep_view() == old(self)@[k.deep_view()],
    {
        let (found, i) = self.locate(k);
        proof {
            use_type_invariant(&*self);
        }
        if found {
            let mut entries = self.give_up();
            let v = remove_row(&mut entries, i);
            self.entries = entries;
            Some(v)
        } else {
            assert(self@ =~= self@.remove(k.deep_view()));
            None
        }
    }
}

fn replace_row<K: Key, V: DeepView>(entries: &mut Vec<(K, V)>, i: usize, k: K, v: V)
    requires
        ascending::<K, <V as DeepView>::V>(old(entries).deep_view()),
        i < old(entries).len(),
        old(entries).deep_view()[i as int].0 == k.deep_view(),
    ensures
        ascending::<K, <V as DeepView>::V>(final(entries).deep_view()),
        rows_map(final(entries).deep_view()) == rows_map(old(entries).deep_view()).insert(
            k.deep_view(),
            v.deep_view(),
        ),
{
    let ghost s = entries.deep_view();
    let ghost vv = v.deep_view();
    proof {
        lemma_row_update::<K, <V as DeepView>::V>(s, i as int, vv);
    }
    entries.set(i, (k, v));
    assert(entries.deep_view() =~= s.update(i as int, (s[i as int].0, vv)));
}

fn insert_row<K: Key, V: DeepView>(entries: &mut Vec<(K, V)>, i: usize, k: K, v: V)
    requires
        ascending::<K, <V as DeepView>::V>(old(entries).deep_view()),
        i <= old(entries).len(),
        forall|j: int|
            0 <= j < i ==> K::before(
                (#[trigger] old(entries).deep_view()[j]).0,
                k.deep_view(),
            ),
        forall|j: int|
            i <= j < old(entries).len() ==> K::before(
                k.deep_view(),
                (#[trigger] old(entries).deep_view()[j]).0,
            ),
    ensures
        ascending::<K, <V as DeepView>::V>(final(entries).deep_view()),
        rows_map(final(entries).deep_view()) == rows_map(old(entries).deep_view()).insert(
            k.deep_view(),
            v.deep_view(),
        ),
{
    let ghost s = entries.deep_view();
    let ghost kv = k.deep_view();
    let ghost vv = v.deep_view();
    proof {
        lemma_row_insert::<K, <V as DeepView>::V>(s, i as int, kv, vv);
    }
    entries.insert(i, (k, v));
    assert(entries.deep_view() =~= s.insert(i as int, (kv, vv)));
}

fn remove_row<K: Key, V: DeepView>(entries: &mut Vec<(K, V)>, i: usize) -> (r: V)
    requires
        ascending::<K, <V as DeepView>::V>(old(entries).deep_view()),
        i < old(entries).len(),
    ensures
        ascending::<K, <V as DeepView>::V>(final(entries).deep_view()),
        rows_map(final(entries).deep_view()) == rows_map(old(entries).deep_view()).remove(
            old(entries).deep_view()[i as int].0,
        ),
        r.deep_view() == old(entries).deep_view()[i as int].1,
{
    let ghost s = entries.deep_view();
    proof {
        lemma_row_remove::<K, <V as DeepView>::V>(s, i as int);
    }
    let e = entries.remove(i);
    assert(entries.deep_view() =~= s.remove(i as int));
    assert(e.deep_view() == s[i as int]);
    e.1
}

/// An ordered map has finitely many keys.
pub proof fn lemma_map_finite<K: Key, V: DeepView>(m: OrdMap<K, V>)
    ensures
        m@.dom().finite(),
{
    let rows = m.rows();
    let keys = Seq::new(rows.len(), |i: int| rows[i].0);
    assert forall|k: <K as DeepView>::V| #[trigger] m@.dom().contains(k) implies
        keys.to_set().contains(k) by {
        assert(has_row(rows, k));
        assert(keys[row_of(rows, k)] == k);
    }
    assert(m@.dom().subset_of(keys.to_set()));
    vstd::set_lib::lemma_len_subset(m@.dom(), keys.to_set());
}

impl<K: Key, V: Dup> Dup for OrdMap<K, V> {
    fn dup(&self) -> (r: Self) {
        proof {
            use_type_invariant(&*self);
        }
        let mut entries: Vec<(K, V)> = Vec::new();
        let mut i: usize = 0;
        while i < self.entries.len()
            invariant
                i <= self.entries.len(),
                entries.len() == i,
                forall|j: int|
                    0 <= j < i ==> (#[trigger] entries@[j]).deep_view()
                        == self.entries@[j].deep_view(),
            decreases self.entries.len() - i,
        {
            let e = &self.entries[i];
            let c = (e.0.dup(), e.1.dup());
            entries.push(c);
            i += 1;
        }
        assert(entries.deep_view() =~= self.entries.deep_view());
        OrdMap { entries }
    }
}

impl<K: Key, V: Dup> Clone for OrdMap<K, V> {
    fn clone(&self) -> (r: Self)
        ensures
            r@ == self@,
    {
        self.dup()
    }
}

/// One more item taken is one more item contained.
pub proof fn lemma_take_contains<T>(s: Seq<T>, i: int)
    requires
        0 <= i < s.len(),
    ensures
        forall|x: T| #[trigger]
            s.take(i + 1).contains(x) <==> s.take(i).contains(x) || x == s[i],
{
    let a = s.take(i);
    let b = s.take(i + 1);
    assert forall|x: T| #[trigger] b.contains(x) == (a.contains(x) || x == s[i]) by {
        if a.contains(x) {
            let j = choose|j: int| 0 <= j < a.len() && a[j] == x;
            assert(b[j] == x);
        }
        assert(b[i] == s[i]);
        if b.contains(x) && x != s[i] {
            let j = choose|j: int| 0 <= j < b.len() && b[j] == x;
            assert(a[j] == x);
        }
    }
}

/// The map from the members of a set to the unit value.
pub open spec fn unit_map<T>(s: Set<T>) -> Map<T, ()> {
    Map::new(|k: T| s.contains(k), |k: T| ())
}

/// The members of a finite set in ascending order.
pub open spec fn sorted_items<K: Key>(s: Set<<K as DeepView>::V>) -> Seq<<K as DeepView>::V> {
    let rows = sorted_rows::<K, ()>(unit_map(s));
    Seq::new(rows.len(), |i: int| rows[i].0)
}

/// The sorted members of a finite set are its members, each once, ascending.
pub proof fn lemma_sorted_items<K: Key>(s: Set<<K as DeepView>::V>)
    requires
        s.finite(),
    ensures
        sorted_items::<K>(s).to_set() == s,
        sorted_items::<K>(s).len() == s.len(),
        sorted_items::<K>(s).no_duplicates(),
        forall|i: int, j: int|
            0 <= i < j < sorted_items::<K>(s).len() ==> K::before(
                #[trigger] sorted_items::<K>(s)[i],
                #[trigger] sorted_items::<K>(s)[j],
            ),
{
    let m = unit_map(s);
    assert(m.dom() =~= s);
    lemma_finite_rows::<K, ()>(m);
    let rows = sorted_rows::<K, ()>(m);
    let items = sorted_items::<K>(s);
    assert forall|k: <K as DeepView>::V| #[trigger] s.contains(k) == items.to_set().contains(k) by {
        if s.contains(k) {
            lemma_key_row::<K, ()>(rows, k);
            assert(items[row_of(rows, k)] == k);
        }
        if items.contains(k) {
            let i = choose|i: int| 0 <= i < items.len() && items[i] == k;
            lemma_row::<K, ()>(rows, i);
        }
    }
    assert(items.to_set() =~= s);
    assert(items.no_duplicates()) by {
        assert forall|i: int, j: int|
            0 <= i < items.len() && 0 <= j < items.len() && i != j implies items[i]
            != items[j] by {
            K::before_irreflexive(items[i]);
            if i < j {
                assert(K::before(rows[i].0, rows[j].0));
            } else {
                assert(K::before(rows[j].0, rows[i].0));
            }
        }
    }
    items.unique_seq_to_set();
}

/// A set of keys, walked in ascending order.
#[derive(Debug, PartialEq, Eq)]
pub struct OrdSet<K: Key> {
    map: OrdMap<K, ()>,
}

impl<K: Key> View for OrdSet<K> {
    type V = Set<<K as DeepView>::V>;

    closed spec fn view(&self) -> Set<<K as DeepView>::V> {
        self.map@.dom()
    }
}

impl<K: Key> DeepView for OrdSet<K> {
    type V = Set<<K as DeepView>::V>;

    open spec fn deep_view(&self) -> Set<<K as DeepView>::V> {
        self@
    }
}

impl<K: Key> OrdSet<K> {
    /// The members' models, in the order in which they are held.
    pub closed spec fn items(&self) -> Seq<<K as DeepView>::V> {
        Seq::new(self.map.rows().len(), |i: int| self.map.rows()[i].0)
    }

    /// The empty set.
    pub fn new() -> (r: Self)
        ensures
            r@ == Set::<<K as DeepView>::V>::empty(),
            r.items().len() == 0,
    {
        let r = OrdSet { map: OrdMap::new() };
        assert(r@ =~= Set::<<K as DeepView>::V>::empty());
        r
    }

    /// The number of members. The members are held in sorted order, each once.
    pub fn len(&self) -> (n: usize)
        ensures
            n == self.items().len(),
            n == self@.len(),
            self@.finite(),
            self.items() == sorted_items::<K>(self@),
            forall|i: int, j: int|
                0 <= i < j < self.items().len() ==> K::before(
                    #[trigger] self.items()[i],
                    #[trigger] self.items()[j],
                ),
            forall|k: <K as DeepView>::V| #[trigger]
                self@.contains(k) <==> self.items().contains(k),
    {
        let n: usize = self.map.len();
        proof {
            let rows = self.map.rows();
            assert(self.map@ =~= unit_map(self@));
            assert forall|k: <K as DeepView>::V| #[trigger] self@.contains(k) implies
                self.items().contains(k) by {
                lemma_key_row::<K, ()>(rows, k);
                assert(self.items()[row_of(rows, k)] == k);
            }
            assert forall|k: <K as DeepView>::V| #[trigger] self.items().contains(k) implies
                self@.contains(k) by {
                let i = choose|i: int| 0 <= i < self.items().len() && self.items()[i] == k;
                lemma_row::<K, ()>(rows, i);
            }
            assert(self.items() =~= sorted_items::<K>(self@));
            assert(self@ =~= self.items().to_set());
            assert(self.items().no_duplicates()) by {
                assert forall|i: int, j: int|
                    0 <= i < self.items().len() && 0 <= j < self.items().len() && i
                        != j implies self.items()[i] != self.items()[j] by {
                    K::before_irreflexive(self.items()[i]);
                    if i < j {
                        assert(K::before(rows[i].0, rows[j].0));
                    } else {
                        assert(K::before(rows[j].0, rows[i].0));
                    }
                }
            }
            self.items().unique_seq_to_set();
        }
        n
    }

    /// Whether there is no member.
    pub fn is_empty(&self) -> (r: bool)
        ensures
            r == (self@ == Set::<<K as DeepView>::V>::empty()),
            r == (self.items().len() == 0),
    {
        let r = self.map.is_empty();
        proof {
            if r {
                assert(self@ =~= Set::<<K as DeepView>::V>::empty());
            } else if self@ == Set::<<K as DeepView>::V>::empty() {
                assert(self.map@ =~= Map::<<K as DeepView>::V, ()>::empty());
            }
        }
        r
    }

    /// The `i`-th member.
    pub fn at(&self, i: usize) -> (k: &K)
        requires
            i < self.items().len(),
        ensures
            k.deep_view() == self.items()[i as int],
            self@.contains(k.deep_view()),
    {
        self.map.key_at(i)
    }

    /// Whether `k` is a member.
    pub fn contains(&self, k: &K) -> (r: bool)
        ensures
            r == self@.contains(k.deep_view()),
    {
        self.map.contains_key(k)
    }

    /// Add `k`.
    pub fn insert(&mut self, k: K)
        ensures
            final(self)@ == old(self)@.insert(k.deep_view()),
    {
        self.map.insert(k, ());
        assert(self@ =~= old(self)@.insert(k.deep_view()));
    }

    /// Take `k` out.
    pub fn remove(&mut self, k: &K)
        ensures
            final(self)@ == old(self)@.remove(k.deep_view()),
    {
        self.map.remove(k);
        assert(self@ =~= old(self)@.remove(k.deep_view()));
    }

    /// The members in ascending order.
    pub fn to_vec(&self) -> (r: Vec<K>)
        ensures
            r.deep_view() == self.items(),
            self.items() == sorted_items::<K>(self@),
    {
        let n: usize = self.len();
        let mut out: Vec<K> = Vec::new();
        let mut i: usize = 0;
        while i < n
            invariant
                i <= n,
                n == self.items().len(),
                out.len() == i,
                forall|j: int| 0 <= j < i ==> (#[trigger] out@[j]).deep_view() == self.items()[j],
            decreases n - i,
        {
            let k = self.at(i).dup();
            out.push(k);
            i += 1;
        }
        assert(out.deep_view() =~= self.items());
        out
    }
}

impl<K: Key> Dup for OrdSet<K> {
    fn dup(&self) -> (r: Self) {
        OrdSet { map: self.map.dup() }
    }
}

impl<K: Key> Clone for OrdSet<K> {
    fn clone(&self) -> (r: Self)
        ensures
            r@ == self@,
    {
        self.dup()
    }
}

impl<K: Key, V: DeepView> Default for OrdMap<K, V> {
    fn default() -> (r: Self)
        ensures
            r@ == Map::<<K as DeepView>::V, <V as DeepView>::V>::empty(),
    {
        OrdMap::new()
    }
}

impl<K: Key> Default for OrdSet<K> {
    fn default() -> (r: Self)
        ensures
            r@ == Set::<<K as DeepView>::V>::empty(),
    {
        OrdSet::new()
    }
}

/// A map on its way from `m0` to `goal` when the keys of the rows `s` have been dealt with.
pub open spec fn partway<KV, T, W>(m0: Map<KV, W>, goal: Map<KV, W>, s: Seq<(KV, T)>) -> Map<
    KV,
    W,
> {
    Map::new(
        |k: KV|
            if has_row(s, k) {
                goal.contains_key(k)
            } else {
                m0.contains_key(k)
            },
        |k: KV|
            if has_row(s, k) {
                goal[k]
            } else {
                m0[k]
            },
    )
}

/// Nothing dealt with: the start.
pub proof fn lemma_partway_start<KV, T, W>(m0: Map<KV, W>, goal: Map<KV, W>, s: Seq<(KV, T)>)
    ensures
        partway(m0, goal, s.take(0)) == m0,
{
    assert(partway(m0, goal, s.take(0)) =~= m0);
}

/// Dealing with one more row.
pub proof fn lemma_partway_step<K: Key, T, W>(
    m0: Map<<K as DeepView>::V, W>,
    goal: Map<<K as DeepView>::V, W>,
    s: Seq<(<K as DeepView>::V, T)>,
    i: int,
)
    requires
        ascending::<K, T>(s),
        0 <= i < s.len(),
    ensures
        partway(m0, goal, s.take(i)).contains_key(s[i].0) == m0.contains_key(s[i].0),
        m0.contains_key(s[i].0) ==> partway(m0, goal, s.take(i))[s[i].0] == m0[s[i].0],
        goal.contains_key(s[i].0) ==> partway(m0, goal, s.take(i + 1)) == partway(
            m0,
            goal,
            s.take(i),
        ).insert(s[i].0, goal[s[i].0]),
        !goal.contains_key(s[i].0) ==> partway(m0, goal, s.take(i + 1)) == partway(
            m0,
            goal,
            s.take(i),
        ).remove(s[i].0),
{
    let k = s[i].0;
    let a = s.take(i);
    let b = s.take(i + 1);
    assert(!has_row(a, k)) by {
        if has_row(a, k) {
            let j = row_of(a, k);
            assert(a[j] == s[j]);
            assert(K::before(s[j].0, s[i].0));
            K::before_irreflexive(k);
        }
    }
    assert forall|q: <K as DeepView>::V| #[trigger] has_row(b, q) == (has_row(a, q) || q == k) by {
        if has_row(b, q) {
            let j = row_of(b, q);
            assert(b[j] == s[j]);
            if j < i {
                assert(a[j] == s[j]);
            }
        }
        if has_row(a, q) {
            let j = row_of(a, q);
            assert(b[j] == a[j]);
        }
        assert(b[i] == s[i]);
    }
    if goal.contains_key(k) {
        assert(partway(m0, goal, b) =~= partway(m0, goal, a).insert(k, goal[k]));
    } else {
        assert(partway(m0, goal, b) =~= partway(m0, goal, a).remove(k));
    }
}

/// Every row dealt with: the goal, where it differs from the start only at the rows' keys.
pub proof fn lemma_partway_end<KV, T, W>(m0: Map<KV, W>, goal: Map<KV, W>, s: Seq<(KV, T)>)
    requires
        forall|k: KV|
            !(#[trigger] has_row(s, k)) ==> (goal.contains_key(k) == m0.contains_key(k) && (
            goal.contains_key(k) ==> goal[k] == m0[k])),
    ensures
        partway(m0, goal, s.take(s.len() as int)) == goal,
{
    assert(s.take(s.len() as int) =~= s);
    assert forall|k: KV| #![trigger partway(m0, goal, s).dom().contains(k)]
        #![trigger goal.dom().contains(k)]
        partway(m0, goal, s).dom().contains(k) == goal.dom().contains(k) && (
        goal.dom().contains(k) ==> partway(m0, goal, s)[k] == goal[k]) by {
        assert(has_row(s, k) || !has_row(s, k));
    }
    assert(partway(m0, goal, s) =~= goal);
}

impl<K: Key, V: Dup> OrdMap<K, V> {
    /// Take over every entry of `other`, in place of any of the same key.
    pub fn extend_from(&mut self, other: &OrdMap<K, V>)
        ensures
            final(self)@ == old(self)@.union_prefer_right(other@),
    {
        let n: usize = other.len();
        let ghost m0 = self@;
        let ghost goal = m0.union_prefer_right(other@);
        let ghost rows = other.rows();
        let mut i: usize = 0;
        proof {
            lemma_partway_start(m0, goal, rows);
        }
        while i < n
            invariant
                i <= n,
                n == rows.len(),
                rows == other.rows(),
                ascending::<K, <V as DeepView>::V>(rows),
                goal == m0.union_prefer_right(other@),
                self@ == partway(m0, goal, rows.take(i as int)),
            decreases n - i,
        {
            proof {
                lemma_partway_step::<K, <V as DeepView>::V, <V as DeepView>::V>(
                    m0,
                    goal,
                    rows,
                    i as int,
                );
                lemma_row::<K, <V as DeepView>::V>(rows, i as int);
            }
            let k = other.key_at(i).dup();
            let v = other.value_at(i).dup();
            self.insert(k, v);
            i += 1;
        }
        proof {
            assert forall|k: <K as DeepView>::V|
                !(#[trigger] has_row(rows, k)) implies goal.contains_key(k) == m0.contains_key(k)
                && (goal.contains_key(k) ==> goal[k] == m0[k]) by {
                assert(!other@.contains_key(k));
            }
            lemma_partway_end(m0, goal, rows);
        }
    }
}

impl<K: Key> OrdSet<K> {
    /// Take over every member of `other`.
    pub fn extend_from(&mut self, other: &OrdSet<K>)
        ensures
            final(self)@ == old(self)@.union(other@),
    {
        self.map.extend_from(&other.map);
        assert(self@ =~= old(self)@.union(other@));
    }
}

} // verus!
