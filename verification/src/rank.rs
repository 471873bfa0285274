//! Ranking: a stable sort by an order of the items' own.
use vstd::prelude::*;

verus! {

/// Items with an order in which they rank. Two items may rank alike without being equal.
pub trait Ranks: Sized {
    /// Whether one item ranks before another.
    spec fn ahead(self, other: Self) -> bool;

    /// An item does not rank both before and after another.
    proof fn law_one_way(a: Self, b: Self)
        ensures
            a.ahead(b) ==> !b.ahead(a),
    ;

    /// What does not rank before is transitive.
    proof fn law_transitive(a: Self, b: Self, c: Self)
        ensures
            !b.ahead(a) && !c.ahead(b) ==> !c.ahead(a),
    ;

    /// Whether this item ranks before another.
    fn ranks_before(&self, other: &Self) -> (r: bool)
        ensures
            r == (*self).ahead(*other),
    ;
}

/// A ranking with one more item in its place, after those that rank alike.
pub open spec fn insert_ranked<T: Ranks>(s: Seq<T>, x: T) -> Seq<T>
    decreases s.len(),
{
    if s.len() == 0 || !x.ahead(s.last()) {
        s.push(x)
    } else {
        insert_ranked(s.drop_last(), x).push(s.last())
    }
}

/// Items by rank; those that rank alike keep their order.
pub open spec fn ranked<T: Ranks>(v: Seq<T>) -> Seq<T>
    decreases v.len(),
{
    if v.len() == 0 {
        Seq::empty()
    } else {
        insert_ranked(ranked(v.drop_last()), v.last())
    }
}

/// Whether no item ranks before one that stands earlier.
pub open spec fn in_rank_order<T: Ranks>(v: Seq<T>) -> bool {
    forall|i: int, j: int| 0 <= i < j < v.len() ==> !(#[trigger] v[j]).ahead(#[trigger] v[i])
}

fn place<T: Ranks + Copy>(v: &mut Vec<T>, x: T)
    ensures
        final(v)@ == insert_ranked(old(v)@, x),
{
    let ghost s = v@;
    let mut i: usize = v.len();
    proof {
        assert(s.take(s.len() as int) =~= s);
        assert(insert_ranked(s, x) + s.skip(s.len() as int) =~= insert_ranked(s, x));
    }
    while i > 0 && x.ranks_before(&v[i - 1])
        invariant
            i <= v.len(),
            v@ == s,
            insert_ranked(s, x) == insert_ranked(s.take(i as int), x) + s.skip(i as int),
        decreases i,
    {
        proof {
            let t = s.take(i as int);
            assert(t.last() == s[i - 1]);
            assert(t.drop_last() =~= s.take(i - 1));
            assert(insert_ranked(t, x) == insert_ranked(s.take(i - 1), x).push(s[i - 1]));
            assert(insert_ranked(s.take(i - 1), x).push(s[i - 1]) + s.skip(i as int)
                =~= insert_ranked(s.take(i - 1), x) + s.skip(i - 1));
        }
        i -= 1;
    }
    proof {
        let t = s.take(i as int);
        if i > 0 {
            assert(t.last() == s[i - 1]);
        }
        assert(insert_ranked(t, x) == t.push(x));
        assert(s.insert(i as int, x) =~= t.push(x) + s.skip(i as int));
    }
    v.insert(i, x);
}

/// Sort items by rank.
pub fn rank<T: Ranks + Copy>(v: &Vec<T>) -> (r: Vec<T>)
    ensures
        r@ == ranked(v@),
{
    let mut out: Vec<T> = Vec::new();
    let mut i: usize = 0;
    assert(v@.take(0) =~= Seq::<T>::empty());
    while i < v.len()
        invariant
            i <= v.len(),
            out@ == ranked(v@.take(i as int)),
        decreases v.len() - i,
    {
        proof {
            let t = v@.take(i + 1);
            assert(t.drop_last() =~= v@.take(i as int));
            assert(t.last() == v@[i as int]);
        }
        place(&mut out, v[i]);
        i += 1;
    }
    assert(v@.take(i as int) =~= v@);
    out
}

proof fn lemma_insert_ranked<T: Ranks>(s: Seq<T>, x: T)
    ensures
        insert_ranked(s, x).to_multiset() == s.to_multiset().insert(x),
        insert_ranked(s, x).len() == s.len() + 1,
    decreases s.len(),
{
    broadcast use vstd::seq_lib::group_to_multiset_ensures;

    if s.len() > 0 && x.ahead(s.last()) {
        let init = s.drop_last();
        lemma_insert_ranked(init, x);
        assert(s =~= init.push(s.last()));
        assert(insert_ranked(s, x).to_multiset() =~= s.to_multiset().insert(x));
    }
}

proof fn lemma_insert_keeps_order<T: Ranks>(s: Seq<T>, x: T)
    requires
        in_rank_order(s),
    ensures
        in_rank_order(insert_ranked(s, x)),
    decreases s.len(),
{
    broadcast use vstd::seq_lib::group_to_multiset_ensures;

    let r = insert_ranked(s, x);
    if s.len() == 0 || !x.ahead(s.last()) {
        assert forall|i: int, j: int| 0 <= i < j < r.len() implies !(#[trigger] r[j]).ahead(
            #[trigger] r[i],
        ) by {
            if j == s.len() && i < s.len() - 1 {
                assert(!s[s.len() - 1].ahead(s[i]));
                T::law_transitive(s[i], s[s.len() - 1], x);
            }
        }
    } else {
        let init = s.drop_last();
        assert(in_rank_order(init));
        lemma_insert_keeps_order(init, x);
        lemma_insert_ranked(init, x);
        let q = insert_ranked(init, x);
        assert forall|i: int, j: int| 0 <= i < j < r.len() implies !(#[trigger] r[j]).ahead(
            #[trigger] r[i],
        ) by {
            if j < q.len() {
                assert(!q[j].ahead(q[i]));
            } else {
                assert(q.to_multiset().contains(q[i]));
                if q[i] == x {
                    T::law_one_way(x, s.last());
                } else {
                    assert(init.to_multiset().contains(q[i]));
                    let y = choose|y: int| 0 <= y < init.len() && init[y] == q[i];
                    assert(!s[s.len() - 1].ahead(s[y]));
                }
            }
        }
    }
}

/// Ranking orders and loses nothing: the same items as often, none before one that ranks ahead of
/// it.
pub proof fn law_ranking<T: Ranks>(v: Seq<T>)
    ensures
        ranked(v).to_multiset() == v.to_multiset(),
        ranked(v).len() == v.len(),
        in_rank_order(ranked(v)),
    decreases v.len(),
{
    broadcast use vstd::seq_lib::group_to_multiset_ensures;

    if v.len() > 0 {
        let init = v.drop_last();
        law_ranking(init);
        lemma_insert_ranked(ranked(init), v.last());
        lemma_insert_keeps_order(ranked(init), v.last());
        assert(v =~= init.push(v.last()));
    }
}

/// The items that rank as `x` does, neither before it nor after it.
pub open spec fn alike<T: Ranks>(x: T) -> spec_fn(T) -> bool {
    |z: T| !x.ahead(z) && !z.ahead(x)
}

proof fn lemma_filter_push<T>(s: Seq<T>, y: T, keep: spec_fn(T) -> bool)
    ensures
        s.push(y).filter(keep) == if keep(y) {
            s.filter(keep).push(y)
        } else {
            s.filter(keep)
        },
{
    reveal(Seq::filter);
    assert(s.push(y).drop_last() =~= s);
}

proof fn lemma_insert_keeps_alike<T: Ranks>(s: Seq<T>, y: T, x: T)
    ensures
        insert_ranked(s, y).filter(alike(x)) == s.push(y).filter(alike(x)),
    decreases s.len(),
{
    if s.len() > 0 && y.ahead(s.last()) {
        let init = s.drop_last();
        let last = s.last();
        lemma_insert_keeps_alike(init, y, x);
        lemma_filter_push(insert_ranked(init, y), last, alike(x));
        lemma_filter_push(init, y, alike(x));
        lemma_filter_push(init, last, alike(x));
        lemma_filter_push(s, y, alike(x));
        assert(s =~= init.push(last));
        T::law_transitive(last, x, y);
    }
}

/// Items that rank alike keep the order that they came in: those that rank as `x` does are the same
/// sequence before and after.
pub proof fn law_alike_keep_their_order<T: Ranks>(v: Seq<T>, x: T)
    ensures
        ranked(v).filter(alike(x)) == v.filter(alike(x)),
    decreases v.len(),
{
    if v.len() > 0 {
        let init = v.drop_last();
        law_alike_keep_their_order(init, x);
        lemma_insert_keeps_alike(ranked(init), v.last(), x);
        lemma_filter_push(ranked(init), v.last(), alike(x));
        lemma_filter_push(init, v.last(), alike(x));
        assert(v =~= init.push(v.last()));
    }
}

/// Where items that rank alike are equal, a ranking depends on the items alone, not on the order
/// that they came in.
pub proof fn law_ranking_is_unique<T: Ranks>(a: Seq<T>, b: Seq<T>)
    requires
        a.to_multiset() == b.to_multiset(),
        forall|x: T, y: T| !#[trigger] x.ahead(y) && !y.ahead(x) ==> x == y,
    ensures
        ranked(a) == ranked(b),
{
    let leq = |x: T, y: T| !y.ahead(x);
    law_ranking(a);
    law_ranking(b);
    assert(vstd::relations::total_ordering(leq)) by {
        assert forall|x: T| #[trigger] leq(x, x) by {
            T::law_one_way(x, x);
        }
        assert forall|x: T, y: T| #[trigger] leq(x, y) && #[trigger] leq(y, x) implies x == y by {
            assert(!x.ahead(y) && !y.ahead(x));
        }
        assert forall|x: T, y: T, z: T| #[trigger] leq(x, y) && #[trigger] leq(y, z) implies leq(
            x,
            z,
        ) by {
            T::law_transitive(x, y, z);
        }
        assert forall|x: T, y: T| #[trigger] leq(x, y) || leq(y, x) by {
            T::law_one_way(x, y);
        }
    }
    assert(vstd::relations::sorted_by(ranked(a), leq));
    assert(vstd::relations::sorted_by(ranked(b), leq));
    vstd::seq_lib::lemma_sorted_unique(ranked(a), ranked(b), leq);
}

/// What holds of every item holds of every item of a ranking.
pub proof fn lemma_ranked_from<T: Ranks>(v: Seq<T>, x: T)
    requires
        ranked(v).contains(x),
    ensures
        v.contains(x),
{
    broadcast use vstd::seq_lib::group_to_multiset_ensures;

    law_ranking(v);
    assert(ranked(v).to_multiset().contains(x));
}

/// Scored nodes: the higher score first, then the smaller id.
impl Ranks for (u64, u32) {
    open spec fn ahead(self, other: Self) -> bool {
        self.1 > other.1 || (self.1 == other.1 && self.0 < other.0)
    }

    proof fn law_one_way(a: Self, b: Self) {
    }

    proof fn law_transitive(a: Self, b: Self, c: Self) {
    }

    fn ranks_before(&self, other: &Self) -> (r: bool) {
        self.1 > other.1 || (self.1 == other.1 && self.0 < other.0)
    }
}

/// Nodes at a distance: the nearer first, then the smaller id.
impl Ranks for (u32, u64) {
    open spec fn ahead(self, other: Self) -> bool {
        self.0 < other.0 || (self.0 == other.0 && self.1 < other.1)
    }

    proof fn law_one_way(a: Self, b: Self) {
    }

    proof fn law_transitive(a: Self, b: Self, c: Self) {
    }

    fn ranks_before(&self, other: &Self) -> (r: bool) {
        self.0 < other.0 || (self.0 == other.0 && self.1 < other.1)
    }
}

/// Positions at a distance: the nearer first.
impl Ranks for (u32, usize) {
    open spec fn ahead(self, other: Self) -> bool {
        self.0 < other.0
    }

    proof fn law_one_way(a: Self, b: Self) {
    }

    proof fn law_transitive(a: Self, b: Self, c: Self) {
    }

    fn ranks_before(&self, other: &Self) -> (r: bool) {
        self.0 < other.0
    }
}

} // verus!
