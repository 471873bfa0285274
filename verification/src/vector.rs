//! Received embeddings and exact nearest-neighbour search.
//!
//! An embedding is held as the IEEE 754 single-precision bits of its coordinates, and a distance as
//! the bits of a distance that is not negative, whose order is that of the integers. The distance
//! itself is the caller's to compute.
use crate::fact::NodeId;
use crate::order::Key;
use crate::ordmap::{
    ascending, lemma_key_row, lemma_row, lemma_sorted_items, row_of, sorted_items, OrdMap, OrdSet,
};
use vstd::prelude::*;

verus! {

/// A received embedding and the sequence number at which it became available.
struct Entry {
    seqno: u64,
    emb: Vec<u32>,
}

/// The model of an entry.
pub struct EntryModel {
    pub seqno: u64,
    pub emb: Seq<u32>,
}

impl DeepView for Entry {
    type V = EntryModel;

    closed spec fn deep_view(&self) -> EntryModel {
        EntryModel { seqno: self.seqno, emb: self.emb@ }
    }
}

/// The model of a [`VectorIndex`].
pub struct VectorModel {
    pub dim: nat,
    pub version: u64,
    /// Entries from before this sequence number are indexed.
    pub watermark: u64,
    pub entries: Map<NodeId, EntryModel>,
}

/// The embeddings of nodes, all of one dimension.
pub struct VectorIndex {
    dim: usize,
    version: u64,
    watermark: u64,
    embeddings: OrdMap<NodeId, Entry>,
}

impl View for VectorIndex {
    type V = VectorModel;

    closed spec fn view(&self) -> VectorModel {
        VectorModel {
            dim: self.dim as nat,
            version: self.version,
            watermark: self.watermark,
            entries: self.embeddings@,
        }
    }
}

/// The pairs of distance and node.
pub open spec fn scored_pairs(d: Map<NodeId, u32>) -> Set<(u32, NodeId)> {
    Set::new(|p: (u32, NodeId)| d.contains_key(p.1) && d[p.1] == p.0)
}

/// The first `k` of a sequence, or all where there are fewer.
pub open spec fn first_k<T>(s: Seq<T>, k: nat) -> Seq<T> {
    if k < s.len() {
        s.take(k as int)
    } else {
        s
    }
}

/// The `k` nearest: ascending by distance, nodes at the same distance by id.
pub open spec fn top_k(d: Map<NodeId, u32>, k: nat) -> Seq<(NodeId, u32)> {
    let s = first_k(sorted_items::<(u32, NodeId)>(scored_pairs(d)), k);
    Seq::new(s.len(), |i: int| (s[i].1, s[i].0))
}

/// The ids of hits.
pub open spec fn hit_ids(hits: Seq<(NodeId, u32)>) -> Seq<NodeId> {
    Seq::new(hits.len(), |i: int| hits[i].0)
}

/// The first `k` of a set of scored nodes, turned round.
pub fn take_top(scored: &OrdSet<(u32, NodeId)>, k: usize) -> (r: Vec<(NodeId, u32)>)
    ensures
        ({
            let s = first_k(sorted_items::<(u32, NodeId)>(scored@), k as nat);
            r@ == Seq::new(s.len(), |i: int| (s[i].1, s[i].0))
        }),
{
    let n: usize = scored.len();
    let m: usize = if k < n {
        k
    } else {
        n
    };
    let ghost s = first_k(scored.items(), k as nat);
    let mut out: Vec<(NodeId, u32)> = Vec::new();
    let mut i: usize = 0;
    while i < m
        invariant
            i <= m,
            m == s.len(),
            m <= scored.items().len(),
            s == first_k(scored.items(), k as nat),
            out.len() == i,
            forall|j: int| 0 <= j < i ==> #[trigger] out@[j] == (s[j].1, s[j].0),
        decreases m - i,
    {
        let p = *scored.at(i);
        assert(s[i as int] == p);
        out.push((p.1, p.0));
        i += 1;
    }
    assert(out@ =~= Seq::new(s.len(), |i: int| (s[i].1, s[i].0)));
    out
}

/// Whether an entry is in scope: from before `max_seqno`, where one is given.
pub open spec fn in_scope(e: EntryModel, max_seqno: Option<u64>) -> bool {
    max_seqno matches Some(w) ==> e.seqno < w
}

/// Whether `dist` can give `d` as the distance of an embedding.
pub open spec fn measures<D: Fn(&Vec<u32>) -> u32>(dist: D, emb: Seq<u32>, d: u32) -> bool {
    exists|e: Vec<u32>| e@ == emb && #[trigger] call_ensures(dist, (&e,), d)
}

/// Distances as `dist` gives them, of exactly the nodes in scope that `keep` keeps.
pub open spec fn scores<D: Fn(&Vec<u32>) -> u32, K: Fn(NodeId) -> bool>(
    v: VectorModel,
    dist: D,
    max_seqno: Option<u64>,
    keep: K,
    d: Map<NodeId, u32>,
) -> bool {
    &&& forall|n: NodeId| #[trigger]
        d.contains_key(n) ==> v.entries.contains_key(n) && in_scope(v.entries[n], max_seqno)
            && call_ensures(keep, (n,), true) && measures(dist, v.entries[n].emb, d[n])
    &&& forall|n: NodeId| #[trigger]
        v.entries.contains_key(n) && in_scope(v.entries[n], max_seqno) && !d.contains_key(n)
            ==> call_ensures(keep, (n,), false)
}

impl VectorIndex {
    /// Every embedding has the index's dimension.
    pub closed spec fn wf(&self) -> bool {
        forall|n: NodeId| #[trigger]
            self.embeddings@.contains_key(n) ==> self.embeddings@[n].emb.len() == self.dim
    }

    /// There are finitely many embeddings.
    pub proof fn lemma_finite(&self)
        ensures
            self@.entries.dom().finite(),
    {
        crate::ordmap::lemma_map_finite(self.embeddings);
    }

    /// An empty index for embeddings of dimension `dim`.
    pub fn new(dim: usize) -> (r: Self)
        ensures
            r.wf(),
            r@ == (VectorModel { dim: dim as nat, version: 0, watermark: 0, entries: Map::empty() }),
    {
        VectorIndex { dim, version: 0, watermark: 0, embeddings: OrdMap::new() }
    }

    /// The dimension of the embeddings.
    pub fn dim(&self) -> (r: usize)
        ensures
            r == self@.dim,
    {
        self.dim
    }

    /// The version of the index.
    pub fn version(&self) -> (r: u64)
        ensures
            r == self@.version,
    {
        self.version
    }

    /// How far the index has caught up.
    pub fn watermark(&self) -> (r: u64)
        ensures
            r == self@.watermark,
    {
        self.watermark
    }

    /// Move the watermark on. It never moves back.
    pub fn advance_watermark(&mut self, to: u64)
        requires
            old(self).wf(),
        ensures
            final(self).wf(),
            final(self)@ == (VectorModel {
                watermark: if to > old(self)@.watermark {
                    to
                } else {
                    old(self)@.watermark
                },
                ..old(self)@
            }),
    {
        if to > self.watermark {
            self.watermark = to;
        }
    }

    /// The number of embeddings.
    pub fn len(&self) -> (r: usize)
        ensures
            r == self@.entries.dom().len(),
    {
        self.embeddings.len()
    }

    /// Whether there is no embedding.
    pub fn is_empty(&self) -> (r: bool)
        ensures
            r == (self@.entries == Map::<NodeId, EntryModel>::empty()),
    {
        self.embeddings.is_empty()
    }

    /// Give a node its embedding, in place of any that it had.
    pub fn insert(&mut self, node: NodeId, seqno: u64, embedding: Vec<u32>)
        requires
            old(self).wf(),
            embedding.len() == old(self)@.dim,
        ensures
            final(self).wf(),
            final(self)@ == (VectorModel {
                entries: old(self)@.entries.insert(node, EntryModel { seqno, emb: embedding@ }),
                ..old(self)@
            }),
    {
        self.embeddings.insert(node, Entry { seqno, emb: embedding });
    }

    /// The embedding of a node.
    pub fn get(&self, node: NodeId) -> (r: Option<&Vec<u32>>)
        ensures
            r is Some == self@.entries.contains_key(node),
            r matches Some(e) ==> e@ == self@.entries[node].emb,
    {
        match self.embeddings.get(&node) {
            Some(e) => Some(&e.emb),
            None => None,
        }
    }

    /// The `k` nearest of all embeddings.
    pub fn nearest<D: Fn(&Vec<u32>) -> u32>(&self, dist: D, k: usize) -> (r: Vec<(NodeId, u32)>)
        requires
            forall|e: &Vec<u32>| call_requires(dist, (e,)),
        ensures
            exists|d: Map<NodeId, u32>|
                #![trigger top_k(d, k as nat)]
                d.dom() == self@.entries.dom() && (forall|n: NodeId| #[trigger]
                    d.contains_key(n) ==> measures(dist, self@.entries[n].emb, d[n])) && r@ == top_k(
                    d,
                    k as nat,
                ),
    {
        let keep = |n: NodeId| -> (b: bool)
            ensures
                b,
            { true };
        let r = self.nearest_scoped(dist, k, None, keep);
        proof {
            let d = choose|d: Map<NodeId, u32>|
                #![trigger top_k(d, k as nat)]
                scores(self@, dist, None, keep, d) && r@ == top_k(d, k as nat);
            assert forall|n: NodeId| #[trigger] d.dom().contains(n) == self@.entries.dom().contains(
                n,
            ) by {
                if self@.entries.contains_key(n) && !d.contains_key(n) {
                    assert(call_ensures(keep, (n,), false));
                }
            }
            assert(d.dom() =~= self@.entries.dom());
        }
        r
    }

    /// The `k` nearest of the embeddings that `keep` keeps.
    pub fn nearest_filtered<D: Fn(&Vec<u32>) -> u32, K: Fn(NodeId) -> bool>(
        &self,
        dist: D,
        k: usize,
        keep: K,
    ) -> (r: Vec<(NodeId, u32)>)
        requires
            forall|e: &Vec<u32>| call_requires(dist, (e,)),
            forall|n: NodeId| call_requires(keep, (n,)),
        ensures
            exists|d: Map<NodeId, u32>|
                #![trigger top_k(d, k as nat)]
                scores(self@, dist, None, keep, d) && r@ == top_k(d, k as nat),
    {
        self.nearest_scoped(dist, k, None, keep)
    }

    /// The `k` nearest of the embeddings in scope that `keep` keeps: with `max_seqno` those that
    /// were indexed before it, else all.
    pub fn nearest_scoped<D: Fn(&Vec<u32>) -> u32, K: Fn(NodeId) -> bool>(
        &self,
        dist: D,
        k: usize,
        max_seqno: Option<u64>,
        keep: K,
    ) -> (r: Vec<(NodeId, u32)>)
        requires
            forall|e: &Vec<u32>| call_requires(dist, (e,)),
            forall|n: NodeId| call_requires(keep, (n,)),
        ensures
            exists|d: Map<NodeId, u32>|
                #![trigger top_k(d, k as nat)]
                scores(self@, dist, max_seqno, keep, d) && r@ == top_k(d, k as nat),
    {
        let mut scored: OrdSet<(u32, NodeId)> = OrdSet::new();
        let ghost mut d: Map<NodeId, u32> = Map::empty();
        let ghost s = self.embeddings.rows();
        let n: usize = self.embeddings.len();
        let mut i: usize = 0;
        assert(scored@ =~= scored_pairs(d));
        while i < n
            invariant
                i <= n,
                n == s.len(),
                s == self.embeddings.rows(),
                ascending::<NodeId, EntryModel>(s),
                forall|e: &Vec<u32>| call_requires(dist, (e,)),
                forall|x: NodeId| call_requires(keep, (x,)),
                scored@ == scored_pairs(d),
                forall|x: NodeId| #[trigger]
                    d.contains_key(x) ==> exists|j: int| 0 <= j < i && (#[trigger] s[j]).0 == x,
                forall|x: NodeId| #[trigger]
                    d.contains_key(x) ==> self@.entries.contains_key(x) && in_scope(
                        self@.entries[x],
                        max_seqno,
                    ) && call_ensures(keep, (x,), true) && measures(
                        dist,
                        self@.entries[x].emb,
                        d[x],
                    ),
                forall|j: int|
                    0 <= j < i && in_scope((#[trigger] s[j]).1, max_seqno) && !d.contains_key(
                        s[j].0,
                    ) ==> call_ensures(keep, (s[j].0,), false),
            decreases n - i,
        {
            let node: NodeId = *self.embeddings.key_at(i);
            let e = self.embeddings.value_at(i);
            let ghost d0 = d;
            proof {
                assert(s[i as int].0 == node);
                lemma_row::<NodeId, EntryModel>(s, i as int);
                assert(!d.contains_key(node)) by {
                    if d.contains_key(node) {
                        let j = choose|j: int| 0 <= j < i && (#[trigger] s[j]).0 == node;
                        assert(u64::before(s[j].0, s[i as int].0));
                    }
                }
            }
            let in_range = match max_seqno {
                Some(w) => e.seqno < w,
                None => true,
            };
            if in_range && keep(node) {
                let x: u32 = dist(&e.emb);
                scored.insert((x, node));
                proof {
                    assert(measures(dist, self@.entries[node].emb, x));
                    d = d.insert(node, x);
                    assert forall|p: (u32, NodeId)| #[trigger] scored@.contains(p) == scored_pairs(
                        d,
                    ).contains(p) by {
                        assert(scored_pairs(d0).contains(p) ==> p.1 != node);
                    }
                    assert(scored@ =~= scored_pairs(d));
                }
            }
            proof {
                assert forall|y: NodeId| #[trigger] d.contains_key(y) implies exists|j: int|
                    0 <= j < i + 1 && (#[trigger] s[j]).0 == y by {
                    if y == node {
                        assert(s[i as int].0 == y);
                    } else {
                        assert(d0.contains_key(y));
                        let j = choose|j: int| 0 <= j < i && (#[trigger] s[j]).0 == y;
                        assert(s[j].0 == y);
                    }
                }
            }
            i += 1;
        }
        proof {
            assert forall|x: NodeId| #[trigger]
                self@.entries.contains_key(x) && in_scope(self@.entries[x], max_seqno)
                    && !d.contains_key(x) implies call_ensures(keep, (x,), false) by {
                lemma_key_row::<NodeId, EntryModel>(s, x);
                let j = row_of(s, x);
                assert(s[j].0 == x);
            }
            assert(scores(self@, dist, max_seqno, keep, d));
        }
        let r = take_top(&scored, k);
        assert(r@ =~= top_k(d, k as nat));
        r
    }
}

/// The pairs of a finite map are as many as its nodes.
proof fn lemma_pairs(d: Map<NodeId, u32>)
    requires
        d.dom().finite(),
    ensures
        scored_pairs(d).finite(),
        scored_pairs(d).len() == d.dom().len(),
    decreases d.dom().len(),
{
    if d.dom().len() == 0 {
        assert(scored_pairs(d) =~= Set::<(u32, NodeId)>::empty());
    } else {
        let n = d.dom().choose();
        let rest = d.remove(n);
        assert(rest.dom() =~= d.dom().remove(n));
        lemma_pairs(rest);
        let pair = (d[n], n);
        assert(!scored_pairs(rest).contains(pair));
        assert(scored_pairs(d) =~= scored_pairs(rest).insert(pair));
    }
}

/// The hits are the nearest: as many as asked for or as there are, each a node with its distance,
/// nearest first, and no node left out comes before one that is in.
pub proof fn law_top_k_is_nearest(d: Map<NodeId, u32>, k: nat)
    requires
        d.dom().finite(),
    ensures
        top_k(d, k).len() == if k < d.dom().len() {
            k
        } else {
            d.dom().len()
        },
        forall|i: int|
            0 <= i < top_k(d, k).len() ==> d.contains_key((#[trigger] top_k(d, k)[i]).0) && d[top_k(
                d,
                k,
            )[i].0] == top_k(d, k)[i].1,
        forall|i: int, j: int|
            0 <= i < j < top_k(d, k).len() ==> nearer(
                #[trigger] top_k(d, k)[i],
                #[trigger] top_k(d, k)[j],
            ),
        forall|n: NodeId, i: int|
            #![trigger d.contains_key(n), top_k(d, k)[i]]
            d.contains_key(n) && !hit_ids(top_k(d, k)).contains(n) && 0 <= i < top_k(d, k).len()
                ==> nearer(top_k(d, k)[i], (n, d[n])),
{
    lemma_pairs(d);
    let set = scored_pairs(d);
    lemma_sorted_items::<(u32, NodeId)>(set);
    let items = sorted_items::<(u32, NodeId)>(set);
    let top = top_k(d, k);
    assert forall|i: int| 0 <= i < top.len() implies d.contains_key((#[trigger] top[i]).0)
        && d[top[i].0] == top[i].1 by {
        assert(items.contains(items[i]));
        assert(items.to_set().contains(items[i]));
    }
    assert forall|i: int, j: int| 0 <= i < j < top.len() implies nearer(
        #[trigger] top[i],
        #[trigger] top[j],
    ) by {
        assert(<(u32, NodeId) as Key>::before(items[i], items[j]));
    }
    assert forall|n: NodeId, i: int|
        #![trigger d.contains_key(n), top[i]]
        d.contains_key(n) && !hit_ids(top).contains(n) && 0 <= i < top.len() implies nearer(
        top[i],
        (n, d[n]),
    ) by {
        let pair = (d[n], n);
        assert(set.contains(pair));
        assert(items.to_set().contains(pair));
        let j = choose|j: int| 0 <= j < items.len() && items[j] == pair;
        if j < top.len() {
            assert(hit_ids(top)[j] == n);
        }
        assert(<(u32, NodeId) as Key>::before(items[i], items[j]));
    }
}

/// Whether one hit comes before another.
pub open spec fn nearer(a: (NodeId, u32), b: (NodeId, u32)) -> bool {
    a.1 < b.1 || (a.1 == b.1 && a.0 < b.0)
}

/// What is scored are exactly the nodes with an embedding from before the bound that the filter keeps:
/// nothing from the bound on, nothing that the filter refuses, and all the rest.
pub proof fn law_scored_nodes<D: Fn(&Vec<u32>) -> u32, K: Fn(NodeId) -> bool>(
    v: VectorModel,
    dist: D,
    max_seqno: Option<u64>,
    keep: K,
    d: Map<NodeId, u32>,
    kept: Set<NodeId>,
    n: NodeId,
)
    requires
        scores(v, dist, max_seqno, keep, d),
        forall|x: NodeId, b: bool| #[trigger] call_ensures(keep, (x,), b) ==> b == kept.contains(x),
    ensures
        d.contains_key(n) <==> v.entries.contains_key(n) && kept.contains(n) && (max_seqno is None
            || v.entries[n].seqno < max_seqno->0),
{
}

/// A distance is what the measure gives for the node's own embedding, of which it sees the
/// coordinates alone.
pub proof fn law_measured_by_coordinates<D: Fn(&Vec<u32>) -> u32>(
    dist: D,
    emb: Seq<u32>,
    d: u32,
    f: spec_fn(Seq<u32>) -> u32,
)
    requires
        measures(dist, emb, d),
        forall|e: Vec<u32>, x: u32| #[trigger] call_ensures(dist, (&e,), x) ==> x == f(e@),
    ensures
        d == f(emb),
{
}

} // verus!
