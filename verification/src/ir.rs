//! Composed reads: a source and transforms, evaluated in one go under a principal's labels, with a
//! bound on the result and the version it was read at.
//!
//! A score is held as the IEEE 754 single-precision bits of a number that is not negative, whose
//! order is that of the integers; more is better.
pub mod laws;

use self::laws::{law_picks_are_from_source, only_picks};
use crate::access::{allows, mask_allows};
use crate::catalog::{Catalog, CatalogModel};
use crate::fact::{FieldId, NodeId};
use crate::fold::model::SnapshotModel;
use crate::fold::Snapshot;
use crate::hybrid::{is_of_type, scope_of};
use crate::ivf::search::{hits_kept, reranked};
use crate::ivf::{
    dist_agrees, keep_agrees, metric_agrees, scan_agrees, total_dist, total_metric, DistFn, IvfPq,
    MetricFn, Scan, ScanModel,
};
use crate::ordmap::{sorted_items, OrdSet};
use crate::query::graph::{expand, targets};
use crate::rank::{law_ranking, lemma_ranked_from, rank, ranked};
use crate::vector::{
    first_k, in_scope, law_top_k_is_nearest, measures, scores, top_k, VectorIndex, VectorModel,
};
use crate::version::{ReadMode, VersionVector};
use vstd::prelude::*;

verus! {

/// The score of a node that was looked up or expanded to: one.
pub const UNIT_SCORE: u32 = 0x3f80_0000;

/// How many cells a read probes in a quantized index.
pub const IR_NPROBE: usize = 8;

/// How many hits of a quantized index a read ranks again.
pub const IR_RERANK_R: usize = 256;

/// The scores of codes against a query.
pub type CodeFn = spec_fn(Seq<u8>) -> u32;

/// Whether `score` answers for every code.
pub open spec fn total_score<S: Fn(&Vec<u8>) -> u32>(score: S) -> bool {
    forall|c: &Vec<u8>| call_requires(score, (c,))
}

/// Whether `score` computes the scores `m`.
pub open spec fn score_agrees<S: Fn(&Vec<u8>) -> u32>(score: S, m: CodeFn) -> bool {
    forall|c: Vec<u8>, r: u32| #[trigger] call_ensures(score, (&c,), r) ==> r == m(c@)
}

/// A vector search that a read can stand on. `dist` is the distance of a vector to the query,
/// `score` that of a code, for a backend that has codes.
pub trait AnnBackend {
    /// Whether the backend can answer.
    spec fn ready(&self) -> bool;

    /// The `k` nearest in scope among the nodes that are kept, with their distances.
    spec fn nearest_of(
        &self,
        dist: DistFn,
        score: CodeFn,
        k: nat,
        scope: Option<u64>,
        kept: spec_fn(NodeId) -> bool,
    ) -> Seq<(NodeId, u32)>;

    /// The `k` nearest of the nodes in scope that `keep` keeps, with their distances. What `keep`
    /// refuses is never a hit.
    fn ann_search<D: Fn(&Vec<u32>) -> u32, S: Fn(&Vec<u8>) -> u32, K: Fn(NodeId) -> bool>(
        &self,
        dist: D,
        score: S,
        k: usize,
        scope: Option<u64>,
        keep: K,
    ) -> (r: Vec<(NodeId, u32)>)
        requires
            self.ready(),
            total_dist(dist),
            total_score(score),
            forall|n: NodeId| call_requires(keep, (n,)),
        ensures
            r.len() <= k,
            hits_kept(keep, r@),
            forall|d: DistFn, c: CodeFn, kept: spec_fn(NodeId) -> bool|
                #![trigger dist_agrees(dist, d), score_agrees(score, c), keep_agrees(keep, kept)]
                dist_agrees(dist, d) && score_agrees(score, c) && keep_agrees(keep, kept) ==> r@
                    == self.nearest_of(d, c, k as nat, scope, kept),
    ;
}

/// The distances of the embeddings in scope whose nodes are kept.
pub open spec fn distances(
    v: VectorModel,
    dist: DistFn,
    scope: Option<u64>,
    kept: spec_fn(NodeId) -> bool,
) -> Map<NodeId, u32> {
    Map::new(
        |n: NodeId| v.entries.contains_key(n) && in_scope(v.entries[n], scope) && kept(n),
        |n: NodeId| dist(v.entries[n].emb),
    )
}

/// The exact search.
impl AnnBackend for VectorIndex {
    open spec fn ready(&self) -> bool {
        true
    }

    open spec fn nearest_of(
        &self,
        dist: DistFn,
        score: CodeFn,
        k: nat,
        scope: Option<u64>,
        kept: spec_fn(NodeId) -> bool,
    ) -> Seq<(NodeId, u32)> {
        top_k(distances(self@, dist, scope, kept), k)
    }

    fn ann_search<D: Fn(&Vec<u32>) -> u32, S: Fn(&Vec<u8>) -> u32, K: Fn(NodeId) -> bool>(
        &self,
        dist: D,
        score: S,
        k: usize,
        scope: Option<u64>,
        keep: K,
    ) -> (r: Vec<(NodeId, u32)>) {
        let r = self.nearest_scoped(dist, k, scope, keep);
        proof {
            let n_k = k as nat;
            let v = self@;
            let d = choose|d: Map<NodeId, u32>|
                #![trigger top_k(d, n_k)]
                scores(v, dist, scope, keep, d) && r@ == top_k(d, n_k);
            assert(d.dom().subset_of(v.entries.dom()));
            self.lemma_finite();
            vstd::set_lib::lemma_len_subset(d.dom(), v.entries.dom());
            law_top_k_is_nearest(d, n_k);
            assert forall|i: int| 0 <= i < r.len() implies call_ensures(
                keep,
                ((#[trigger] r@[i]).0,),
                true,
            ) by {
                assert(d.contains_key(top_k(d, n_k)[i].0));
            }
            assert forall|m: DistFn, c: CodeFn, kept: spec_fn(NodeId) -> bool|
                #![trigger dist_agrees(dist, m), score_agrees(score, c), keep_agrees(keep, kept)]
                dist_agrees(dist, m) && score_agrees(score, c) && keep_agrees(keep, kept) implies r@
                == self.nearest_of(m, c, n_k, scope, kept) by {
                let want = distances(v, m, scope, kept);
                assert forall|n: NodeId|
                    #![trigger d.dom().contains(n)]
                    d.dom().contains(n) == want.dom().contains(n) && (d.dom().contains(n) ==> d[n]
                        == want[n]) by {
                    if d.contains_key(n) {
                        assert(call_ensures(keep, (n,), true));
                        assert(measures(dist, v.entries[n].emb, d[n]));
                    } else if want.contains_key(n) {
                        assert(v.entries.contains_key(n));
                        assert(call_ensures(keep, (n,), false));
                    }
                }
                assert(d =~= want);
            }
        }
        r
    }
}

/// The scan of a read: every label, in scope, of nodes that are kept.
pub open spec fn read_scan(
    score: CodeFn,
    scope: Option<u64>,
    kept: spec_fn(NodeId) -> bool,
) -> ScanModel {
    ScanModel { score, max_seqno: scope, allowed: |l: u32| true, keep: kept }
}

/// The re-ranked search of a quantized index. Labels ride on `keep`, which is asked before anything
/// is scored.
impl AnnBackend for IvfPq {
    open spec fn ready(&self) -> bool {
        self.wf()
    }

    open spec fn nearest_of(
        &self,
        dist: DistFn,
        score: CodeFn,
        k: nat,
        scope: Option<u64>,
        kept: spec_fn(NodeId) -> bool,
    ) -> Seq<(NodeId, u32)> {
        reranked(
            self@,
            dist,
            read_scan(score, scope, kept),
            k,
            IR_NPROBE as nat,
            IR_RERANK_R as nat,
        )
    }

    fn ann_search<D: Fn(&Vec<u32>) -> u32, S: Fn(&Vec<u8>) -> u32, K: Fn(NodeId) -> bool>(
        &self,
        dist: D,
        score: S,
        k: usize,
        scope: Option<u64>,
        keep: K,
    ) -> (r: Vec<(NodeId, u32)>) {
        let any = |l: u32| -> (b: bool)
            ensures
                b,
            { true };
        let ghost f = Scan { score, max_seqno: scope, allowed: any, keep };
        let r = self.search_rerank(dist, score, k, IR_NPROBE, IR_RERANK_R, scope, any, keep);
        proof {
            assert forall|m: DistFn, c: CodeFn, kept: spec_fn(NodeId) -> bool|
                #![trigger dist_agrees(dist, m), score_agrees(score, c), keep_agrees(keep, kept)]
                dist_agrees(dist, m) && score_agrees(score, c) && keep_agrees(keep, kept) implies r@
                == self.nearest_of(m, c, k as nat, scope, kept) by {
                assert(scan_agrees(f, read_scan(c, scope, kept)));
            }
        }
        r
    }
}

/// The numeric functions of a read: the distance of two vectors, the score of a code against a
/// query, the score that a distance gives a hit.
pub struct Kernels<D, S, R> {
    pub dist: D,
    pub score: S,
    pub relevance: R,
}

/// The model of [`Kernels`].
pub struct KernelModel {
    pub dist: MetricFn,
    pub score: spec_fn(Seq<u32>, Seq<u8>) -> u32,
    pub relevance: spec_fn(u32) -> u32,
}

/// Whether the functions answer for every argument.
pub open spec fn total_kernels<
    D: Fn(&Vec<u32>, &Vec<u32>) -> u32,
    S: Fn(&Vec<u32>, &Vec<u8>) -> u32,
    R: Fn(u32) -> u32,
>(k: Kernels<D, S, R>) -> bool {
    &&& total_metric(k.dist)
    &&& forall|q: &Vec<u32>, c: &Vec<u8>| call_requires(k.score, (q, c))
    &&& forall|d: u32| call_requires(k.relevance, (d,))
}

/// Whether the functions compute what their model says.
pub open spec fn kernels_agree<
    D: Fn(&Vec<u32>, &Vec<u32>) -> u32,
    S: Fn(&Vec<u32>, &Vec<u8>) -> u32,
    R: Fn(u32) -> u32,
>(k: Kernels<D, S, R>, m: KernelModel) -> bool {
    &&& metric_agrees(k.dist, m.dist)
    &&& forall|q: Vec<u32>, c: Vec<u8>, r: u32| #[trigger]
        call_ensures(k.score, (&q, &c), r) ==> r == (m.score)(q@, c@)
    &&& forall|d: u32, r: u32| #[trigger]
        call_ensures(k.relevance, (d,), r) ==> r == (m.relevance)(d)
}

/// The distances to one vector.
pub open spec fn dist_to(dist: MetricFn, q: Seq<u32>) -> DistFn {
    |e: Seq<u32>| dist(q, e)
}

/// The scores against one query.
pub open spec fn score_to(score: spec_fn(Seq<u32>, Seq<u8>) -> u32, q: Seq<u32>) -> CodeFn {
    |c: Seq<u8>| score(q, c)
}

/// Who asks: a mask of the labels allowed. What is unlabelled is public.
#[derive(Clone, Copy, Debug)]
pub struct Principal {
    pub allowed_labels: u32,
}

impl Principal {
    /// Whether the principal may see a label.
    pub fn can_see_label(&self, label: u8) -> (r: bool)
        requires
            label < 32,
        ensures
            r == allows(self.allowed_labels, label),
    {
        mask_allows(self.allowed_labels, label)
    }
}

/// What flows between operators: nodes, their scores, and the version of the read.
#[derive(Clone, Debug, PartialEq)]
pub struct Traverser {
    pub ids: Vec<NodeId>,
    pub scores: Vec<u32>,
    pub as_of: VersionVector,
}

/// Where a pipeline starts.
pub enum Source {
    /// These nodes.
    Point { subjects: Vec<NodeId> },
    /// The nodes of a type nearest to a query.
    TypeAnn { q: Vec<u32>, target_type: FieldId, k: usize },
}

/// What a pipeline does on the way.
pub enum Transform {
    /// One hop along a predicate.
    Expand { predicate: FieldId },
    /// Only the best by score.
    TopK { k: usize },
}

/// A composed read.
pub struct Pipeline {
    pub source: Source,
    pub transforms: Vec<Transform>,
    pub max_nodes: usize,
    pub mode: ReadMode,
}

/// Whether a principal may see a node.
pub open spec fn may_see(c: CatalogModel, p: Principal, n: NodeId) -> bool {
    c.node_labels.contains_key(n) ==> allows(p.allowed_labels, c.node_labels[n])
}

/// Every label in the catalog is a bit position of a mask.
pub open spec fn catalog_labels_fit(c: CatalogModel) -> bool {
    forall|n: NodeId| #[trigger] c.node_labels.contains_key(n) ==> c.node_labels[n] < 32
}

fn authorized(catalog: &Catalog, principal: &Principal, n: NodeId) -> (r: bool)
    requires
        catalog_labels_fit(catalog@),
    ensures
        r == may_see(catalog@, *principal, n),
{
    match catalog.node_label(n) {
        Some(l) => {
            assert(catalog@.node_labels.contains_key(n));
            principal.can_see_label(l)
        },
        None => true,
    }
}

/// A node with its score.
pub type Scored = (NodeId, u32);

/// The nodes of a list that a principal may see, each with the unit score.
pub open spec fn seen_of(c: CatalogModel, p: Principal, subjects: Seq<NodeId>) -> Seq<Scored>
    decreases subjects.len(),
{
    if subjects.len() == 0 {
        Seq::empty()
    } else {
        let init = seen_of(c, p, subjects.drop_last());
        if may_see(c, p, subjects.last()) {
            init.push((subjects.last(), UNIT_SCORE))
        } else {
            init
        }
    }
}

/// Whether a node is among scored ones.
pub open spec fn among(v: Seq<Scored>, n: NodeId) -> bool {
    exists|i: int| 0 <= i < v.len() && (#[trigger] v[i]).0 == n
}

/// The nodes of a list that a principal may see and that are not there yet, added in order.
pub open spec fn add_targets(
    c: CatalogModel,
    p: Principal,
    next: Seq<Scored>,
    list: Seq<NodeId>,
) -> Seq<Scored>
    decreases list.len(),
{
    if list.len() == 0 {
        next
    } else {
        let init = add_targets(c, p, next, list.drop_last());
        if may_see(c, p, list.last()) && !among(init, list.last()) {
            init.push((list.last(), UNIT_SCORE))
        } else {
            init
        }
    }
}

/// One hop from every node: what a principal may see, each node once, in the order of discovery.
pub open spec fn expanded(
    s: SnapshotModel,
    c: CatalogModel,
    p: Principal,
    v: Seq<Scored>,
    predicate: FieldId,
) -> Seq<Scored>
    decreases v.len(),
{
    if v.len() == 0 {
        Seq::empty()
    } else {
        add_targets(
            c,
            p,
            expanded(s, c, p, v.drop_last(), predicate),
            sorted_items::<NodeId>(targets(s, None, v.last().0, predicate)),
        )
    }
}

/// What a transform gives.
pub open spec fn transformed(
    s: SnapshotModel,
    c: CatalogModel,
    p: Principal,
    v: Seq<Scored>,
    t: Transform,
) -> Seq<Scored> {
    match t {
        Transform::Expand { predicate } => expanded(s, c, p, v, predicate),
        Transform::TopK { k } => first_k(ranked(v), k as nat),
    }
}

/// What a source's nodes become: bounded, then through each transform, bounded after each.
pub open spec fn piped(
    s: SnapshotModel,
    c: CatalogModel,
    p: Principal,
    v: Seq<Scored>,
    ts: Seq<Transform>,
    max_nodes: nat,
) -> Seq<Scored>
    decreases ts.len(),
{
    if ts.len() == 0 {
        first_k(v, max_nodes)
    } else {
        first_k(
            transformed(s, c, p, piped(s, c, p, v, ts.drop_last(), max_nodes), ts.last()),
            max_nodes,
        )
    }
}

/// A traverser's nodes with their scores.
pub open spec fn scored_of(t: Traverser) -> Seq<Scored> {
    Seq::new(t.ids@.len(), |i: int| (t.ids@[i], t.scores@[i]))
}

fn cap(v: &mut Vec<Scored>, max_nodes: usize)
    ensures
        final(v)@ == first_k(old(v)@, max_nodes as nat),
{
    if v.len() > max_nodes {
        v.truncate(max_nodes);
        assert(v@ =~= old(v)@.take(max_nodes as int));
    }
}

fn has_node(v: &Vec<Scored>, n: NodeId) -> (r: bool)
    ensures
        r == among(v@, n),
{
    let mut i: usize = 0;
    while i < v.len()
        invariant
            i <= v.len(),
            forall|j: int| 0 <= j < i ==> (#[trigger] v@[j]).0 != n,
        decreases v.len() - i,
    {
        if v[i].0 == n {
            return true;
        }
        i += 1;
    }
    false
}

fn add_found(catalog: &Catalog, principal: &Principal, next: &mut Vec<Scored>, found: &OrdSet<NodeId>)
    requires
        catalog_labels_fit(catalog@),
    ensures
        final(next)@ == add_targets(
            catalog@,
            *principal,
            old(next)@,
            sorted_items::<NodeId>(found@),
        ),
{
    let n: usize = found.len();
    let ghost list = found.items();
    let mut i: usize = 0;
    assert(list.take(0) =~= Seq::<NodeId>::empty());
    while i < n
        invariant
            i <= n,
            n == list.len(),
            list == found.items(),
            catalog_labels_fit(catalog@),
            next@ == add_targets(catalog@, *principal, old(next)@, list.take(i as int)),
        decreases n - i,
    {
        let x: NodeId = *found.at(i);
        proof {
            let t = list.take(i + 1);
            assert(t.drop_last() =~= list.take(i as int));
            assert(t.last() == x);
        }
        if authorized(catalog, principal, x) && !has_node(next, x) {
            next.push((x, UNIT_SCORE));
        }
        i += 1;
    }
    assert(list.take(i as int) =~= list);
}

fn expand_all(
    snapshot: &Snapshot,
    catalog: &Catalog,
    principal: &Principal,
    v: &Vec<Scored>,
    predicate: FieldId,
) -> (r: Vec<Scored>)
    requires
        catalog_labels_fit(catalog@),
    ensures
        r@ == expanded(snapshot@, catalog@, *principal, v@, predicate),
{
    let mut next: Vec<Scored> = Vec::new();
    let mut i: usize = 0;
    assert(v@.take(0) =~= Seq::<Scored>::empty());
    while i < v.len()
        invariant
            i <= v.len(),
            catalog_labels_fit(catalog@),
            next@ == expanded(snapshot@, catalog@, *principal, v@.take(i as int), predicate),
        decreases v.len() - i,
    {
        proof {
            let t = v@.take(i + 1);
            assert(t.drop_last() =~= v@.take(i as int));
            assert(t.last() == v@[i as int]);
        }
        let found = expand(snapshot, v[i].0, predicate);
        add_found(catalog, principal, &mut next, &found);
        i += 1;
    }
    assert(v@.take(i as int) =~= v@);
    next
}

/// Take a source's nodes through a pipeline's transforms, bounded after each.
pub fn run_from(
    snapshot: &Snapshot,
    catalog: &Catalog,
    principal: &Principal,
    source: Vec<(NodeId, u32)>,
    transforms: &Vec<Transform>,
    max_nodes: usize,
    vv: VersionVector,
) -> (r: Traverser)
    requires
        catalog_labels_fit(catalog@),
    ensures
        r.ids.len() == r.scores.len(),
        scored_of(r) == piped(
            snapshot@,
            catalog@,
            *principal,
            source@,
            transforms@,
            max_nodes as nat,
        ),
        r.as_of == vv,
{
    let ghost src = source@;
    let mut v = source;
    cap(&mut v, max_nodes);
    let mut i: usize = 0;
    assert(transforms@.take(0) =~= Seq::<Transform>::empty());
    while i < transforms.len()
        invariant
            i <= transforms.len(),
            catalog_labels_fit(catalog@),
            v@ == piped(
                snapshot@,
                catalog@,
                *principal,
                src,
                transforms@.take(i as int),
                max_nodes as nat,
            ),
        decreases transforms.len() - i,
    {
        proof {
            let t = transforms@.take(i + 1);
            assert(t.drop_last() =~= transforms@.take(i as int));
            assert(t.last() == transforms@[i as int]);
        }
        match &transforms[i] {
            Transform::Expand { predicate } => {
                v = expand_all(snapshot, catalog, principal, &v, *predicate);
            },
            Transform::TopK { k } => {
                let mut w = rank(&v);
                cap(&mut w, *k);
                v = w;
            },
        }
        cap(&mut v, max_nodes);
        i += 1;
    }
    assert(transforms@.take(i as int) =~= transforms@);
    let mut ids: Vec<NodeId> = Vec::new();
    let mut scores: Vec<u32> = Vec::new();
    let mut j: usize = 0;
    while j < v.len()
        invariant
            j <= v.len(),
            ids.len() == j,
            scores.len() == j,
            forall|x: int| 0 <= x < j ==> (#[trigger] ids@[x], scores@[x]) == v@[x],
        decreases v.len() - j,
    {
        ids.push(v[j].0);
        scores.push(v[j].1);
        j += 1;
    }
    let r = Traverser { ids, scores, as_of: vv };
    assert(scored_of(r) =~= v@);
    r
}

/// The nodes of a type that a principal may see.
pub open spec fn visible_of_type(c: CatalogModel, p: Principal, ty: FieldId) -> spec_fn(
    NodeId,
) -> bool {
    |n: NodeId| may_see(c, p, n) && is_of_type(c, n, ty)
}

/// Hits with their scores.
pub open spec fn scored_hits(hits: Seq<(NodeId, u32)>, relevance: spec_fn(u32) -> u32) -> Seq<
    Scored,
> {
    Seq::new(hits.len(), |i: int| (hits[i].0, relevance(hits[i].1)))
}

/// What a source gives: of nodes that are named, those that the principal may see; of a search, its
/// hits among the nodes of the type that the principal may see, in the scope of the read.
pub open spec fn sourced<A: AnnBackend>(
    c: CatalogModel,
    backend: A,
    m: KernelModel,
    pipeline: Pipeline,
    p: Principal,
    vv: VersionVector,
) -> Seq<Scored> {
    match pipeline.source {
        Source::Point { subjects } => seen_of(c, p, subjects@),
        Source::TypeAnn { q, target_type, k } => scored_hits(
            backend.nearest_of(
                dist_to(m.dist, q@),
                score_to(m.score, q@),
                k as nat,
                scope_of(vv, pipeline.mode),
                visible_of_type(c, p, target_type),
            ),
            m.relevance,
        ),
    }
}

fn point_source(catalog: &Catalog, principal: &Principal, subjects: &Vec<NodeId>) -> (r: Vec<Scored>)
    requires
        catalog_labels_fit(catalog@),
    ensures
        r@ == seen_of(catalog@, *principal, subjects@),
{
    let mut out: Vec<Scored> = Vec::new();
    let mut i: usize = 0;
    assert(subjects@.take(0) =~= Seq::<NodeId>::empty());
    while i < subjects.len()
        invariant
            i <= subjects.len(),
            catalog_labels_fit(catalog@),
            out@ == seen_of(catalog@, *principal, subjects@.take(i as int)),
        decreases subjects.len() - i,
    {
        proof {
            let t = subjects@.take(i + 1);
            assert(t.drop_last() =~= subjects@.take(i as int));
            assert(t.last() == subjects@[i as int]);
        }
        if authorized(catalog, principal, subjects[i]) {
            out.push((subjects[i], UNIT_SCORE));
        }
        i += 1;
    }
    assert(subjects@.take(i as int) =~= subjects@);
    out
}

fn ann_source<
    A: AnnBackend,
    D: Fn(&Vec<u32>, &Vec<u32>) -> u32,
    S: Fn(&Vec<u32>, &Vec<u8>) -> u32,
    R: Fn(u32) -> u32,
>(
    catalog: &Catalog,
    vector: &A,
    kernels: &Kernels<D, S, R>,
    q: &Vec<u32>,
    ty: FieldId,
    k: usize,
    scope: Option<u64>,
    principal: &Principal,
) -> (r: Vec<Scored>)
    requires
        catalog_labels_fit(catalog@),
        vector.ready(),
        total_kernels(*kernels),
    ensures
        all_seen(catalog@, *principal, r@),
        forall|i: int|
            0 <= i < r.len() ==> catalog@.node_types.contains_key((#[trigger] r@[i]).0)
                && catalog@.node_types[r@[i].0] == ty,
        forall|m: KernelModel| #[trigger]
            kernels_agree(*kernels, m) ==> r@ == scored_hits(
                vector.nearest_of(
                    dist_to(m.dist, q@),
                    score_to(m.score, q@),
                    k as nat,
                    scope,
                    visible_of_type(catalog@, *principal, ty),
                ),
                m.relevance,
            ),
{
    let keep = |n: NodeId| -> (b: bool)
        ensures
            b == (may_see(catalog@, *principal, n) && is_of_type(catalog@, n, ty)),
        {
            authorized(catalog, principal, n) && match catalog.node_type(n) {
                Some(t) => t == ty,
                None => false,
            }
        };
    let dist = |e: &Vec<u32>| -> (d: u32)
        ensures
            call_ensures(kernels.dist, (q, e), d),
        { (kernels.dist)(q, e) };
    let score = |c: &Vec<u8>| -> (d: u32)
        ensures
            call_ensures(kernels.score, (q, c), d),
        { (kernels.score)(q, c) };
    let hits = vector.ann_search(dist, score, k, scope, keep);
    let mut out: Vec<Scored> = Vec::new();
    let mut i: usize = 0;
    while i < hits.len()
        invariant
            i <= hits.len(),
            total_kernels(*kernels),
            out.len() == i,
            forall|j: int|
                0 <= j < i ==> (#[trigger] out@[j]).0 == hits@[j].0 && call_ensures(
                    kernels.relevance,
                    (hits@[j].1,),
                    out@[j].1,
                ),
        decreases hits.len() - i,
    {
        let s: u32 = (kernels.relevance)(hits[i].1);
        out.push((hits[i].0, s));
        i += 1;
    }
    proof {
        let kept = visible_of_type(catalog@, *principal, ty);
        assert(keep_agrees(keep, kept));
        assert forall|j: int| 0 <= j < out@.len() implies may_see(
            catalog@,
            *principal,
            (#[trigger] out@[j]).0,
        ) by {
            assert(call_ensures(keep, (hits@[j].0,), true));
        }
        assert forall|j: int| 0 <= j < out@.len() implies catalog@.node_types.contains_key(
            (#[trigger] out@[j]).0,
        ) && catalog@.node_types[out@[j].0] == ty by {
            assert(call_ensures(keep, (hits@[j].0,), true));
        }
        assert forall|m: KernelModel| #[trigger] kernels_agree(*kernels, m) implies out@
            == scored_hits(
            vector.nearest_of(
                dist_to(m.dist, q@),
                score_to(m.score, q@),
                k as nat,
                scope,
                kept,
            ),
            m.relevance,
        ) by {
            assert(dist_agrees(dist, dist_to(m.dist, q@)));
            assert(score_agrees(score, score_to(m.score, q@)));
            assert forall|j: int| 0 <= j < out@.len() implies #[trigger] out@[j] == (
                hits@[j].0,
                (m.relevance)(hits@[j].1),
            ) by {}
            assert(out@ =~= scored_hits(hits@, m.relevance));
        }
    }
    out
}

/// Evaluate a pipeline. Labels are enforced at the source, before anything is scored, and on every
/// node expanded to; the result has at most `max_nodes` nodes and carries `vv`.
pub fn run<
    A: AnnBackend,
    D: Fn(&Vec<u32>, &Vec<u32>) -> u32,
    S: Fn(&Vec<u32>, &Vec<u8>) -> u32,
    R: Fn(u32) -> u32,
>(
    snapshot: &Snapshot,
    catalog: &Catalog,
    vector: &A,
    kernels: &Kernels<D, S, R>,
    pipeline: &Pipeline,
    principal: &Principal,
    vv: VersionVector,
) -> (r: Traverser)
    requires
        catalog_labels_fit(catalog@),
        vector.ready(),
        total_kernels(*kernels),
    ensures
        r.ids.len() == r.scores.len(),
        r.as_of == vv,
        r.ids.len() <= pipeline.max_nodes,
        forall|i: int| 0 <= i < r.ids.len() ==> may_see(catalog@, *principal, #[trigger] r.ids@[i]),
        pipeline.source is TypeAnn && only_picks(pipeline.transforms@) ==> forall|i: int|
            0 <= i < r.ids.len() ==> catalog@.node_types.contains_key(#[trigger] r.ids@[i])
                && catalog@.node_types[r.ids@[i]] == pipeline.source->target_type,
        pipeline.source matches Source::Point { subjects } ==> scored_of(r) == piped(
            snapshot@,
            catalog@,
            *principal,
            seen_of(catalog@, *principal, subjects@),
            pipeline.transforms@,
            pipeline.max_nodes as nat,
        ),
        forall|m: KernelModel| #[trigger]
            kernels_agree(*kernels, m) ==> scored_of(r) == piped(
                snapshot@,
                catalog@,
                *principal,
                sourced(catalog@, *vector, m, *pipeline, *principal, vv),
                pipeline.transforms@,
                pipeline.max_nodes as nat,
            ),
{
    let source: Vec<Scored> = match &pipeline.source {
        Source::Point { subjects } => {
            proof {
                lemma_seen_of(catalog@, *principal, subjects@);
            }
            point_source(catalog, principal, subjects)
        },
        Source::TypeAnn { q, target_type, k } => {
            let scope = match pipeline.mode {
                ReadMode::Strict => Some(vv.vector_watermark),
                ReadMode::Fresh => None,
            };
            ann_source(catalog, vector, kernels, q, *target_type, *k, scope, principal)
        },
    };
    let ghost src = source@;
    let r = run_from(
        snapshot,
        catalog,
        principal,
        source,
        &pipeline.transforms,
        pipeline.max_nodes,
        vv,
    );
    proof {
        law_piped_is_scoped(
            snapshot@,
            catalog@,
            *principal,
            src,
            pipeline.transforms@,
            pipeline.max_nodes as nat,
        );
        let v = scored_of(r);
        assert forall|i: int| 0 <= i < r.ids.len() implies may_see(
            catalog@,
            *principal,
            #[trigger] r.ids@[i],
        ) by {
            assert(may_see(catalog@, *principal, v[i].0));
        }
        if pipeline.source is TypeAnn && only_picks(pipeline.transforms@) {
            law_picks_are_from_source(
                snapshot@,
                catalog@,
                *principal,
                src,
                pipeline.transforms@,
                pipeline.max_nodes as nat,
            );
            assert forall|i: int| 0 <= i < r.ids.len() implies catalog@.node_types.contains_key(
                #[trigger] r.ids@[i],
            ) && catalog@.node_types[r.ids@[i]] == pipeline.source->target_type by {
                assert(src.contains(v[i]));
                let j = choose|j: int| 0 <= j < src.len() && src[j] == v[i];
                assert(catalog@.node_types.contains_key(src[j].0));
            }
        }
    }
    r
}

proof fn lemma_seen_of(c: CatalogModel, p: Principal, subjects: Seq<NodeId>)
    ensures
        all_seen(c, p, seen_of(c, p, subjects)),
    decreases subjects.len(),
{
    if subjects.len() > 0 {
        lemma_seen_of(c, p, subjects.drop_last());
    }
}

/// Every node is one that the principal may see.
pub open spec fn all_seen(c: CatalogModel, p: Principal, v: Seq<Scored>) -> bool {
    forall|i: int| 0 <= i < v.len() ==> may_see(c, p, (#[trigger] v[i]).0)
}

proof fn lemma_add_targets_seen(
    c: CatalogModel,
    p: Principal,
    next: Seq<Scored>,
    list: Seq<NodeId>,
)
    requires
        all_seen(c, p, next),
    ensures
        all_seen(c, p, add_targets(c, p, next, list)),
    decreases list.len(),
{
    if list.len() > 0 {
        lemma_add_targets_seen(c, p, next, list.drop_last());
    }
}

proof fn lemma_expanded_seen(
    s: SnapshotModel,
    c: CatalogModel,
    p: Principal,
    v: Seq<Scored>,
    predicate: FieldId,
)
    ensures
        all_seen(c, p, expanded(s, c, p, v, predicate)),
    decreases v.len(),
{
    if v.len() > 0 {
        lemma_expanded_seen(s, c, p, v.drop_last(), predicate);
        lemma_add_targets_seen(
            c,
            p,
            expanded(s, c, p, v.drop_last(), predicate),
            sorted_items::<NodeId>(targets(s, None, v.last().0, predicate)),
        );
    }
}

/// A read is scoped and bounded: from a source that the principal may see, nothing else comes out,
/// and no more than the bound.
pub proof fn law_piped_is_scoped(
    s: SnapshotModel,
    c: CatalogModel,
    p: Principal,
    v: Seq<Scored>,
    ts: Seq<Transform>,
    max_nodes: nat,
)
    requires
        all_seen(c, p, v),
    ensures
        all_seen(c, p, piped(s, c, p, v, ts, max_nodes)),
        piped(s, c, p, v, ts, max_nodes).len() <= max_nodes,
    decreases ts.len(),
{
    if ts.len() > 0 {
        let init = piped(s, c, p, v, ts.drop_last(), max_nodes);
        law_piped_is_scoped(s, c, p, v, ts.drop_last(), max_nodes);
        let out = transformed(s, c, p, init, ts.last());
        match ts.last() {
            Transform::Expand { predicate } => {
                lemma_expanded_seen(s, c, p, init, predicate);
            },
            Transform::TopK { k } => {
                law_ranking(init);
                let r = ranked(init);
                assert forall|i: int| 0 <= i < r.len() implies may_see(c, p, (#[trigger] r[i]).0) by {
                    assert(r.contains(r[i]));
                    lemma_ranked_from(init, r[i]);
                    let j = choose|j: int| 0 <= j < init.len() && init[j] == r[i];
                    assert(may_see(c, p, init[j].0));
                }
            },
        }
        assert(all_seen(c, p, out));
    }
}

} // verus!
