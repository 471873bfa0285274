//! What a composed read answers, step by step, said of the edges, labels and scores it starts from.
use super::{
    add_targets, among, catalog_labels_fit, dist_to, distances, expanded, may_see, piped,
    scored_hits, seen_of, sourced, visible_of_type, KernelModel, Pipeline,
    transformed, Principal, Scored, Transform,
};
use crate::catalog::CatalogModel;
use crate::fact::{FieldId, NodeId};
use crate::fold::model::SnapshotModel;
use crate::objkey::ObjModel;
use crate::ordmap::{lemma_sorted_items, sorted_items};
use crate::query::graph::targets;
use crate::query::stored::{holds_edge, law_hop_follows_edges};
use crate::hybrid::{lemma_all_hit, scope_of};
use crate::rank::{law_ranking, lemma_ranked_from, ranked};
use crate::vector::{hit_ids, law_top_k_is_nearest, nearer, top_k, VectorIndex};
use crate::version::VersionVector;
use vstd::prelude::*;

verus! {

/// Whether a node is unlabelled, or its label is one of the principal's mask.
pub open spec fn cleared(c: CatalogModel, p: Principal, n: NodeId) -> bool {
    c.node_labels.contains_key(n) ==> p.allowed_labels & (1u32 << (c.node_labels[n] as u32)) != 0
}

/// The sets of a snapshot are finite, as every snapshot that is held has them.
pub open spec fn finite_sets(s: SnapshotModel) -> bool {
    forall|a: NodeId, p: FieldId| #[trigger]
        s.many.contains_key((a, p)) ==> s.many[(a, p)].finite()
}

/// A principal sees what is unlabelled and what bears a label of its mask, and nothing else.
pub proof fn law_principal_sees(c: CatalogModel, p: Principal, n: NodeId)
    requires
        catalog_labels_fit(c),
    ensures
        may_see(c, p, n) <==> cleared(c, p, n),
{
    if c.node_labels.contains_key(n) {
        let m = p.allowed_labels;
        let l = c.node_labels[n] as u32;
        assert(((m >> l) & 1 == 1) == (m & (1u32 << l) != 0)) by (bit_vector)
            requires
                l < 32,
        ;
    }
}

/// A source of named nodes keeps those that the principal sees, in their order and as often as they
/// are named, each with the score one; the others it drops.
pub proof fn law_point_source(c: CatalogModel, p: Principal, a: Seq<NodeId>, n: NodeId, b: Seq<NodeId>)
    requires
        catalog_labels_fit(c),
    ensures
        seen_of(c, p, Seq::empty()) == Seq::<Scored>::empty(),
        cleared(c, p, n) ==> seen_of(c, p, seq![n]) == seq![(n, 0x3f80_0000u32)],
        !cleared(c, p, n) ==> seen_of(c, p, seq![n]) == Seq::<Scored>::empty(),
        seen_of(c, p, a + b) == seen_of(c, p, a) + seen_of(c, p, b),
    decreases b.len(),
{
    law_principal_sees(c, p, n);
    assert(seq![n].drop_last() =~= Seq::empty());
    assert(seen_of(c, p, Seq::empty()) =~= Seq::<Scored>::empty());
    if cleared(c, p, n) {
        assert(seen_of(c, p, seq![n]) =~= seq![(n, 0x3f80_0000u32)]);
    }
    if b.len() == 0 {
        assert(a + b =~= a);
        assert(seen_of(c, p, a) + seen_of(c, p, b) =~= seen_of(c, p, a));
    } else {
        law_point_source(c, p, a, n, b.drop_last());
        assert((a + b).drop_last() =~= a + b.drop_last());
        assert((a + b).last() == b.last());
        assert(seen_of(c, p, a + b) =~= seen_of(c, p, a) + seen_of(c, p, b));
    }
}

/// Whether no node is there twice.
spec fn each_once(v: Seq<Scored>) -> bool {
    forall|i: int, j: int| 0 <= i < j < v.len() ==> (#[trigger] v[i]).0 != (#[trigger] v[j]).0
}

proof fn lemma_among_push(v: Seq<Scored>, x: Scored, n: NodeId)
    ensures
        among(v.push(x), n) == (among(v, n) || x.0 == n),
{
    let w = v.push(x);
    if among(v, n) {
        let i = choose|i: int| 0 <= i < v.len() && (#[trigger] v[i]).0 == n;
        assert(w[i].0 == n);
    }
    assert(w[v.len() as int] == x);
    if among(w, n) && x.0 != n {
        let i = choose|i: int| 0 <= i < w.len() && (#[trigger] w[i]).0 == n;
        assert(v[i].0 == n);
    }
}

proof fn lemma_added(c: CatalogModel, p: Principal, next: Seq<Scored>, list: Seq<NodeId>)
    requires
        each_once(next),
        forall|i: int, j: int| 0 <= i < j < list.len() ==> #[trigger] list[i] < #[trigger] list[j],
    ensures
        ({
            let r = add_targets(c, p, next, list);
            &&& each_once(r)
            &&& r.len() >= next.len()
            &&& forall|i: int| 0 <= i < next.len() ==> #[trigger] r[i] == next[i]
            &&& forall|i: int|
                next.len() <= i < r.len() ==> (#[trigger] r[i]).1 == 0x3f80_0000u32
                    && list.contains(r[i].0) && !among(next, r[i].0)
            &&& forall|i: int, j: int|
                next.len() <= i < j < r.len() ==> (#[trigger] r[i]).0 < (#[trigger] r[j]).0
            &&& forall|n: NodeId| #[trigger]
                among(r, n) <==> among(next, n) || (list.contains(n) && may_see(c, p, n))
        }),
    decreases list.len(),
{
    let r = add_targets(c, p, next, list);
    if list.len() > 0 {
        let init = list.drop_last();
        let x = list.last();
        assert forall|i: int, j: int| 0 <= i < j < init.len() implies #[trigger] init[i]
            < #[trigger] init[j] by {
            assert(list[i] < list[j]);
        }
        lemma_added(c, p, next, init);
        let q = add_targets(c, p, next, init);
        assert forall|n: NodeId| #[trigger] list.contains(n) == (init.contains(n) || n == x) by {
            if list.contains(n) && n != x {
                let i = choose|i: int| 0 <= i < list.len() && list[i] == n;
                assert(init[i] == n);
            }
            if init.contains(n) {
                let i = choose|i: int| 0 <= i < init.len() && init[i] == n;
                assert(list[i] == n);
            }
            assert(list[list.len() - 1] == x);
        }
        if may_see(c, p, x) && !among(q, x) {
            assert(r == q.push((x, super::UNIT_SCORE)));
            assert forall|n: NodeId| #[trigger] among(r, n) == (among(next, n) || (list.contains(n)
                && may_see(c, p, n))) by {
                lemma_among_push(q, (x, super::UNIT_SCORE), n);
                assert(list.contains(n) == (init.contains(n) || n == x));
            }
            assert forall|i: int, j: int| 0 <= i < j < r.len() implies (#[trigger] r[i]).0 != (
            #[trigger] r[j]).0 by {
                if j == q.len() {
                    assert(q[i].0 != x);
                }
            }
            assert forall|i: int, j: int| next.len() <= i < j < r.len() implies (#[trigger] r[i]).0 < (
            #[trigger] r[j]).0 by {
                if j == q.len() {
                    assert(init.contains(q[i].0));
                    let a = choose|a: int| 0 <= a < init.len() && init[a] == q[i].0;
                    assert(list[a] < list[list.len() - 1]);
                }
            }
            assert forall|i: int| next.len() <= i < r.len() implies (#[trigger] r[i]).1
                == 0x3f80_0000u32 && list.contains(r[i].0) && !among(next, r[i].0) by {
                if i < q.len() {
                    assert(init.contains(q[i].0));
                } else {
                    assert(list.contains(x));
                    assert(among(next, x) ==> among(q, x));
                }
            }
        } else {
            assert(r == q);
            assert forall|n: NodeId| #[trigger] among(r, n) == (among(next, n) || (list.contains(n)
                && may_see(c, p, n))) by {
                assert(list.contains(n) == (init.contains(n) || n == x));
                assert(among(q, n) == (among(next, n) || (init.contains(n) && may_see(c, p, n))));
            }
            assert forall|i: int| next.len() <= i < r.len() implies (#[trigger] r[i]).1
                == 0x3f80_0000u32 && list.contains(r[i].0) && !among(next, r[i].0) by {
                assert(init.contains(q[i].0));
            }
        }
    }
}

proof fn lemma_targets_finite(s: SnapshotModel, a: NodeId, p: FieldId)
    requires
        finite_sets(s),
    ensures
        targets(s, None, a, p).finite(),
{
    let t = targets(s, None, a, p);
    let node = |o: ObjModel|
        match o {
            ObjModel::Node(b) => b,
            _ => 0u64,
        };
    let many = if s.many.contains_key((a, p)) {
        s.many[(a, p)]
    } else {
        Set::empty()
    };
    let one = if s.one.contains_key((a, p)) && s.one[(a, p)] is Some {
        node(s.one[(a, p)]->0)
    } else {
        0u64
    };
    many.lemma_map_finite(node);
    let big = many.map(node).insert(one);
    assert forall|b: NodeId| #[trigger] t.contains(b) implies big.contains(b) by {
        law_hop_follows_edges(s, a, p, b, 0);
        if many.contains(ObjModel::Node(b)) {
            assert(node(ObjModel::Node(b)) == b);
        }
    }
    assert(t.subset_of(big));
    vstd::set_lib::lemma_set_subset_finite(big, t);
}

/// Whether some node of a frontier has an edge of the predicate to `n`.
pub open spec fn leads_to(s: SnapshotModel, v: Seq<Scored>, predicate: FieldId, n: NodeId) -> bool {
    exists|j: int| 0 <= j < v.len() && holds_edge(s, (#[trigger] v[j]).0, predicate, n)
}

/// An expansion step goes on from every node of its input: a node is in its result exactly where some
/// node of the input has an edge of the predicate to it and the principal sees it. Each node is there
/// once, with the score one.
pub proof fn law_expand_step(
    s: SnapshotModel,
    c: CatalogModel,
    p: Principal,
    v: Seq<Scored>,
    predicate: FieldId,
)
    requires
        catalog_labels_fit(c),
        finite_sets(s),
    ensures
        ({
            let r = transformed(s, c, p, v, Transform::Expand { predicate });
            &&& forall|n: NodeId|
                (exists|i: int| 0 <= i < r.len() && (#[trigger] r[i]).0 == n) <==> (
                #[trigger] leads_to(s, v, predicate, n) && cleared(c, p, n))
            &&& forall|i: int, j: int|
                0 <= i < j < r.len() ==> (#[trigger] r[i]).0 != (#[trigger] r[j]).0
            &&& forall|i: int| 0 <= i < r.len() ==> (#[trigger] r[i]).1 == 0x3f80_0000u32
        }),
    decreases v.len(),
{
    let r = expanded(s, c, p, v, predicate);
    if v.len() == 0 {
        assert forall|n: NodeId| !#[trigger] leads_to(s, v, predicate, n) by {}
    } else {
        let init = v.drop_last();
        let a = v.last().0;
        law_expand_step(s, c, p, init, predicate);
        lemma_targets_finite(s, a, predicate);
        let t = targets(s, None, a, predicate);
        lemma_sorted_items::<NodeId>(t);
        let list = sorted_items::<NodeId>(t);
        let q = expanded(s, c, p, init, predicate);
        assert(q == transformed(s, c, p, init, Transform::Expand { predicate }));
        lemma_added(c, p, q, list);
        assert(r == transformed(s, c, p, v, Transform::Expand { predicate }));
        assert forall|i: int| 0 <= i < r.len() implies (#[trigger] r[i]).1 == 0x3f80_0000u32 by {
            if i < q.len() {
                assert(r[i] == q[i]);
            }
        }
        assert forall|n: NodeId|
            (exists|i: int| 0 <= i < r.len() && (#[trigger] r[i]).0 == n) == (#[trigger] leads_to(
                s,
                v,
                predicate,
                n,
            ) && cleared(c, p, n)) by {
            law_principal_sees(c, p, n);
            law_hop_follows_edges(s, a, predicate, n, 0);
            assert(list.contains(n) == list.to_set().contains(n));
            assert(among(r, n) == (among(q, n) || (list.contains(n) && may_see(c, p, n))));
            assert(among(q, n) == (leads_to(s, init, predicate, n) && cleared(c, p, n)));
            assert(leads_to(s, v, predicate, n) == (leads_to(s, init, predicate, n) || holds_edge(
                s,
                a,
                predicate,
                n,
            ))) by {
                if leads_to(s, init, predicate, n) {
                    let j = choose|j: int|
                        0 <= j < init.len() && holds_edge(s, (#[trigger] init[j]).0, predicate, n);
                    assert(v[j] == init[j]);
                }
                if leads_to(s, v, predicate, n) {
                    let j = choose|j: int|
                        0 <= j < v.len() && holds_edge(s, (#[trigger] v[j]).0, predicate, n);
                    if j < init.len() {
                        assert(init[j] == v[j]);
                    }
                }
                assert(v[v.len() - 1].0 == a);
            }
        }
    }
}

/// An expansion lists its nodes in the order of discovery: those found from an earlier node of the
/// input come first, those found from the same one by id.
pub proof fn law_expand_order(
    s: SnapshotModel,
    c: CatalogModel,
    p: Principal,
    v: Seq<Scored>,
    predicate: FieldId,
    i: int,
    j: int,
)
    requires
        catalog_labels_fit(c),
        finite_sets(s),
        0 <= i < j < transformed(s, c, p, v, Transform::Expand { predicate }).len(),
    ensures
        ({
            let r = transformed(s, c, p, v, Transform::Expand { predicate });
            exists|x: int|
                0 <= x < v.len() && holds_edge(s, (#[trigger] v[x]).0, predicate, r[i].0) && forall|
                    y: int,
                |
                    0 <= y < v.len() && holds_edge(s, (#[trigger] v[y]).0, predicate, r[j].0) ==> x
                        < y || (x == y && r[i].0 < r[j].0)
        }),
    decreases v.len(),
{
    let r = expanded(s, c, p, v, predicate);
    let init = v.drop_last();
    let a = v.last().0;
    let last = v.len() - 1;
    law_expand_step(s, c, p, init, predicate);
    lemma_targets_finite(s, a, predicate);
    let t = targets(s, None, a, predicate);
    lemma_sorted_items::<NodeId>(t);
    let list = sorted_items::<NodeId>(t);
    let q = expanded(s, c, p, init, predicate);
    assert(q == transformed(s, c, p, init, Transform::Expand { predicate }));
    lemma_added(c, p, q, list);
    assert(v[last].0 == a);
    if j < q.len() {
        law_expand_order(s, c, p, init, predicate, i, j);
        let x = choose|x: int|
            0 <= x < init.len() && holds_edge(s, (#[trigger] init[x]).0, predicate, q[i].0) && forall|
                y: int,
            |
                0 <= y < init.len() && holds_edge(s, (#[trigger] init[y]).0, predicate, q[j].0)
                    ==> x < y || (x == y && q[i].0 < q[j].0);
        assert(v[x] == init[x]);
        assert forall|y: int|
            0 <= y < v.len() && holds_edge(s, (#[trigger] v[y]).0, predicate, r[j].0) implies x < y
            || (x == y && r[i].0 < r[j].0) by {
            if y < last {
                assert(init[y] == v[y]);
            }
        }
    } else {
        // Found from the last node alone: it is cleared, and not there before.
        let n = r[j].0;
        assert(among(r, n));
        law_principal_sees(c, p, n);
        assert(!among(q, n));
        assert(leads_to(s, init, predicate, n) && cleared(c, p, n) ==> among(q, n));
        assert(cleared(c, p, n));
        assert forall|y: int| 0 <= y < last && holds_edge(
            s,
            (#[trigger] v[y]).0,
            predicate,
            n,
        ) implies false by {
            assert(init[y] == v[y]);
            assert(leads_to(s, init, predicate, n));
        }
        if i < q.len() {
            assert(among(q, q[i].0));
            assert(leads_to(s, init, predicate, q[i].0));
            let x = choose|x: int|
                0 <= x < init.len() && holds_edge(s, (#[trigger] init[x]).0, predicate, q[i].0);
            assert(v[x] == init[x]);
        } else {
            law_hop_follows_edges(s, a, predicate, r[i].0, 0);
            assert(list.to_set().contains(r[i].0));
            assert(holds_edge(s, v[last].0, predicate, r[i].0));
        }
    }
}

/// A step to the best keeps the `k` of the highest score, on a tie of the smaller id: it is the front
/// of the whole input put in that order, and all of it where there are no more than `k`.
pub proof fn law_best_step(
    s: SnapshotModel,
    c: CatalogModel,
    p: Principal,
    v: Seq<Scored>,
    k: usize,
)
    ensures
        ({
            let r = transformed(s, c, p, v, Transform::TopK { k });
            exists|all: Seq<Scored>|
                {
                    &&& #[trigger] all.to_multiset() == v.to_multiset()
                    &&& forall|i: int, j: int|
                        0 <= i < j < all.len() ==> (#[trigger] all[i]).1 > (#[trigger] all[j]).1
                            || (all[i].1 == all[j].1 && all[i].0 <= all[j].0)
                    &&& r.len() == if k <= v.len() {
                        k as nat
                    } else {
                        v.len()
                    }
                    &&& forall|i: int| 0 <= i < r.len() ==> #[trigger] r[i] == all[i]
                }
        }),
{
    law_ranking(v);
    let all = ranked(v);
    assert forall|i: int, j: int| 0 <= i < j < all.len() implies (#[trigger] all[i]).1 > (
    #[trigger] all[j]).1 || (all[i].1 == all[j].1 && all[i].0 <= all[j].0) by {}
    assert(all.to_multiset() == v.to_multiset());
}

/// A pipeline is its steps one after another, and never lets more than the bound through: without
/// steps it gives the front of its source; with one more step the front of what that step makes of
/// the rest. The bound cuts from the end and changes nothing else.
pub proof fn law_steps_compose(
    s: SnapshotModel,
    c: CatalogModel,
    p: Principal,
    v: Seq<Scored>,
    ts: Seq<Transform>,
    t: Transform,
    bound: nat,
    i: int,
)
    ensures
        ({
            let r = piped(s, c, p, v, Seq::empty(), bound);
            &&& r.len() == if bound <= v.len() {
                bound
            } else {
                v.len()
            }
            &&& 0 <= i < r.len() ==> r[i] == v[i]
        }),
        ({
            let r = piped(s, c, p, v, ts.push(t), bound);
            let all = transformed(s, c, p, piped(s, c, p, v, ts, bound), t);
            &&& r.len() == if bound <= all.len() {
                bound
            } else {
                all.len()
            }
            &&& 0 <= i < r.len() ==> r[i] == all[i]
        }),
{
    assert(ts.push(t).drop_last() =~= ts);
}

/// The hits of a search keep their nodes and their order, each with the score that its distance
/// gives; hits at the same distance score alike.
pub proof fn law_hits_are_scored(hits: Seq<(NodeId, u32)>, relevance: spec_fn(u32) -> u32, i: int, j: int)
    requires
        0 <= i < hits.len(),
        0 <= j < hits.len(),
    ensures
        scored_hits(hits, relevance).len() == hits.len(),
        scored_hits(hits, relevance)[i].0 == hits[i].0,
        scored_hits(hits, relevance)[i].1 == relevance(hits[i].1),
        hits[i].1 == hits[j].1 ==> scored_hits(hits, relevance)[i].1 == scored_hits(
            hits,
            relevance,
        )[j].1,
{
}

/// Whether no step expands.
pub open spec fn only_picks(ts: Seq<Transform>) -> bool {
    forall|i: int| 0 <= i < ts.len() ==> (#[trigger] ts[i]) is TopK
}

/// Without expansion, what comes out is among what came in.
pub proof fn law_picks_are_from_source(
    s: SnapshotModel,
    c: CatalogModel,
    p: Principal,
    v: Seq<Scored>,
    ts: Seq<Transform>,
    bound: nat,
)
    requires
        only_picks(ts),
    ensures
        forall|i: int|
            0 <= i < piped(s, c, p, v, ts, bound).len() ==> v.contains(
                #[trigger] piped(s, c, p, v, ts, bound)[i],
            ),
    decreases ts.len(),
{
    let r = piped(s, c, p, v, ts, bound);
    if ts.len() > 0 {
        let init = ts.drop_last();
        assert forall|i: int| 0 <= i < init.len() implies (#[trigger] init[i]) is TopK by {
            assert(ts[i] is TopK);
        }
        law_picks_are_from_source(s, c, p, v, init, bound);
        let q = piped(s, c, p, v, init, bound);
        assert(ts[ts.len() - 1] is TopK);
        law_ranking(q);
        assert forall|i: int| 0 <= i < r.len() implies v.contains(#[trigger] r[i]) by {
            assert(ranked(q)[i] == r[i]);
            assert(ranked(q).contains(r[i]));
            lemma_ranked_from(q, r[i]);
            let j = choose|j: int| 0 <= j < q.len() && q[j] == r[i];
            assert(v.contains(q[j]));
        }
    } else {
        assert forall|i: int| 0 <= i < r.len() implies v.contains(#[trigger] r[i]) by {
            assert(v[i] == r[i]);
        }
    }
}

/// What a search source gives over exact vectors. Its nodes are embedded, of the type asked for in the
/// catalog, seen by the principal, and in strict mode indexed before the pinned watermark; each has the
/// score of the distance of its own vector to the query. They are as many as asked for, or all there
/// are; the nearest come first, and none that is left out is nearer.
pub proof fn law_search_source(
    c: CatalogModel,
    index: VectorIndex,
    m: KernelModel,
    pipeline: Pipeline,
    p: Principal,
    vv: VersionVector,
    n: NodeId,
)
    requires
        catalog_labels_fit(c),
        index@.entries.dom().finite(),
        pipeline.source is TypeAnn,
    ensures
        ({
            let r = sourced(c, index, m, pipeline, p, vv);
            let q = pipeline.source->q@;
            let eligible = index@.entries.contains_key(n) && (pipeline.mode is Strict
                ==> index@.entries[n].seqno < vv.vector_watermark) && c.node_types.contains_key(n)
                && c.node_types[n] == pipeline.source->target_type && cleared(c, p, n);
            let d = (m.dist)(q, index@.entries[n].emb);
            &&& r.len() <= pipeline.source->k
            &&& forall|i: int|
                0 <= i < r.len() && (#[trigger] r[i]).0 == n ==> eligible && r[i].1 == (m.relevance)(
                    d,
                )
            &&& eligible ==> {
                ||| exists|i: int| 0 <= i < r.len() && (#[trigger] r[i]).0 == n
                ||| r.len() == pipeline.source->k && forall|i: int|
                    0 <= i < r.len() ==> (m.dist)(q, index@.entries[(#[trigger] r[i]).0].emb) <= d
            }
            &&& forall|i: int, j: int|
                0 <= i < j < r.len() ==> (#[trigger] r[i]).0 != (#[trigger] r[j]).0 && (m.dist)(
                    q,
                    index@.entries[r[i].0].emb,
                ) <= (m.dist)(q, index@.entries[r[j].0].emb)
        }),
{
    let q = pipeline.source->q@;
    let ty = pipeline.source->target_type;
    let k = pipeline.source->k as nat;
    let dist = dist_to(m.dist, q);
    let scope = scope_of(vv, pipeline.mode);
    let kept = visible_of_type(c, p, ty);
    let d = distances(index@, dist, scope, kept);
    let hits = top_k(d, k);
    let r = sourced(c, index, m, pipeline, p, vv);
    assert(r == scored_hits(hits, m.relevance));
    assert(d.dom().subset_of(index@.entries.dom()));
    vstd::set_lib::lemma_len_subset(d.dom(), index@.entries.dom());
    law_top_k_is_nearest(d, k);
    law_principal_sees(c, p, n);
    assert forall|i: int| 0 <= i < r.len() implies (#[trigger] r[i]).0 == hits[i].0
        && d.contains_key(hits[i].0) && d[hits[i].0] == hits[i].1 && hits[i].1 == (m.dist)(
        q,
        index@.entries[hits[i].0].emb,
    ) by {
        assert(d.contains_key(hits[i].0));
    }
    assert forall|i: int, j: int| 0 <= i < j < r.len() implies (#[trigger] r[i]).0 != (
    #[trigger] r[j]).0 && (m.dist)(q, index@.entries[r[i].0].emb) <= (m.dist)(
        q,
        index@.entries[r[j].0].emb,
    ) by {
        assert(nearer(hits[i], hits[j]));
    }
    if d.contains_key(n) && !exists|i: int| 0 <= i < r.len() && (#[trigger] r[i]).0 == n {
        let ids = hit_ids(hits);
        if ids.contains(n) {
            let i = choose|i: int| 0 <= i < ids.len() && ids[i] == n;
            assert(r[i].0 == n);
        }
        if k >= d.dom().len() {
            lemma_all_hit(d, k, n);
        }
        assert forall|i: int| 0 <= i < r.len() implies (m.dist)(
            q,
            index@.entries[(#[trigger] r[i]).0].emb,
        ) <= (m.dist)(q, index@.entries[n].emb) by {
            assert(nearer(hits[i], (n, d[n])));
        }
    }
}

} // verus!
