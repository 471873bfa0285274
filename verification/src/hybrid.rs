//! Type-aware search: nearest neighbours of one entity type, at a pinned version.
use crate::catalog::{Catalog, CatalogModel};
use crate::fact::{FieldId, NodeId};
use crate::vector::{
    hit_ids, in_scope, law_top_k_is_nearest, measures, nearer, scores, top_k, VectorIndex,
    VectorModel,
};
use crate::version::{ReadMode, VersionVector};
use vstd::prelude::*;

verus! {

/// Whether a node has an entity type.
pub open spec fn is_of_type(c: CatalogModel, n: NodeId, ty: FieldId) -> bool {
    c.node_types.contains_key(n) && c.node_types[n] == ty
}

/// The nodes of a type whose embeddings are in scope.
pub open spec fn typed_in_scope(
    v: VectorModel,
    c: CatalogModel,
    ty: FieldId,
    scope: Option<u64>,
) -> Set<NodeId> {
    Set::new(
        |n: NodeId|
            v.entries.contains_key(n) && in_scope(v.entries[n], scope) && is_of_type(c, n, ty),
    )
}

/// Distances as `dist` gives them, of exactly these nodes.
pub open spec fn measured<D: Fn(&Vec<u32>) -> u32>(
    v: VectorModel,
    dist: D,
    nodes: Set<NodeId>,
    d: Map<NodeId, u32>,
) -> bool {
    d.dom() == nodes && forall|n: NodeId| #[trigger]
        d.contains_key(n) ==> measures(dist, v.entries[n].emb, d[n])
}

/// The scope of a read: in strict mode what is indexed, in fresh mode all.
pub open spec fn scope_of(vv: VersionVector, mode: ReadMode) -> Option<u64> {
    match mode {
        ReadMode::Strict => Some(vv.vector_watermark),
        ReadMode::Fresh => None,
    }
}

fn ids_of(hits: &Vec<(NodeId, u32)>) -> (r: Vec<NodeId>)
    ensures
        r@ == hit_ids(hits@),
{
    let mut out: Vec<NodeId> = Vec::new();
    let mut i: usize = 0;
    while i < hits.len()
        invariant
            i <= hits.len(),
            out.len() == i,
            forall|j: int| 0 <= j < i ==> #[trigger] out@[j] == hits@[j].0,
        decreases hits.len() - i,
    {
        out.push(hits[i].0);
        i += 1;
    }
    assert(out@ =~= hit_ids(hits@));
    out
}

/// The `k` nearest nodes, whatever their type.
pub fn plain_ann<D: Fn(&Vec<u32>) -> u32>(index: &VectorIndex, dist: D, k: usize) -> (r: Vec<NodeId>)
    requires
        forall|e: &Vec<u32>| call_requires(dist, (e,)),
    ensures
        exists|d: Map<NodeId, u32>|
            #![trigger top_k(d, k as nat)]
            measured(index@, dist, index@.entries.dom(), d) && r@ == hit_ids(top_k(d, k as nat)),
{
    ids_of(&index.nearest(dist, k))
}

/// The `k` nearest nodes of a type.
pub fn type_aware<D: Fn(&Vec<u32>) -> u32>(
    index: &VectorIndex,
    catalog: &Catalog,
    dist: D,
    target_type: FieldId,
    k: usize,
) -> (r: Vec<NodeId>)
    requires
        forall|e: &Vec<u32>| call_requires(dist, (e,)),
    ensures
        exists|d: Map<NodeId, u32>|
            #![trigger top_k(d, k as nat)]
            measured(index@, dist, typed_in_scope(index@, catalog@, target_type, None), d) && r@
                == hit_ids(top_k(d, k as nat)),
        forall|i: int|
            0 <= i < r.len() ==> catalog@.node_types.contains_key(#[trigger] r@[i])
                && catalog@.node_types[r@[i]] == target_type,
{
    typed_nearest(index, catalog, dist, target_type, k, None)
}

fn typed_nearest<D: Fn(&Vec<u32>) -> u32>(
    index: &VectorIndex,
    catalog: &Catalog,
    dist: D,
    target_type: FieldId,
    k: usize,
    scope: Option<u64>,
) -> (r: Vec<NodeId>)
    requires
        forall|e: &Vec<u32>| call_requires(dist, (e,)),
    ensures
        exists|d: Map<NodeId, u32>|
            #![trigger top_k(d, k as nat)]
            measured(index@, dist, typed_in_scope(index@, catalog@, target_type, scope), d) && r@
                == hit_ids(top_k(d, k as nat)),
        forall|i: int|
            0 <= i < r.len() ==> catalog@.node_types.contains_key(#[trigger] r@[i])
                && catalog@.node_types[r@[i]] == target_type,
{
    let keep = |n: NodeId| -> (b: bool)
        ensures
            b == is_of_type(catalog@, n, target_type),
        {
            match catalog.node_type(n) {
                Some(t) => t == target_type,
                None => false,
            }
        };
    let hits = index.nearest_scoped(dist, k, scope, keep);
    proof {
        let d = choose|d: Map<NodeId, u32>|
            #![trigger top_k(d, k as nat)]
            scores(index@, dist, scope, keep, d) && hits@ == top_k(d, k as nat);
        let nodes = typed_in_scope(index@, catalog@, target_type, scope);
        assert forall|n: NodeId| #[trigger] d.dom().contains(n) == nodes.contains(n) by {
            if d.contains_key(n) {
                assert(call_ensures(keep, (n,), true));
            }
            if nodes.contains(n) && !d.contains_key(n) {
                assert(index@.entries.contains_key(n));
                assert(call_ensures(keep, (n,), false));
            }
        }
        assert(d.dom() =~= nodes);
        assert(measured(index@, dist, nodes, d));
        index.lemma_finite();
        law_typed_search(index@, catalog@, target_type, scope, d, k as nat);
    }
    ids_of(&hits)
}

/// The `k` nearest nodes of a type at a pinned version: in strict mode of what is indexed there, in
/// fresh mode of everything.
pub fn search<D: Fn(&Vec<u32>) -> u32>(
    index: &VectorIndex,
    catalog: &Catalog,
    dist: D,
    target_type: FieldId,
    k: usize,
    vv: &VersionVector,
    mode: ReadMode,
) -> (r: Vec<NodeId>)
    requires
        forall|e: &Vec<u32>| call_requires(dist, (e,)),
    ensures
        exists|d: Map<NodeId, u32>|
            #![trigger top_k(d, k as nat)]
            measured(
                index@,
                dist,
                typed_in_scope(index@, catalog@, target_type, scope_of(*vv, mode)),
                d,
            ) && r@ == hit_ids(top_k(d, k as nat)),
        forall|i: int|
            0 <= i < r.len() ==> catalog@.node_types.contains_key(#[trigger] r@[i])
                && catalog@.node_types[r@[i]] == target_type,
{
    let scope = match mode {
        ReadMode::Strict => Some(vv.vector_watermark),
        ReadMode::Fresh => None,
    };
    typed_nearest(index, catalog, dist, target_type, k, scope)
}

/// No hit is of another type.
pub proof fn law_no_type_violations(
    v: VectorModel,
    c: CatalogModel,
    ty: FieldId,
    scope: Option<u64>,
    d: Map<NodeId, u32>,
    k: nat,
)
    requires
        v.entries.dom().finite(),
        d.dom() == typed_in_scope(v, c, ty, scope),
    ensures
        forall|i: int|
            0 <= i < hit_ids(top_k(d, k)).len() ==> is_of_type(
                c,
                #[trigger] hit_ids(top_k(d, k))[i],
                ty,
            ),
{
    assert(d.dom().subset_of(v.entries.dom()));
    vstd::set_lib::lemma_len_subset(d.dom(), v.entries.dom());
    law_top_k_is_nearest(d, k);
    assert forall|i: int| 0 <= i < hit_ids(top_k(d, k)).len() implies is_of_type(
        c,
        #[trigger] hit_ids(top_k(d, k))[i],
        ty,
    ) by {
        assert(d.contains_key(top_k(d, k)[i].0));
    }
}

/// A fresh read closes the gap that a strict one leaves: everything in a strict read's scope is in
/// a fresh read's, and a strict hit that is not a fresh hit was displaced by `k` nearer ones. The two
/// reads measure the same distances where both look.
pub proof fn law_fresh_covers_strict(
    v: VectorModel,
    c: CatalogModel,
    ty: FieldId,
    vv: VersionVector,
    strict: Map<NodeId, u32>,
    fresh: Map<NodeId, u32>,
    k: nat,
)
    requires
        v.entries.dom().finite(),
        strict.dom() == typed_in_scope(v, c, ty, scope_of(vv, ReadMode::Strict)),
        fresh.dom() == typed_in_scope(v, c, ty, scope_of(vv, ReadMode::Fresh)),
        forall|n: NodeId| #[trigger] strict.contains_key(n) ==> fresh[n] == strict[n],
    ensures
        strict.dom().subset_of(fresh.dom()),
        forall|n: NodeId| #[trigger]
            hit_ids(top_k(strict, k)).contains(n) && !hit_ids(top_k(fresh, k)).contains(n) ==> {
                &&& top_k(fresh, k).len() == k
                &&& forall|i: int|
                    0 <= i < k ==> nearer(#[trigger] top_k(fresh, k)[i], (n, strict[n]))
            },
{
    assert(strict.dom().subset_of(fresh.dom()));
    assert(fresh.dom().subset_of(v.entries.dom()));
    vstd::set_lib::lemma_len_subset(fresh.dom(), v.entries.dom());
    vstd::set_lib::lemma_len_subset(strict.dom(), v.entries.dom());
    law_top_k_is_nearest(strict, k);
    law_top_k_is_nearest(fresh, k);
    assert forall|n: NodeId| #[trigger]
        hit_ids(top_k(strict, k)).contains(n) && !hit_ids(top_k(fresh, k)).contains(n) implies {
        &&& top_k(fresh, k).len() == k
        &&& forall|i: int| 0 <= i < k ==> nearer(#[trigger] top_k(fresh, k)[i], (n, strict[n]))
    } by {
        let i = choose|i: int|
            0 <= i < hit_ids(top_k(strict, k)).len() && hit_ids(top_k(strict, k))[i] == n;
        assert(strict.contains_key(top_k(strict, k)[i].0));
        assert(fresh.dom().contains(n));
        if k >= fresh.dom().len() {
            lemma_all_hit(fresh, k, n);
        }
        assert(fresh.contains_key(n) && fresh[n] == strict[n]);
    }
}

/// Where no more nodes are there than asked for, all are hits.
pub proof fn lemma_all_hit(d: Map<NodeId, u32>, k: nat, n: NodeId)
    requires
        d.dom().finite(),
        d.contains_key(n),
        k >= d.dom().len(),
    ensures
        hit_ids(top_k(d, k)).contains(n),
{
    law_top_k_is_nearest(d, k);
    let ids = hit_ids(top_k(d, k));
    if !ids.contains(n) {
        // The ids are distinct nodes of the map, as many as it has; one cannot be missing.
        assert(ids.no_duplicates()) by {
            assert forall|i: int, j: int|
                0 <= i < ids.len() && 0 <= j < ids.len() && i != j implies ids[i] != ids[j] by {
                let a = top_k(d, k)[i];
                let b = top_k(d, k)[j];
                assert(d.contains_key(a.0) && d[a.0] == a.1);
                assert(d.contains_key(b.0) && d[b.0] == b.1);
            }
        }
        ids.unique_seq_to_set();
        assert(ids.to_set().subset_of(d.dom().remove(n))) by {
            assert forall|x: NodeId| #[trigger] ids.to_set().contains(x) implies d.dom().remove(
                n,
            ).contains(x) by {
                let i = choose|i: int| 0 <= i < ids.len() && ids[i] == x;
                assert(d.contains_key(top_k(d, k)[i].0));
            }
        }
        vstd::set_lib::lemma_len_subset(ids.to_set(), d.dom().remove(n));
    }
}

/// What a typed search answers, by the catalog's types and the index's entries. Its candidates are
/// exactly the embedded nodes in scope whose type in the catalog is the one asked for. Its hits are
/// such nodes, each once, nearest first and on a tie the smaller id first; there are `k` of them, or
/// all candidates where these are fewer, and no candidate that is left out is nearer than a hit.
pub proof fn law_typed_search(
    v: VectorModel,
    c: CatalogModel,
    ty: FieldId,
    scope: Option<u64>,
    d: Map<NodeId, u32>,
    k: nat,
)
    requires
        v.entries.dom().finite(),
        d.dom() == typed_in_scope(v, c, ty, scope),
    ensures
        ({
            let hits = hit_ids(top_k(d, k));
            &&& forall|n: NodeId| #[trigger]
                d.contains_key(n) <==> v.entries.contains_key(n) && (scope is Some
                    ==> v.entries[n].seqno < scope->0) && c.node_types.contains_key(n)
                    && c.node_types[n] == ty
            &&& forall|i: int|
                0 <= i < hits.len() ==> {
                    let n = #[trigger] hits[i];
                    &&& c.node_types.contains_key(n) && c.node_types[n] == ty
                    &&& v.entries.contains_key(n)
                    &&& scope is Some ==> v.entries[n].seqno < scope->0
                }
            &&& forall|i: int, j: int|
                0 <= i < j < hits.len() ==> {
                    let (m, n) = (#[trigger] hits[i], #[trigger] hits[j]);
                    m != n && d[m] <= d[n] && (d[m] == d[n] ==> m < n)
                }
            &&& hits.len() == k || (hits.len() < k && forall|n: NodeId| #[trigger]
                d.contains_key(n) ==> hits.contains(n))
            &&& forall|n: NodeId, i: int|
                #![trigger d.contains_key(n), hits[i]]
                d.contains_key(n) && !hits.contains(n) && 0 <= i < hits.len() ==> d[hits[i]] <= d[n]
                    && (d[hits[i]] == d[n] ==> hits[i] < n)
        }),
{
    let hits = hit_ids(top_k(d, k));
    assert(d.dom().subset_of(v.entries.dom()));
    vstd::set_lib::lemma_len_subset(d.dom(), v.entries.dom());
    law_top_k_is_nearest(d, k);
    assert forall|i: int| 0 <= i < hits.len() implies d.contains_key(#[trigger] hits[i]) by {
        assert(d.contains_key(top_k(d, k)[i].0));
    }
    assert forall|i: int, j: int| 0 <= i < j < hits.len() implies {
        let (m, n) = (#[trigger] hits[i], #[trigger] hits[j]);
        m != n && d[m] <= d[n] && (d[m] == d[n] ==> m < n)
    } by {
        assert(nearer(top_k(d, k)[i], top_k(d, k)[j]));
        assert(d[top_k(d, k)[i].0] == top_k(d, k)[i].1);
        assert(d[top_k(d, k)[j].0] == top_k(d, k)[j].1);
    }
    assert forall|n: NodeId, i: int|
        #![trigger d.contains_key(n), hits[i]]
        d.contains_key(n) && !hits.contains(n) && 0 <= i < hits.len() implies d[hits[i]] <= d[n]
        && (d[hits[i]] == d[n] ==> hits[i] < n) by {
        assert(nearer(top_k(d, k)[i], (n, d[n])));
        assert(d[top_k(d, k)[i].0] == top_k(d, k)[i].1);
    }
    if hits.len() < k {
        assert forall|n: NodeId| #[trigger] d.contains_key(n) implies hits.contains(n) by {
            lemma_all_hit(d, k, n);
        }
    }
}

/// A strict read answers from what was indexed before the pinned watermark; a fresh one from every
/// embedding of the type.
pub proof fn law_read_modes(v: VectorModel, c: CatalogModel, ty: FieldId, vv: VersionVector, n: NodeId)
    ensures
        typed_in_scope(v, c, ty, scope_of(vv, ReadMode::Strict)).contains(n) <==> (
        v.entries.contains_key(n) && v.entries[n].seqno < vv.vector_watermark
            && c.node_types.contains_key(n) && c.node_types[n] == ty),
        typed_in_scope(v, c, ty, scope_of(vv, ReadMode::Fresh)).contains(n) <==> (
        v.entries.contains_key(n) && c.node_types.contains_key(n) && c.node_types[n] == ty),
{
}

} // verus!
