//! Label-based access: a principal sees what is unlabelled, and what bears a label of its mask.
use crate::fact::{FieldId, NodeId};
use crate::fold::model::SnapshotModel;
use crate::fold::Snapshot;
use crate::ordmap::{lemma_key_row, lemma_row, row_of, OrdSet};
use vstd::prelude::*;

verus! {

/// Whether a mask allows a label: its bit is set.
pub open spec fn allows(labels: u32, label: u8) -> bool {
    (labels >> (label as u32)) & 1 == 1
}

/// Whether a mask allows a label. Labels are bit positions of the mask.
pub fn mask_allows(labels: u32, label: u8) -> (r: bool)
    requires
        label < 32,
    ensures
        r == allows(labels, label),
{
    (labels >> (label as u32)) & 1 == 1
}

/// Every label in the snapshot is a bit position of a mask.
pub open spec fn labels_fit(s: SnapshotModel) -> bool {
    forall|n: NodeId| #[trigger] s.node_labels.contains_key(n) ==> s.node_labels[n] < 32
}

/// Whether a node is visible: unlabelled, or of an allowed label.
pub open spec fn sees(s: SnapshotModel, n: NodeId, labels: u32) -> bool {
    s.node_labels.contains_key(n) ==> allows(labels, s.node_labels[n])
}

/// Whether `node` is visible to a principal with these labels.
pub fn visible(snap: &Snapshot, node: NodeId, labels: u32) -> (r: bool)
    requires
        labels_fit(snap@),
    ensures
        r == sees(snap@, node, labels),
{
    match snap.node_labels.get(&node) {
        Some(l) => {
            assert(snap@.node_labels.contains_key(node));
            mask_allows(labels, *l)
        },
        None => true,
    }
}

/// The nodes of an entity type.
pub open spec fn typed(s: SnapshotModel, ty: FieldId) -> Set<NodeId> {
    Set::new(|n: NodeId| s.node_types.contains_key(n) && s.node_types[n] == ty)
}

/// The visible nodes of an entity type.
pub open spec fn typed_visible(s: SnapshotModel, ty: FieldId, labels: u32) -> Set<NodeId> {
    Set::new(
        |n: NodeId|
            s.node_types.contains_key(n) && s.node_types[n] == ty && sees(s, n, labels),
    )
}

/// The nodes of an entity type.
pub fn nodes_of_type(snap: &Snapshot, ty: FieldId) -> (r: OrdSet<NodeId>)
    ensures
        r@ == typed(snap@, ty),
{
    let mut out: OrdSet<NodeId> = OrdSet::new();
    let n: usize = snap.node_types.len();
    let ghost s = snap.node_types.rows();
    let mut i: usize = 0;
    while i < n
        invariant
            i <= n,
            n == s.len(),
            s == snap.node_types.rows(),
            forall|x: NodeId| #[trigger]
                out@.contains(x) <==> exists|j: int|
                    0 <= j < i && #[trigger] s[j] == (x, ty),
        decreases n - i,
    {
        let x: NodeId = *snap.node_types.key_at(i);
        let t: FieldId = *snap.node_types.value_at(i);
        assert(s[i as int] == (x, t));
        if t == ty {
            out.insert(x);
        }
        i += 1;
    }
    proof {
        assert forall|x: NodeId| #[trigger] out@.contains(x) == typed(snap@, ty).contains(x) by {
            if out@.contains(x) {
                let j = choose|j: int| 0 <= j < n && #[trigger] s[j] == (x, ty);
                lemma_row::<NodeId, FieldId>(s, j);
            }
            if typed(snap@, ty).contains(x) {
                lemma_key_row::<NodeId, FieldId>(s, x);
                assert(s[row_of(s, x)] == (x, ty));
            }
        }
        assert(out@ =~= typed(snap@, ty));
    }
    out
}

/// The visible nodes of an entity type.
pub fn visible_of_type(snap: &Snapshot, ty: FieldId, labels: u32) -> (r: OrdSet<NodeId>)
    requires
        labels_fit(snap@),
    ensures
        r@ == typed_visible(snap@, ty, labels),
{
    let all = nodes_of_type(snap, ty);
    let mut out: OrdSet<NodeId> = OrdSet::new();
    let n: usize = all.len();
    let mut i: usize = 0;
    while i < n
        invariant
            i <= n,
            n == all.items().len(),
            labels_fit(snap@),
            forall|x: NodeId| #[trigger]
                out@.contains(x) <==> all.items().take(i as int).contains(x) && sees(
                    snap@,
                    x,
                    labels,
                ),
        decreases n - i,
    {
        proof {
            crate::ordmap::lemma_take_contains(all.items(), i as int);
        }
        let x: NodeId = *all.at(i);
        if visible(snap, x, labels) {
            out.insert(x);
        }
        i += 1;
    }
    proof {
        assert(all.items().take(n as int) =~= all.items());
        assert forall|x: NodeId| #[trigger] out@.contains(x) == typed_visible(
            snap@,
            ty,
            labels,
        ).contains(x) by {
            assert(all@.contains(x) == all.items().contains(x));
        }
        assert(out@ =~= typed_visible(snap@, ty, labels));
    }
    out
}

/// A mask is a set of labels: the empty one allows none, the full one all, that of one label this one
/// alone; two masks joined allow what either does, and their common part what both do.
pub proof fn law_mask_is_a_set(a: u32, b: u32, label: u8, other: u8)
    requires
        label < 32,
        other < 32,
    ensures
        !allows(0, label),
        allows(u32::MAX, label),
        allows(1u32 << (label as u32), other) <==> label == other,
        allows(a | b, label) <==> allows(a, label) || allows(b, label),
        allows(a & b, label) <==> allows(a, label) && allows(b, label),
{
    let l = label as u32;
    let o = other as u32;
    assert((0u32 >> l) & 1 == 0) by (bit_vector)
        requires
            l < 32,
    ;
    assert((0xffff_ffffu32 >> l) & 1 == 1) by (bit_vector)
        requires
            l < 32,
    ;
    assert((((1u32 << l) >> o) & 1 == 1) == (l == o)) by (bit_vector)
        requires
            l < 32,
            o < 32,
    ;
    assert((((a | b) >> l) & 1 == 1) == ((a >> l) & 1 == 1 || (b >> l) & 1 == 1)) by (bit_vector)
        requires
            l < 32,
    ;
    assert((((a & b) >> l) & 1 == 1) == ((a >> l) & 1 == 1 && (b >> l) & 1 == 1)) by (bit_vector)
        requires
            l < 32,
    ;
}

/// Who sees what: an unlabelled node anyone; a labelled one nobody without labels, whoever has its
/// label, and nobody who has only others; more labels never see less.
pub proof fn law_labels_decide(s: SnapshotModel, n: NodeId, mask: u32, more: u32)
    requires
        labels_fit(s),
    ensures
        !s.node_labels.contains_key(n) ==> sees(s, n, mask),
        s.node_labels.contains_key(n) ==> {
            let own = 1u32 << (s.node_labels[n] as u32);
            &&& !sees(s, n, 0)
            &&& sees(s, n, mask | own)
            &&& !sees(s, n, mask & !own)
        },
        sees(s, n, mask) ==> sees(s, n, mask | more),
        sees(s, n, u32::MAX),
{
    if s.node_labels.contains_key(n) {
        let label = s.node_labels[n];
        let own = 1u32 << (label as u32);
        law_mask_is_a_set(mask, own, label, label);
        law_mask_is_a_set(mask, more, label, label);
        law_mask_is_a_set(mask, !own, label, label);
        let l = label as u32;
        assert((!(1u32 << l) >> l) & 1 == 0) by (bit_vector)
            requires
                l < 32,
        ;
    }
}

/// The nodes of a type are those that have it in the snapshot, and no other; the visible ones are
/// those of them without a label or with an allowed one. No node is of two types.
pub proof fn law_typed_nodes(s: SnapshotModel, ty: FieldId, other: FieldId, n: NodeId, mask: u32)
    requires
        labels_fit(s),
    ensures
        s.node_types.contains_key(n) ==> (typed(s, ty).contains(n) <==> ty == s.node_types[n]),
        !s.node_types.contains_key(n) ==> !typed(s, ty).contains(n),
        typed(s, ty).contains(n) && typed(s, other).contains(n) ==> ty == other,
        typed_visible(s, ty, mask).subset_of(typed(s, ty)),
        typed(s, ty).contains(n) ==> (typed_visible(s, ty, mask).contains(n) <==> (
        s.node_labels.contains_key(n) ==> mask & (1u32 << (s.node_labels[n] as u32)) != 0)),
        typed_visible(s, ty, u32::MAX) == typed(s, ty),
{
    if s.node_labels.contains_key(n) {
        let l = s.node_labels[n] as u32;
        assert(((mask >> l) & 1 == 1) == (mask & (1u32 << l) != 0)) by (bit_vector)
            requires
                l < 32,
        ;
    }
    assert forall|x: NodeId| #[trigger] typed(s, ty).contains(x) implies typed_visible(
        s,
        ty,
        u32::MAX,
    ).contains(x) by {
        law_labels_decide(s, x, 0, 0);
    }
    assert(typed_visible(s, ty, u32::MAX) =~= typed(s, ty));
}

} // verus!
