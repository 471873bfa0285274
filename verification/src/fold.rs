//! The fold: a stream of writes to the current graph state, per `(subject, predicate)`.
//!
//! The state of each key is a join-semilattice, so that the fold converges under any arrival order,
//! source partition or redelivery. A `One` key is a last-writer-wins register with history; a `Many`
//! key is an observed-remove set whose elements carry valid-time rows. A hard delete is a floor:
//! everything at or below it is gone, a later write survives.
pub mod bytes;
pub mod laws;
pub mod merge;
pub mod model;
pub mod observe;
pub mod state;

pub use observe::{Snapshot, VersionRow};

use crate::catalog::{Cardinality, Catalog, CatalogModel};
use crate::fact::{Fact, FieldId, NodeId};
pub use crate::objkey::{ObjKey, OrderKey};
use crate::objkey::object_model;
use crate::order::{Dup, Key};
use crate::ordmap::OrdMap;
use model::{
    all_fit, apply_prop, apply_write, at_or, empty_attr, empty_fold, fits, fold_writes, later_prop,
    write_key, write_node, FoldModel, PropModel, WriteModel,
};
use state::{lemma_remove_insert, KeyState, NodeAttrState, PropReg};
use vstd::prelude::*;

verus! {

/// A write with its order key. `SetOne` and `CloseOne` are for `One` keys, `AddMany`, `CloseMany`
/// and `RemoveMany` for `Many` keys; a `HardDelete` carries the cardinality of its key, so that it
/// can come before any other write.
#[derive(Clone, Debug)]
pub enum Op {
    SetOne {
        subject: NodeId,
        predicate: FieldId,
        object: ObjKey,
        valid_from: i64,
        valid_to: Option<i64>,
        ok: OrderKey,
    },
    CloseOne { subject: NodeId, predicate: FieldId, valid_from: i64, ok: OrderKey },
    AddMany {
        subject: NodeId,
        predicate: FieldId,
        object: ObjKey,
        valid_from: i64,
        valid_to: Option<i64>,
        ok: OrderKey,
    },
    /// End one element's interval. When it is the element's greatest live row the element is not
    /// present; as-of reads before `valid_from` still see the earlier adds.
    CloseMany {
        subject: NodeId,
        predicate: FieldId,
        object: ObjKey,
        valid_from: i64,
        ok: OrderKey,
    },
    RemoveMany { subject: NodeId, predicate: FieldId, observed: Vec<OrderKey> },
    HardDelete { subject: NodeId, predicate: FieldId, ok: OrderKey, cardinality: Cardinality },
    /// Set a property of an edge; the greatest order key wins per edge and property.
    SetEdgeProp {
        subject: NodeId,
        predicate: FieldId,
        object: ObjKey,
        key: String,
        value: ObjKey,
        ok: OrderKey,
    },
    /// Set a node's entity type; the greatest order key wins.
    SetNodeType { node: NodeId, type_id: FieldId, ok: OrderKey },
    /// Set a node's sensitivity label; the greatest order key wins.
    SetNodeLabel { node: NodeId, label: u8, ok: OrderKey },
}

impl Op {
    /// What the operation writes.
    pub open spec fn write(&self) -> WriteModel {
        match self {
            Op::SetOne { subject, predicate, object, valid_from, valid_to, ok } =>
            WriteModel::SetOne {
                subject: *subject,
                predicate: *predicate,
                object: object@,
                valid_from: *valid_from,
                valid_to: *valid_to,
            },
            Op::CloseOne { subject, predicate, valid_from, ok } => WriteModel::CloseOne {
                subject: *subject,
                predicate: *predicate,
                valid_from: *valid_from,
            },
            Op::AddMany { subject, predicate, object, valid_from, valid_to, ok } =>
            WriteModel::AddMany {
                subject: *subject,
                predicate: *predicate,
                object: object@,
                valid_from: *valid_from,
                valid_to: *valid_to,
            },
            Op::CloseMany { subject, predicate, object, valid_from, ok } => WriteModel::CloseMany {
                subject: *subject,
                predicate: *predicate,
                object: object@,
                valid_from: *valid_from,
            },
            Op::RemoveMany { subject, predicate, observed } => WriteModel::RemoveMany {
                subject: *subject,
                predicate: *predicate,
                observed: observed@,
            },
            Op::HardDelete { subject, predicate, ok, cardinality } => WriteModel::HardDelete {
                subject: *subject,
                predicate: *predicate,
                cardinality: *cardinality,
            },
            Op::SetEdgeProp { subject, predicate, object, key, value, ok } =>
            WriteModel::SetEdgeProp {
                subject: *subject,
                predicate: *predicate,
                object: object@,
                key: key@,
                value: value@,
            },
            Op::SetNodeType { node, type_id, ok } => WriteModel::SetNodeType {
                node: *node,
                type_id: *type_id,
            },
            Op::SetNodeLabel { node, label, ok } => WriteModel::SetNodeLabel {
                node: *node,
                label: *label,
            },
        }
    }

    /// The order key of the operation. A removal has none of its own: it names those it observed.
    pub open spec fn order(&self) -> OrderKey {
        match self {
            Op::SetOne { ok, .. } => *ok,
            Op::CloseOne { ok, .. } => *ok,
            Op::AddMany { ok, .. } => *ok,
            Op::CloseMany { ok, .. } => *ok,
            Op::RemoveMany { .. } => OrderKey { tx: 0, source: 0, seq: 0 },
            Op::HardDelete { ok, .. } => *ok,
            Op::SetEdgeProp { ok, .. } => *ok,
            Op::SetNodeType { ok, .. } => *ok,
            Op::SetNodeLabel { ok, .. } => *ok,
        }
    }

    /// The operation that asserts a fact, by the cardinality of its predicate; `None` where the
    /// predicate is not registered.
    pub fn assert_from(catalog: &Catalog, fact: &Fact, seq: u64) -> (r: Option<Op>)
        ensures
            r is Some == catalog@.predicates.contains_key(fact.predicate),
            r matches Some(op) ==> {
                &&& op.order() == (OrderKey {
                    tx: fact.transaction_time,
                    source: fact.provenance.source,
                    seq,
                })
                &&& op.write() == assertion_of(catalog@, *fact)
            },
    {
        let pred = match catalog.predicate(fact.predicate) {
            Some(p) => p,
            None => {
                return None;
            },
        };
        let ok = OrderKey { tx: fact.transaction_time, source: fact.provenance.source, seq };
        Some(
            match pred.cardinality {
                Cardinality::One => Op::SetOne {
                    subject: fact.subject,
                    predicate: fact.predicate,
                    object: ObjKey::of(&fact.object),
                    valid_from: fact.valid_time.from,
                    valid_to: fact.valid_time.to,
                    ok,
                },
                Cardinality::Many => Op::AddMany {
                    subject: fact.subject,
                    predicate: fact.predicate,
                    object: ObjKey::of(&fact.object),
                    valid_from: fact.valid_time.from,
                    valid_to: fact.valid_time.to,
                    ok,
                },
            },
        )
    }

    /// The graph key of a graph or edge-property operation. Node operations are routed by
    /// [`Op::node_attr_node`] instead.
    pub fn key(&self) -> (r: (NodeId, FieldId))
        requires
            write_key(self.write()) is Some,
        ensures
            r == write_key(self.write())->0,
    {
        match self {
            Op::SetOne { subject, predicate, .. } => (*subject, *predicate),
            Op::CloseOne { subject, predicate, .. } => (*subject, *predicate),
            Op::AddMany { subject, predicate, .. } => (*subject, *predicate),
            Op::CloseMany { subject, predicate, .. } => (*subject, *predicate),
            Op::RemoveMany { subject, predicate, .. } => (*subject, *predicate),
            Op::HardDelete { subject, predicate, .. } => (*subject, *predicate),
            Op::SetEdgeProp { subject, predicate, .. } => (*subject, *predicate),
            Op::SetNodeType { node, .. } => (*node, u32::MAX),
            Op::SetNodeLabel { node, .. } => (*node, u32::MAX),
        }
    }

    /// The node of a node-attribute operation; `None` for the others.
    pub fn node_attr_node(&self) -> (r: Option<NodeId>)
        ensures
            r == write_node(self.write()),
    {
        match self {
            Op::SetNodeType { node, .. } => Some(*node),
            Op::SetNodeLabel { node, .. } => Some(*node),
            _ => None,
        }
    }
}

/// The write that asserts a fact of a registered predicate.
pub open spec fn assertion_of(c: CatalogModel, fact: Fact) -> WriteModel {
    match c.predicates[fact.predicate].cardinality {
        Cardinality::One => WriteModel::SetOne {
            subject: fact.subject,
            predicate: fact.predicate,
            object: object_model(fact.object),
            valid_from: fact.valid_time.from,
            valid_to: fact.valid_time.to,
        },
        Cardinality::Many => WriteModel::AddMany {
            subject: fact.subject,
            predicate: fact.predicate,
            object: object_model(fact.object),
            valid_from: fact.valid_time.from,
            valid_to: fact.valid_time.to,
        },
    }
}

/// The folded state: graph keys, and the two stores that are independent of them, edge properties
/// and node attributes.
#[derive(Clone, Debug)]
pub struct Fold {
    pub(crate) keys: OrdMap<(NodeId, FieldId), KeyState>,
    pub(crate) edge_props: OrdMap<(NodeId, FieldId), OrdMap<ObjKey, OrdMap<String, PropReg>>>,
    pub(crate) node_attrs: OrdMap<NodeId, NodeAttrState>,
}

impl View for Fold {
    type V = FoldModel;

    closed spec fn view(&self) -> FoldModel {
        FoldModel {
            keys: self.keys@,
            edge_props: self.edge_props@,
            node_attrs: self.node_attrs@,
        }
    }
}

impl DeepView for Fold {
    type V = FoldModel;

    open spec fn deep_view(&self) -> FoldModel {
        self@
    }
}

impl Dup for Fold {
    fn dup(&self) -> (r: Self) {
        Fold {
            keys: self.keys.dup(),
            edge_props: self.edge_props.dup(),
            node_attrs: self.node_attrs.dup(),
        }
    }
}

impl Default for Fold {
    fn default() -> (r: Self)
        ensures
            r@ == empty_fold(),
    {
        Fold { keys: OrdMap::new(), edge_props: OrdMap::new(), node_attrs: OrdMap::new() }
    }
}

fn put_prop(
    objs: &mut OrdMap<ObjKey, OrdMap<String, PropReg>>,
    object: &ObjKey,
    key: &String,
    value: &ObjKey,
    ok: OrderKey,
)
    ensures
        final(objs)@ == apply_prop(old(objs)@, object@, key@, value@, ok),
{
    let mut props = match objs.take(object) {
        Some(p) => p,
        None => OrdMap::new(),
    };
    let ghost props0 = props@;
    let ghost new = PropModel { value: value@, ok };
    let wins = match props.get(key) {
        Some(cur) => cur.ok.precedes(&ok),
        None => true,
    };
    if wins {
        props.insert(key.dup(), PropReg { value: value.dup(), ok });
    }
    proof {
        let chosen = if props0.contains_key(key@) {
            later_prop(props0[key@], new)
        } else {
            new
        };
        assert(props@ =~= props0.insert(key@, chosen));
        lemma_remove_insert(old(objs)@, object@, props@);
    }
    objs.insert(object.dup(), props);
}

impl Fold {
    /// Take the state of `k` out, or make a new one of cardinality `c`.
    fn take_key(&mut self, k: &(NodeId, FieldId), c: Cardinality) -> (r: KeyState)
        ensures
            final(self)@ == (FoldModel { keys: old(self)@.keys.remove(*k), ..old(self)@ }),
            r.deep_view() == at_or(old(self)@.keys, *k, model::empty_key(c)),
    {
        match self.keys.take(k) {
            Some(s) => s,
            None => KeyState::new(c),
        }
    }

    fn put_key(&mut self, k: (NodeId, FieldId), s: KeyState)
        ensures
            final(self)@ == (FoldModel {
                keys: old(self)@.keys.insert(k, s.deep_view()),
                ..old(self)@
            }),
    {
        self.keys.insert(k, s);
    }

    /// Whether an operation may be folded: its cardinality is that of the state it meets.
    pub fn accepts(&self, op: &Op) -> (r: bool)
        ensures
            r == fits(self@, op.write()),
    {
        let many: bool = match op {
            Op::SetOne { .. } | Op::CloseOne { .. } => false,
            Op::AddMany { .. } | Op::CloseMany { .. } | Op::RemoveMany { .. } => true,
            _ => {
                return true;
            },
        };
        let k = op.key();
        match self.keys.get(&k) {
            Some(KeyState::One(_)) => !many,
            Some(KeyState::Many(_)) => many,
            None => true,
        }
    }

    /// Fold one operation.
    pub fn apply(&mut self, op: &Op)
        requires
            fits(old(self)@, op.write()),
        ensures
            final(self)@ == apply_write(old(self)@, op.write(), op.order()),
    {
        let ghost f0 = self@;
        match op {
            Op::SetOne { object, valid_from, valid_to, ok, .. } => {
                let k = op.key();
                let mut st = self.take_key(&k, Cardinality::One);
                st.set_one(Some(object), *valid_from, *valid_to, *ok);
                proof {
                    lemma_remove_insert(f0.keys, k, st.deep_view());
                }
                self.put_key(k, st);
            },
            Op::CloseOne { valid_from, ok, .. } => {
                let k = op.key();
                let mut st = self.take_key(&k, Cardinality::One);
                st.set_one(None, *valid_from, None, *ok);
                proof {
                    lemma_remove_insert(f0.keys, k, st.deep_view());
                }
                self.put_key(k, st);
            },
            Op::AddMany { object, valid_from, valid_to, ok, .. } => {
                let k = op.key();
                let mut st = self.take_key(&k, Cardinality::Many);
                st.row_many(object, true, *valid_from, *valid_to, *ok);
                proof {
                    lemma_remove_insert(f0.keys, k, st.deep_view());
                }
                self.put_key(k, st);
            },
            Op::CloseMany { object, valid_from, ok, .. } => {
                let k = op.key();
                let mut st = self.take_key(&k, Cardinality::Many);
                st.row_many(object, false, *valid_from, None, *ok);
                proof {
                    lemma_remove_insert(f0.keys, k, st.deep_view());
                }
                self.put_key(k, st);
            },
            Op::RemoveMany { observed, .. } => {
                let k = op.key();
                let mut st = self.take_key(&k, Cardinality::Many);
                st.remove_many(observed);
                proof {
                    lemma_remove_insert(f0.keys, k, st.deep_view());
                }
                self.put_key(k, st);
            },
            Op::HardDelete { ok, cardinality, .. } => {
                let k = op.key();
                let mut st = self.take_key(&k, *cardinality);
                st.hard_delete(*ok);
                proof {
                    lemma_remove_insert(f0.keys, k, st.deep_view());
                }
                self.put_key(k, st);
            },
            Op::SetEdgeProp { object, key, value, ok, .. } => {
                let k = op.key();
                let mut objs = match self.edge_props.take(&k) {
                    Some(o) => o,
                    None => OrdMap::new(),
                };
                put_prop(&mut objs, object, key, value, *ok);
                proof {
                    lemma_remove_insert(f0.edge_props, k, objs@);
                }
                self.edge_props.insert(k, objs);
            },
            Op::SetNodeType { node, type_id, ok } => {
                let mut st = self.take_attr(*node);
                let wins = match st.ty {
                    None => true,
                    Some(cur) => cur.0.precedes(ok),
                };
                if wins {
                    st.ty = Some((*ok, *type_id));
                }
                proof {
                    lemma_remove_insert(f0.node_attrs, *node, st.deep_view());
                }
                self.node_attrs.insert(*node, st);
            },
            Op::SetNodeLabel { node, label, ok } => {
                let mut st = self.take_attr(*node);
                let wins = match st.label {
                    None => true,
                    Some(cur) => cur.0.precedes(ok),
                };
                if wins {
                    st.label = Some((*ok, *label));
                }
                proof {
                    lemma_remove_insert(f0.node_attrs, *node, st.deep_view());
                }
                self.node_attrs.insert(*node, st);
            },
        }
    }

    fn take_attr(&mut self, node: NodeId) -> (r: NodeAttrState)
        ensures
            final(self)@ == (FoldModel {
                node_attrs: old(self)@.node_attrs.remove(node),
                ..old(self)@
            }),
            r.deep_view() == at_or(old(self)@.node_attrs, node, empty_attr()),
    {
        match self.node_attrs.take(&node) {
            Some(s) => s,
            None => NodeAttrState { ty: None, label: None },
        }
    }
}

/// The writes of a sequence of operations, with their order keys.
pub open spec fn op_writes(ops: Seq<Op>) -> Seq<(WriteModel, OrderKey)> {
    Seq::new(ops.len(), |i: int| (ops[i].write(), ops[i].order()))
}

/// Fold operations in order.
pub fn fold(ops: &[Op]) -> (r: Fold)
    requires
        all_fit(empty_fold(), op_writes(ops@)),
    ensures
        r@ == fold_writes(empty_fold(), op_writes(ops@)),
{
    let mut f = Fold::default();
    let ghost ws = op_writes(ops@);
    let mut i: usize = 0;
    assert(ws.take(0) =~= Seq::empty());
    while i < ops.len()
        invariant
            i <= ops.len(),
            ws == op_writes(ops@),
            all_fit(empty_fold(), ws),
            f@ == fold_writes(empty_fold(), ws.take(i as int)),
        decreases ops.len() - i,
    {
        proof {
            let w = ws.take(i + 1);
            assert(w.drop_last() =~= ws.take(i as int));
            assert(w.last() == ws[i as int]);
            model::lemma_all_fit_prefix(empty_fold(), ws, i + 1);
        }
        f.apply(&ops[i]);
        i += 1;
    }
    assert(ws.take(i as int) =~= ws);
    f
}

} // verus!
