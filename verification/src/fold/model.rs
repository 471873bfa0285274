//! The mathematical model of the fold: what each write does to the state, what a merge and a
//! collection do, and what is observed of a state.
use crate::catalog::Cardinality;
use crate::fact::{FieldId, NodeId};
use crate::objkey::{older, ObjModel, OrderKey};
use crate::ordmap::{lemma_sorted_rows, rows_map, sorted_rows};
use vstd::prelude::*;

verus! {

/// The `(subject, predicate)` pair that graph state is kept under.
pub type GraphKey = (NodeId, FieldId);

/// The content of a write, apart from its order key.
pub enum WriteModel {
    SetOne {
        subject: NodeId,
        predicate: FieldId,
        object: ObjModel,
        valid_from: i64,
        valid_to: Option<i64>,
    },
    CloseOne { subject: NodeId, predicate: FieldId, valid_from: i64 },
    AddMany {
        subject: NodeId,
        predicate: FieldId,
        object: ObjModel,
        valid_from: i64,
        valid_to: Option<i64>,
    },
    CloseMany { subject: NodeId, predicate: FieldId, object: ObjModel, valid_from: i64 },
    RemoveMany { subject: NodeId, predicate: FieldId, observed: Seq<OrderKey> },
    HardDelete { subject: NodeId, predicate: FieldId, cardinality: Cardinality },
    SetEdgeProp {
        subject: NodeId,
        predicate: FieldId,
        object: ObjModel,
        key: Seq<char>,
        value: ObjModel,
    },
    SetNodeType { node: NodeId, type_id: FieldId },
    SetNodeLabel { node: NodeId, label: u8 },
}

/// One version row: an object in effect over `[valid_from, valid_to)`, or a close (no object).
pub struct VersionModel {
    pub object: Option<ObjModel>,
    pub valid_from: i64,
    pub valid_to: Option<i64>,
}

/// Version rows by order key.
pub type Rows = Map<OrderKey, VersionModel>;

/// The state of one graph key.
pub enum KeyModel {
    /// A register with history.
    One { versions: Rows, hd: Option<OrderKey> },
    /// A set of elements, each with its own rows; `removes` are the tombstoned add tags.
    Many { elems: Map<ObjModel, Rows>, removes: Set<OrderKey>, hd: Option<OrderKey> },
}

/// The value of an edge property and the order key that set it.
pub struct PropModel {
    pub value: ObjModel,
    pub ok: OrderKey,
}

/// The registers of a node: its entity type and its label.
pub struct AttrModel {
    pub ty: Option<(OrderKey, FieldId)>,
    pub label: Option<(OrderKey, u8)>,
}

/// The edge properties of a graph key: by edge object, then by property name.
pub type Props = Map<ObjModel, Map<Seq<char>, PropModel>>;

/// The folded state.
pub struct FoldModel {
    pub keys: Map<GraphKey, KeyModel>,
    pub edge_props: Map<GraphKey, Props>,
    pub node_attrs: Map<NodeId, AttrModel>,
}

/// The state before any write.
pub open spec fn empty_fold() -> FoldModel {
    FoldModel { keys: Map::empty(), edge_props: Map::empty(), node_attrs: Map::empty() }
}

/// The state of a graph key before any write.
pub open spec fn empty_key(c: Cardinality) -> KeyModel {
    match c {
        Cardinality::One => KeyModel::One { versions: Map::empty(), hd: None },
        Cardinality::Many => KeyModel::Many {
            elems: Map::empty(),
            removes: Set::empty(),
            hd: None,
        },
    }
}

/// The registers of a node before any write.
pub open spec fn empty_attr() -> AttrModel {
    AttrModel { ty: None, label: None }
}

/// The cardinality that a state has.
pub open spec fn key_kind(k: KeyModel) -> Cardinality {
    match k {
        KeyModel::One { .. } => Cardinality::One,
        KeyModel::Many { .. } => Cardinality::Many,
    }
}

/// The greater of two floors.
pub open spec fn max_floor(a: Option<OrderKey>, b: Option<OrderKey>) -> Option<OrderKey> {
    match (a, b) {
        (None, _) => b,
        (_, None) => a,
        (Some(x), Some(y)) => if older(x, y) {
            b
        } else {
            a
        },
    }
}

/// Whether a row with order key `ok` is above the hard-delete floor.
pub open spec fn above(hd: Option<OrderKey>, ok: OrderKey) -> bool {
    match hd {
        None => true,
        Some(h) => older(h, ok),
    }
}

/// Whether a register last set at `cur` yields to a write at `ok`: the greatest order key wins.
pub open spec fn yields<T>(cur: Option<(OrderKey, T)>, ok: OrderKey) -> bool {
    match cur {
        None => true,
        Some(c) => older(c.0, ok),
    }
}

/// The value at `k`, or `default`.
pub open spec fn at_or<K, V>(m: Map<K, V>, k: K, default: V) -> V {
    if m.contains_key(k) {
        m[k]
    } else {
        default
    }
}

/// The graph key of a graph or edge-property write; a node write has none.
pub open spec fn write_key(w: WriteModel) -> Option<GraphKey> {
    match w {
        WriteModel::SetOne { subject, predicate, .. } => Some((subject, predicate)),
        WriteModel::CloseOne { subject, predicate, .. } => Some((subject, predicate)),
        WriteModel::AddMany { subject, predicate, .. } => Some((subject, predicate)),
        WriteModel::CloseMany { subject, predicate, .. } => Some((subject, predicate)),
        WriteModel::RemoveMany { subject, predicate, .. } => Some((subject, predicate)),
        WriteModel::HardDelete { subject, predicate, .. } => Some((subject, predicate)),
        WriteModel::SetEdgeProp { subject, predicate, .. } => Some((subject, predicate)),
        WriteModel::SetNodeType { .. } => None,
        WriteModel::SetNodeLabel { .. } => None,
    }
}

/// The node of a node-attribute write.
pub open spec fn write_node(w: WriteModel) -> Option<NodeId> {
    match w {
        WriteModel::SetNodeType { node, .. } => Some(node),
        WriteModel::SetNodeLabel { node, .. } => Some(node),
        _ => None,
    }
}

/// The cardinality that a write gives to a graph key without state.
pub open spec fn write_kind(w: WriteModel) -> Option<Cardinality> {
    match w {
        WriteModel::SetOne { .. } => Some(Cardinality::One),
        WriteModel::CloseOne { .. } => Some(Cardinality::One),
        WriteModel::AddMany { .. } => Some(Cardinality::Many),
        WriteModel::CloseMany { .. } => Some(Cardinality::Many),
        WriteModel::RemoveMany { .. } => Some(Cardinality::Many),
        WriteModel::HardDelete { cardinality, .. } => Some(cardinality),
        _ => None,
    }
}

/// Whether a write may be applied: its cardinality is that of the state it meets. A hard delete
/// fits any state.
pub open spec fn fits(f: FoldModel, w: WriteModel) -> bool {
    match write_key(w) {
        Some(k) => w is HardDelete || write_kind(w) is None || !f.keys.contains_key(k) || key_kind(
            f.keys[k],
        ) == write_kind(w)->0,
        None => true,
    }
}

/// One more row in a set's element.
pub open spec fn add_row(
    elems: Map<ObjModel, Rows>,
    object: ObjModel,
    ok: OrderKey,
    v: VersionModel,
) -> Map<ObjModel, Rows> {
    elems.insert(object, at_or(elems, object, Map::empty()).insert(ok, v))
}

/// A write on the state of its graph key. A write of the other cardinality changes nothing.
pub open spec fn apply_key(s: KeyModel, w: WriteModel, ok: OrderKey) -> KeyModel {
    match (s, w) {
        (
            KeyModel::One { versions, hd },
            WriteModel::SetOne { object, valid_from, valid_to, .. },
        ) => KeyModel::One {
            versions: versions.insert(
                ok,
                VersionModel { object: Some(object), valid_from, valid_to },
            ),
            hd,
        },
        (KeyModel::One { versions, hd }, WriteModel::CloseOne { valid_from, .. }) => KeyModel::One {
            versions: versions.insert(
                ok,
                VersionModel { object: None, valid_from, valid_to: None },
            ),
            hd,
        },
        (
            KeyModel::Many { elems, removes, hd },
            WriteModel::AddMany { object, valid_from, valid_to, .. },
        ) => KeyModel::Many {
            elems: add_row(
                elems,
                object,
                ok,
                VersionModel { object: Some(object), valid_from, valid_to },
            ),
            removes,
            hd,
        },
        (
            KeyModel::Many { elems, removes, hd },
            WriteModel::CloseMany { object, valid_from, .. },
        ) => KeyModel::Many {
            elems: add_row(
                elems,
                object,
                ok,
                VersionModel { object: None, valid_from, valid_to: None },
            ),
            removes,
            hd,
        },
        (
            KeyModel::Many { elems, removes, hd },
            WriteModel::RemoveMany { observed, .. },
        ) => KeyModel::Many { elems, removes: removes.union(observed.to_set()), hd },
        (KeyModel::One { versions, hd }, WriteModel::HardDelete { .. }) => KeyModel::One {
            versions,
            hd: max_floor(hd, Some(ok)),
        },
        (KeyModel::Many { elems, removes, hd }, WriteModel::HardDelete { .. }) => KeyModel::Many {
            elems,
            removes,
            hd: max_floor(hd, Some(ok)),
        },
        _ => s,
    }
}

/// The winner of two registers: the greater order key, the first on a tie.
pub open spec fn later_prop(a: PropModel, b: PropModel) -> PropModel {
    if older(a.ok, b.ok) {
        b
    } else {
        a
    }
}

/// A property write on the edge properties of its graph key.
pub open spec fn apply_prop(
    objs: Props,
    object: ObjModel,
    key: Seq<char>,
    value: ObjModel,
    ok: OrderKey,
) -> Props {
    let props = at_or(objs, object, Map::empty());
    let new = PropModel { value, ok };
    objs.insert(
        object,
        props.insert(
            key,
            if props.contains_key(key) {
                later_prop(props[key], new)
            } else {
                new
            },
        ),
    )
}

/// What one write does to the state.
pub open spec fn apply_write(f: FoldModel, w: WriteModel, ok: OrderKey) -> FoldModel {
    match w {
        WriteModel::SetEdgeProp { subject, predicate, object, key, value } => FoldModel {
            edge_props: f.edge_props.insert(
                (subject, predicate),
                apply_prop(
                    at_or(f.edge_props, (subject, predicate), Map::empty()),
                    object,
                    key,
                    value,
                    ok,
                ),
            ),
            ..f
        },
        WriteModel::SetNodeType { node, type_id } => {
            let st = at_or(f.node_attrs, node, empty_attr());
            FoldModel {
                node_attrs: f.node_attrs.insert(
                    node,
                    if yields(st.ty, ok) {
                        AttrModel { ty: Some((ok, type_id)), ..st }
                    } else {
                        st
                    },
                ),
                ..f
            }
        },
        WriteModel::SetNodeLabel { node, label } => {
            let st = at_or(f.node_attrs, node, empty_attr());
            FoldModel {
                node_attrs: f.node_attrs.insert(
                    node,
                    if yields(st.label, ok) {
                        AttrModel { label: Some((ok, label)), ..st }
                    } else {
                        st
                    },
                ),
                ..f
            }
        },
        _ => {
            let k = write_key(w)->0;
            FoldModel {
                keys: f.keys.insert(
                    k,
                    apply_key(at_or(f.keys, k, empty_key(write_kind(w)->0)), w, ok),
                ),
                ..f
            }
        },
    }
}

/// The state after a sequence of writes.
pub open spec fn fold_writes(f: FoldModel, ws: Seq<(WriteModel, OrderKey)>) -> FoldModel
    decreases ws.len(),
{
    if ws.len() == 0 {
        f
    } else {
        let last = ws.last();
        apply_write(fold_writes(f, ws.drop_last()), last.0, last.1)
    }
}

/// Every write of the sequence fits the state that it meets.
pub open spec fn all_fit(f: FoldModel, ws: Seq<(WriteModel, OrderKey)>) -> bool
    decreases ws.len(),
{
    ws.len() == 0 || (all_fit(f, ws.drop_last()) && fits(
        fold_writes(f, ws.drop_last()),
        ws.last().0,
    ))
}

/// The rows of two elements together; `b`'s row stands where both have one.
pub open spec fn merge_elems(a: Map<ObjModel, Rows>, b: Map<ObjModel, Rows>) -> Map<
    ObjModel,
    Rows,
> {
    Map::new(
        |o: ObjModel| a.contains_key(o) || b.contains_key(o),
        |o: ObjModel|
            at_or(a, o, Map::empty()).union_prefer_right(at_or(b, o, Map::empty())),
    )
}

/// The states of one graph key merged.
pub open spec fn merge_key(a: KeyModel, b: KeyModel) -> KeyModel {
    match (a, b) {
        (KeyModel::One { versions: va, hd: ha }, KeyModel::One { versions: vb, hd: hb }) =>
        KeyModel::One { versions: va.union_prefer_right(vb), hd: max_floor(ha, hb) },
        (
            KeyModel::Many { elems: ea, removes: ra, hd: ha },
            KeyModel::Many { elems: eb, removes: rb, hd: hb },
        ) => KeyModel::Many {
            elems: merge_elems(ea, eb),
            removes: ra.union(rb),
            hd: max_floor(ha, hb),
        },
        _ => a,
    }
}

/// Property registers merged: the greater order key wins, the first on a tie.
pub open spec fn merge_regs(a: Map<Seq<char>, PropModel>, b: Map<Seq<char>, PropModel>) -> Map<
    Seq<char>,
    PropModel,
> {
    Map::new(
        |p: Seq<char>| a.contains_key(p) || b.contains_key(p),
        |p: Seq<char>|
            if !a.contains_key(p) {
                b[p]
            } else if !b.contains_key(p) {
                a[p]
            } else {
                later_prop(a[p], b[p])
            },
    )
}

/// Edge properties merged.
pub open spec fn merge_props(a: Props, b: Props) -> Props {
    Map::new(
        |o: ObjModel| a.contains_key(o) || b.contains_key(o),
        |o: ObjModel| merge_regs(at_or(a, o, Map::empty()), at_or(b, o, Map::empty())),
    )
}

/// The winner of two optional registers.
pub open spec fn later<T>(a: Option<(OrderKey, T)>, b: Option<(OrderKey, T)>) -> Option<
    (OrderKey, T),
> {
    match b {
        None => a,
        Some(y) => if yields(a, y.0) {
            b
        } else {
            a
        },
    }
}

/// Node registers merged.
pub open spec fn merge_attr(a: AttrModel, b: AttrModel) -> AttrModel {
    AttrModel { ty: later(a.ty, b.ty), label: later(a.label, b.label) }
}

/// The least upper bound of two states.
pub open spec fn merge_folds(a: FoldModel, b: FoldModel) -> FoldModel {
    FoldModel {
        keys: Map::new(
            |k: GraphKey| a.keys.contains_key(k) || b.keys.contains_key(k),
            |k: GraphKey|
                if !a.keys.contains_key(k) {
                    b.keys[k]
                } else if !b.keys.contains_key(k) {
                    a.keys[k]
                } else {
                    merge_key(a.keys[k], b.keys[k])
                },
        ),
        edge_props: Map::new(
            |k: GraphKey| a.edge_props.contains_key(k) || b.edge_props.contains_key(k),
            |k: GraphKey|
                merge_props(
                    at_or(a.edge_props, k, Map::empty()),
                    at_or(b.edge_props, k, Map::empty()),
                ),
        ),
        node_attrs: Map::new(
            |n: NodeId| a.node_attrs.contains_key(n) || b.node_attrs.contains_key(n),
            |n: NodeId|
                merge_attr(
                    at_or(a.node_attrs, n, empty_attr()),
                    at_or(b.node_attrs, n, empty_attr()),
                ),
        ),
    }
}

/// Two states may be merged: no graph key has both cardinalities.
pub open spec fn kinds_agree(a: FoldModel, b: FoldModel) -> bool {
    forall|k: GraphKey| #[trigger]
        a.keys.contains_key(k) && b.keys.contains_key(k) ==> key_kind(a.keys[k]) == key_kind(
            b.keys[k],
        )
}

/// The rows above the floor.
pub open spec fn above_floor(rows: Rows, hd: Option<OrderKey>) -> Rows {
    Map::new(|ok: OrderKey| rows.contains_key(ok) && above(hd, ok), |ok: OrderKey| rows[ok])
}

/// The rows of a set's element that count: not tombstoned, and above the floor.
pub open spec fn live_rows(rows: Rows, removes: Set<OrderKey>, hd: Option<OrderKey>) -> Rows {
    Map::new(
        |ok: OrderKey| rows.contains_key(ok) && !removes.contains(ok) && above(hd, ok),
        |ok: OrderKey| rows[ok],
    )
}

/// The elements that have rows above the floor, with those rows.
pub open spec fn elems_above_floor(elems: Map<ObjModel, Rows>, hd: Option<OrderKey>) -> Map<
    ObjModel,
    Rows,
> {
    Map::new(
        |o: ObjModel|
            elems.contains_key(o) && above_floor(elems[o], hd) != Map::<
                OrderKey,
                VersionModel,
            >::empty(),
        |o: ObjModel| above_floor(elems[o], hd),
    )
}

/// What collection keeps of a graph key: nothing at or below the floor.
pub open spec fn gc_key(s: KeyModel) -> KeyModel {
    match s {
        KeyModel::One { versions, hd } => KeyModel::One {
            versions: above_floor(versions, hd),
            hd,
        },
        KeyModel::Many { elems, removes, hd } => match hd {
            None => s,
            Some(_) => KeyModel::Many {
                elems: elems_above_floor(elems, hd),
                removes: removes.filter(|ok: OrderKey| above(hd, ok)),
                hd,
            },
        },
    }
}

/// The state after collection.
pub open spec fn gc_fold(f: FoldModel) -> FoldModel {
    FoldModel {
        keys: Map::new(|k: GraphKey| f.keys.contains_key(k), |k: GraphKey| gc_key(f.keys[k])),
        ..f
    }
}

/// One observed history row: order key, object, start and end of validity.
pub type RowModel = (OrderKey, Option<ObjModel>, i64, Option<i64>);

/// The observed rows of a key or an element, ascending by order key.
pub open spec fn history(rows: Rows) -> Seq<RowModel> {
    let s = sorted_rows::<OrderKey, VersionModel>(rows);
    Seq::new(
        s.len(),
        |i: int| (s[i].0, s[i].1.object, s[i].1.valid_from, s[i].1.valid_to),
    )
}

/// The canonical observation of a state.
pub struct SnapshotModel {
    pub one: Map<GraphKey, Option<ObjModel>>,
    pub one_history: Map<GraphKey, Seq<RowModel>>,
    pub many: Map<GraphKey, Set<ObjModel>>,
    pub many_history: Map<GraphKey, Map<ObjModel, Seq<RowModel>>>,
    pub edge_props: Map<GraphKey, Map<ObjModel, Map<Seq<char>, ObjModel>>>,
    pub node_types: Map<NodeId, FieldId>,
    pub node_labels: Map<NodeId, u8>,
}

/// The observation of the empty state.
pub open spec fn empty_snapshot() -> SnapshotModel {
    SnapshotModel {
        one: Map::empty(),
        one_history: Map::empty(),
        many: Map::empty(),
        many_history: Map::empty(),
        edge_props: Map::empty(),
        node_types: Map::empty(),
        node_labels: Map::empty(),
    }
}

/// The history of a register, above its floor; empty where the key is no register.
pub open spec fn seen_one(f: FoldModel, k: GraphKey) -> Seq<RowModel> {
    if f.keys.contains_key(k) && f.keys[k] is One {
        history(above_floor(f.keys[k]->One_versions, f.keys[k]->One_hd))
    } else {
        Seq::empty()
    }
}

/// The live rows of element `o` under `k`; empty where there is none.
pub open spec fn live_elem(f: FoldModel, k: GraphKey, o: ObjModel) -> Rows {
    if f.keys.contains_key(k) && f.keys[k] is Many && f.keys[k]->elems.contains_key(o) {
        live_rows(f.keys[k]->elems[o], f.keys[k]->removes, f.keys[k]->Many_hd)
    } else {
        Map::empty()
    }
}

/// The histories of the elements that have live rows.
pub open spec fn seen_many(f: FoldModel, k: GraphKey) -> Map<ObjModel, Seq<RowModel>> {
    Map::new(
        |o: ObjModel| history(live_elem(f, k, o)).len() > 0,
        |o: ObjModel| history(live_elem(f, k, o)),
    )
}

/// The elements present: those whose greatest live row is an add.
pub open spec fn present(h: Map<ObjModel, Seq<RowModel>>) -> Set<ObjModel> {
    Set::new(|o: ObjModel| h.contains_key(o) && h[o].last().1 is Some)
}

/// The values of the properties, without their order keys.
pub open spec fn prop_values(objs: Props) -> Map<ObjModel, Map<Seq<char>, ObjModel>> {
    Map::new(
        |o: ObjModel| objs.contains_key(o),
        |o: ObjModel|
            Map::new(|p: Seq<char>| objs[o].contains_key(p), |p: Seq<char>| objs[o][p].value),
    )
}

/// `m` with `v` at `k`, or with nothing there.
pub open spec fn put_or_drop<K, V>(m: Map<K, V>, k: K, v: Option<V>) -> Map<K, V> {
    match v {
        Some(x) => m.insert(k, x),
        None => m.remove(k),
    }
}

/// What is observed in `one` at `k`.
pub open spec fn obs_one(f: FoldModel, k: GraphKey) -> Option<Option<ObjModel>> {
    if seen_one(f, k).len() > 0 {
        Some(seen_one(f, k).last().1)
    } else {
        None
    }
}

/// What is observed in `one_history` at `k`.
pub open spec fn obs_one_history(f: FoldModel, k: GraphKey) -> Option<Seq<RowModel>> {
    if seen_one(f, k).len() > 0 {
        Some(seen_one(f, k))
    } else {
        None
    }
}

/// What is observed in `many` at `k`: nothing where no element is present.
pub open spec fn obs_many(f: FoldModel, k: GraphKey) -> Option<Set<ObjModel>> {
    if present(seen_many(f, k)) == Set::<ObjModel>::empty() {
        None
    } else {
        Some(present(seen_many(f, k)))
    }
}

/// What is observed in `many_history` at `k`.
pub open spec fn obs_many_history(f: FoldModel, k: GraphKey) -> Option<
    Map<ObjModel, Seq<RowModel>>,
> {
    if seen_many(f, k) == Map::<ObjModel, Seq<RowModel>>::empty() {
        None
    } else {
        Some(seen_many(f, k))
    }
}

/// What is observed in `edge_props` at `k`.
pub open spec fn obs_props(f: FoldModel, k: GraphKey) -> Option<
    Map<ObjModel, Map<Seq<char>, ObjModel>>,
> {
    if f.edge_props.contains_key(k) && f.edge_props[k] != Map::<
        ObjModel,
        Map<Seq<char>, PropModel>,
    >::empty() {
        Some(prop_values(f.edge_props[k]))
    } else {
        None
    }
}

/// What is observed of a node's type.
pub open spec fn obs_type(f: FoldModel, n: NodeId) -> Option<FieldId> {
    match at_or(f.node_attrs, n, empty_attr()).ty {
        Some(r) => Some(r.1),
        None => None,
    }
}

/// What is observed of a node's label.
pub open spec fn obs_label(f: FoldModel, n: NodeId) -> Option<u8> {
    match at_or(f.node_attrs, n, empty_attr()).label {
        Some(r) => Some(r.1),
        None => None,
    }
}

/// A snapshot refreshed at one graph key.
pub open spec fn refresh_key(s: SnapshotModel, f: FoldModel, k: GraphKey) -> SnapshotModel {
    SnapshotModel {
        one: put_or_drop(s.one, k, obs_one(f, k)),
        one_history: put_or_drop(s.one_history, k, obs_one_history(f, k)),
        many: put_or_drop(s.many, k, obs_many(f, k)),
        many_history: put_or_drop(s.many_history, k, obs_many_history(f, k)),
        edge_props: put_or_drop(s.edge_props, k, obs_props(f, k)),
        ..s
    }
}

/// A snapshot refreshed at one node.
pub open spec fn refresh_node(s: SnapshotModel, f: FoldModel, n: NodeId) -> SnapshotModel {
    SnapshotModel {
        node_types: put_or_drop(s.node_types, n, obs_type(f, n)),
        node_labels: put_or_drop(s.node_labels, n, obs_label(f, n)),
        ..s
    }
}

/// The map of what a partial function gives.
pub open spec fn map_of<K, V>(g: spec_fn(K) -> Option<V>) -> Map<K, V> {
    Map::new(|k: K| g(k) is Some, |k: K| g(k)->0)
}

/// The canonical observation: keys and nodes without live state are left out.
pub open spec fn observed(f: FoldModel) -> SnapshotModel {
    SnapshotModel {
        one: map_of(|k: GraphKey| obs_one(f, k)),
        one_history: map_of(|k: GraphKey| obs_one_history(f, k)),
        many: map_of(|k: GraphKey| obs_many(f, k)),
        many_history: map_of(|k: GraphKey| obs_many_history(f, k)),
        edge_props: map_of(|k: GraphKey| obs_props(f, k)),
        node_types: map_of(|n: NodeId| obs_type(f, n)),
        node_labels: map_of(|n: NodeId| obs_label(f, n)),
    }
}

/// `m` with the keys of `ks` refreshed from `g`.
pub open spec fn refreshed<K, V>(m: Map<K, V>, g: spec_fn(K) -> Option<V>, ks: Set<K>) -> Map<
    K,
    V,
> {
    Map::new(
        |k: K|
            if ks.contains(k) {
                g(k) is Some
            } else {
                m.contains_key(k)
            },
        |k: K|
            if ks.contains(k) {
                g(k)->0
            } else {
                m[k]
            },
    )
}

/// A snapshot refreshed at the graph keys `ks` and the nodes `ns`.
pub open spec fn refresh(
    s: SnapshotModel,
    f: FoldModel,
    ks: Set<GraphKey>,
    ns: Set<NodeId>,
) -> SnapshotModel {
    SnapshotModel {
        one: refreshed(s.one, |k: GraphKey| obs_one(f, k), ks),
        one_history: refreshed(s.one_history, |k: GraphKey| obs_one_history(f, k), ks),
        many: refreshed(s.many, |k: GraphKey| obs_many(f, k), ks),
        many_history: refreshed(s.many_history, |k: GraphKey| obs_many_history(f, k), ks),
        edge_props: refreshed(s.edge_props, |k: GraphKey| obs_props(f, k), ks),
        node_types: refreshed(s.node_types, |n: NodeId| obs_type(f, n), ns),
        node_labels: refreshed(s.node_labels, |n: NodeId| obs_label(f, n), ns),
    }
}

proof fn lemma_refreshed_none<K, V>(m: Map<K, V>, g: spec_fn(K) -> Option<V>)
    ensures
        refreshed(m, g, Set::empty()) == m,
{
    assert(refreshed(m, g, Set::empty()) =~= m);
}

/// Refreshing nothing changes nothing.
pub proof fn lemma_refresh_none(s: SnapshotModel, f: FoldModel)
    ensures
        refresh(s, f, Set::empty(), Set::empty()) == s,
{
    lemma_refreshed_none(s.one, |k: GraphKey| obs_one(f, k));
    lemma_refreshed_none(s.one_history, |k: GraphKey| obs_one_history(f, k));
    lemma_refreshed_none(s.many, |k: GraphKey| obs_many(f, k));
    lemma_refreshed_none(s.many_history, |k: GraphKey| obs_many_history(f, k));
    lemma_refreshed_none(s.edge_props, |k: GraphKey| obs_props(f, k));
    lemma_refreshed_none(s.node_types, |n: NodeId| obs_type(f, n));
    lemma_refreshed_none(s.node_labels, |n: NodeId| obs_label(f, n));
}

proof fn lemma_refreshed_step<K, V>(
    m: Map<K, V>,
    g: spec_fn(K) -> Option<V>,
    ks: Set<K>,
    k: K,
)
    ensures
        put_or_drop(refreshed(m, g, ks), k, g(k)) == refreshed(m, g, ks.insert(k)),
{
    assert(put_or_drop(refreshed(m, g, ks), k, g(k)) =~= refreshed(m, g, ks.insert(k)));
}

/// Refreshing one more graph key.
pub proof fn lemma_refresh_key(
    s: SnapshotModel,
    f: FoldModel,
    ks: Set<GraphKey>,
    ns: Set<NodeId>,
    k: GraphKey,
)
    ensures
        refresh_key(refresh(s, f, ks, ns), f, k) == refresh(s, f, ks.insert(k), ns),
{
    lemma_refreshed_step(s.one, |k: GraphKey| obs_one(f, k), ks, k);
    lemma_refreshed_step(s.one_history, |k: GraphKey| obs_one_history(f, k), ks, k);
    lemma_refreshed_step(s.many, |k: GraphKey| obs_many(f, k), ks, k);
    lemma_refreshed_step(s.many_history, |k: GraphKey| obs_many_history(f, k), ks, k);
    lemma_refreshed_step(s.edge_props, |k: GraphKey| obs_props(f, k), ks, k);
}

/// Refreshing one more node.
pub proof fn lemma_refresh_node(
    s: SnapshotModel,
    f: FoldModel,
    ks: Set<GraphKey>,
    ns: Set<NodeId>,
    n: NodeId,
)
    ensures
        refresh_node(refresh(s, f, ks, ns), f, n) == refresh(s, f, ks, ns.insert(n)),
{
    lemma_refreshed_step(s.node_types, |n: NodeId| obs_type(f, n), ns, n);
    lemma_refreshed_step(s.node_labels, |n: NodeId| obs_label(f, n), ns, n);
}

/// Whether two states agree at a graph key.
pub open spec fn same_key(a: FoldModel, b: FoldModel, k: GraphKey) -> bool {
    &&& a.keys.contains_key(k) == b.keys.contains_key(k)
    &&& a.keys.contains_key(k) ==> a.keys[k] == b.keys[k]
    &&& a.edge_props.contains_key(k) == b.edge_props.contains_key(k)
    &&& a.edge_props.contains_key(k) ==> a.edge_props[k] == b.edge_props[k]
}

/// Whether two states agree at a node.
pub open spec fn same_node(a: FoldModel, b: FoldModel, n: NodeId) -> bool {
    &&& a.node_attrs.contains_key(n) == b.node_attrs.contains_key(n)
    &&& a.node_attrs.contains_key(n) ==> a.node_attrs[n] == b.node_attrs[n]
}

/// States that agree at a key are observed alike there.
pub proof fn lemma_same_key(a: FoldModel, b: FoldModel, k: GraphKey)
    requires
        same_key(a, b, k),
    ensures
        obs_one(a, k) == obs_one(b, k),
        obs_one_history(a, k) == obs_one_history(b, k),
        obs_many(a, k) == obs_many(b, k),
        obs_many_history(a, k) == obs_many_history(b, k),
        obs_props(a, k) == obs_props(b, k),
{
    assert(seen_one(a, k) == seen_one(b, k));
    assert forall|o: ObjModel| #[trigger] live_elem(a, k, o) == live_elem(b, k, o) by {
    }
    assert(seen_many(a, k) =~= seen_many(b, k));
}

/// Incremental observation is full observation: where two states differ only at the graph keys
/// `ks` and the nodes `ns`, refreshing the observation of the one there gives that of the other.
pub proof fn law_refresh_is_observe(
    a: FoldModel,
    b: FoldModel,
    ks: Set<GraphKey>,
    ns: Set<NodeId>,
)
    requires
        forall|k: GraphKey| !(#[trigger] ks.contains(k)) ==> same_key(a, b, k),
        forall|n: NodeId| !(#[trigger] ns.contains(n)) ==> same_node(a, b, n),
    ensures
        refresh(observed(a), b, ks, ns) == observed(b),
{
    let r = refresh(observed(a), b, ks, ns);
    let o = observed(b);
    assert forall|k: GraphKey| !(#[trigger] ks.contains(k)) implies obs_one(a, k) == obs_one(b, k)
        && obs_one_history(a, k) == obs_one_history(b, k) && obs_many(a, k) == obs_many(b, k)
        && obs_many_history(a, k) == obs_many_history(b, k) && obs_props(a, k) == obs_props(
        b,
        k,
    ) by {
        lemma_same_key(a, b, k);
    }
    assert forall|n: NodeId| !(#[trigger] ns.contains(n)) implies obs_type(a, n) == obs_type(b, n)
        && obs_label(a, n) == obs_label(b, n) by {
        assert(same_node(a, b, n));
    }
    assert(r.one =~= o.one);
    assert(r.one_history =~= o.one_history);
    assert(r.many =~= o.many);
    assert(r.many_history =~= o.many_history);
    assert(r.edge_props =~= o.edge_props);
    assert(r.node_types =~= o.node_types);
    assert(r.node_labels =~= o.node_labels);
}

/// The empty state is observed as the empty snapshot.
pub proof fn lemma_observed_empty()
    ensures
        observed(empty_fold()) == empty_snapshot(),
{
    let f = empty_fold();
    let o = observed(f);
    let e = empty_snapshot();
    assert forall|k: GraphKey|
        #![trigger obs_many_history(f, k)]
        #![trigger obs_many(f, k)]
        obs_many_history(f, k) is None && obs_many(f, k) is None by {
        assert forall|x: ObjModel| #[trigger] history(live_elem(f, k, x)).len() == 0 by {
            lemma_history_empty();
        }
        assert(seen_many(f, k) =~= Map::empty());
        assert(present(seen_many(f, k)) =~= Set::empty());
    }
    assert(o.one =~= e.one);
    assert(o.one_history =~= e.one_history);
    assert(o.many =~= e.many);
    assert(o.many_history =~= e.many_history);
    assert(o.edge_props =~= e.edge_props);
    assert(o.node_types =~= e.node_types);
    assert(o.node_labels =~= e.node_labels);
}

/// No rows, no history.
pub proof fn lemma_history_empty()
    ensures
        history(Map::<OrderKey, VersionModel>::empty()).len() == 0,
{
    let s = Seq::<(OrderKey, VersionModel)>::empty();
    assert(rows_map(s) =~= Map::<OrderKey, VersionModel>::empty());
    lemma_sorted_rows::<OrderKey, VersionModel>(s);
}

/// Where every write of a sequence fits, so does every write of a prefix.
pub proof fn lemma_all_fit_prefix(f: FoldModel, ws: Seq<(WriteModel, OrderKey)>, n: int)
    requires
        all_fit(f, ws),
        0 <= n <= ws.len(),
    ensures
        all_fit(f, ws.take(n)),
    decreases ws.len(),
{
    if n == ws.len() {
        assert(ws.take(n) =~= ws);
    } else {
        lemma_all_fit_prefix(f, ws.drop_last(), n);
        assert(ws.drop_last().take(n) =~= ws.take(n));
    }
}

/// Folding one sequence after another is folding them joined.
pub proof fn lemma_fold_concat(
    f: FoldModel,
    a: Seq<(WriteModel, OrderKey)>,
    b: Seq<(WriteModel, OrderKey)>,
)
    ensures
        fold_writes(fold_writes(f, a), b) == fold_writes(f, a + b),
    decreases b.len(),
{
    if b.len() == 0 {
        assert(a + b =~= a);
    } else {
        lemma_fold_concat(f, a, b.drop_last());
        assert((a + b).drop_last() =~= a + b.drop_last());
        assert((a + b).last() == b.last());
    }
}

} // verus!
