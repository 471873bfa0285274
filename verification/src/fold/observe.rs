//! Observing a state: the whole of it, or one key or node at a time.
use super::model::{
    above, above_floor, empty_fold, empty_snapshot, history, law_refresh_is_observe, live_elem,
    live_rows, lemma_history_empty, lemma_observed_empty, lemma_refresh_key, lemma_refresh_node,
    lemma_refresh_none, observed, present, prop_values, refresh, refresh_key, refresh_node,
    same_key, same_node, seen_many, seen_one, FoldModel, GraphKey, KeyModel, PropModel, Props,
    RowModel, Rows, SnapshotModel, VersionModel,
};
use super::state::{is_above, KeyState, PropReg, Version};
use super::Fold;
use crate::fact::{FieldId, NodeId};
use crate::objkey::{ObjKey, ObjModel, OrderKey};
use crate::order::Dup;
use crate::ordmap::{
    ascending, has_row, lemma_key_row, lemma_partway_end, lemma_partway_start, lemma_partway_step,
    lemma_row, partway, row_of, sorted_items, sorted_rows, OrdMap, OrdSet,
};
use vstd::prelude::*;

verus! {

/// One history row above the floor: order key, object, start and end of validity. No object is a
/// close, no end an open interval.
pub type VersionRow = (OrderKey, Option<ObjKey>, i64, Option<i64>);

/// The canonical observation of a state; two folds converge when their snapshots are equal.
#[derive(Debug, PartialEq, Eq)]
pub struct Snapshot {
    pub one: OrdMap<(NodeId, FieldId), Option<ObjKey>>,
    pub one_history: OrdMap<(NodeId, FieldId), Vec<VersionRow>>,
    pub many: OrdMap<(NodeId, FieldId), OrdSet<ObjKey>>,
    /// The rows of each element, ascending by order key; as-of reads slice these.
    pub many_history: OrdMap<(NodeId, FieldId), OrdMap<ObjKey, Vec<VersionRow>>>,
    /// Property values by edge object and property name.
    pub edge_props: OrdMap<(NodeId, FieldId), OrdMap<ObjKey, OrdMap<String, ObjKey>>>,
    pub node_types: OrdMap<NodeId, FieldId>,
    pub node_labels: OrdMap<NodeId, u8>,
}

impl View for Snapshot {
    type V = SnapshotModel;

    open spec fn view(&self) -> SnapshotModel {
        SnapshotModel {
            one: self.one@,
            one_history: self.one_history@,
            many: self.many@,
            many_history: self.many_history@,
            edge_props: self.edge_props@,
            node_types: self.node_types@,
            node_labels: self.node_labels@,
        }
    }
}

impl DeepView for Snapshot {
    type V = SnapshotModel;

    open spec fn deep_view(&self) -> SnapshotModel {
        self@
    }
}

impl Dup for Snapshot {
    fn dup(&self) -> (r: Self) {
        Snapshot {
            one: self.one.dup(),
            one_history: self.one_history.dup(),
            many: self.many.dup(),
            many_history: self.many_history.dup(),
            edge_props: self.edge_props.dup(),
            node_types: self.node_types.dup(),
            node_labels: self.node_labels.dup(),
        }
    }
}

impl Clone for Snapshot {
    fn clone(&self) -> (r: Self)
        ensures
            r@ == self@,
    {
        self.dup()
    }
}

impl Default for Snapshot {
    fn default() -> (r: Self)
        ensures
            r@ == empty_snapshot(),
    {
        Snapshot {
            one: OrdMap::new(),
            one_history: OrdMap::new(),
            many: OrdMap::new(),
            many_history: OrdMap::new(),
            edge_props: OrdMap::new(),
            node_types: OrdMap::new(),
            node_labels: OrdMap::new(),
        }
    }
}

/// The rows that are not tombstoned and are above the floor.
fn rows_live(
    rows: &OrdMap<OrderKey, Version>,
    removes: &OrdSet<OrderKey>,
    hd: Option<OrderKey>,
) -> (r: OrdMap<OrderKey, Version>)
    ensures
        r@ == live_rows(rows@, removes@, hd),
{
    let n: usize = rows.len();
    let mut out: OrdMap<OrderKey, Version> = OrdMap::new();
    let ghost m0 = out@;
    let ghost goal = live_rows(rows@, removes@, hd);
    let ghost s = rows.rows();
    let mut i: usize = 0;
    proof {
        lemma_partway_start(m0, goal, s);
    }
    while i < n
        invariant
            i <= n,
            n == s.len(),
            s == rows.rows(),
            ascending::<OrderKey, VersionModel>(s),
            goal == live_rows(rows@, removes@, hd),
            m0 == Map::<OrderKey, VersionModel>::empty(),
            out@ == partway(m0, goal, s.take(i as int)),
        decreases n - i,
    {
        proof {
            lemma_partway_step::<OrderKey, VersionModel, VersionModel>(m0, goal, s, i as int);
            lemma_row::<OrderKey, VersionModel>(s, i as int);
        }
        let ok = *rows.key_at(i);
        if !removes.contains(&ok) && is_above(hd, &ok) {
            out.insert(ok, rows.value_at(i).dup());
        } else {
            assert(out@.remove(ok) =~= out@);
        }
        i += 1;
    }
    proof {
        assert forall|k: OrderKey| !(#[trigger] has_row(s, k)) implies goal.contains_key(k)
            == m0.contains_key(k) && (goal.contains_key(k) ==> goal[k] == m0[k]) by {
            assert(!rows@.contains_key(k));
        }
        lemma_partway_end(m0, goal, s);
    }
    out
}

/// The history that rows make.
fn to_history(rows: &OrdMap<OrderKey, Version>) -> (r: Vec<VersionRow>)
    ensures
        r.deep_view() == history(rows@),
{
    let n: usize = rows.len();
    let ghost s = sorted_rows::<OrderKey, VersionModel>(rows@);
    let mut out: Vec<VersionRow> = Vec::new();
    let mut i: usize = 0;
    while i < n
        invariant
            i <= n,
            n == rows.rows().len(),
            s == rows.rows(),
            out.len() == i,
            forall|j: int|
                0 <= j < i ==> (#[trigger] out@[j]).deep_view() == (
                    s[j].0,
                    s[j].1.object,
                    s[j].1.valid_from,
                    s[j].1.valid_to,
                ),
        decreases n - i,
    {
        let v = rows.value_at(i);
        let row: VersionRow = (*rows.key_at(i), v.object.dup(), v.valid_from, v.valid_to);
        assert(row.deep_view() == (
            s[i as int].0,
            s[i as int].1.object,
            s[i as int].1.valid_from,
            s[i as int].1.valid_to,
        ));
        out.push(row);
        i += 1;
    }
    assert(out.deep_view() =~= history(rows@));
    out
}

/// The histories of the elements that have live rows.
pub open spec fn elem_histories(
    elems: Map<ObjModel, Rows>,
    removes: Set<OrderKey>,
    hd: Option<OrderKey>,
) -> Map<ObjModel, Seq<RowModel>> {
    Map::new(
        |o: ObjModel|
            elems.contains_key(o) && history(live_rows(elems[o], removes, hd)).len() > 0,
        |o: ObjModel| history(live_rows(elems[o], removes, hd)),
    )
}

fn histories(
    elems: &OrdMap<ObjKey, OrdMap<OrderKey, Version>>,
    removes: &OrdSet<OrderKey>,
    hd: Option<OrderKey>,
) -> (r: (OrdMap<ObjKey, Vec<VersionRow>>, OrdSet<ObjKey>))
    ensures
        r.0@ == elem_histories(elems@, removes@, hd),
        r.1@ == present(elem_histories(elems@, removes@, hd)),
{
    let n: usize = elems.len();
    let mut out: OrdMap<ObjKey, Vec<VersionRow>> = OrdMap::new();
    let mut here: OrdSet<ObjKey> = OrdSet::new();
    let ghost m0 = out@;
    let ghost goal = elem_histories(elems@, removes@, hd);
    let ghost s = elems.rows();
    let mut i: usize = 0;
    proof {
        lemma_partway_start(m0, goal, s);
        assert(here@ =~= present(out@));
    }
    while i < n
        invariant
            i <= n,
            n == s.len(),
            s == elems.rows(),
            ascending::<ObjKey, Rows>(s),
            goal == elem_histories(elems@, removes@, hd),
            m0 == Map::<ObjModel, Seq<RowModel>>::empty(),
            out@ == partway(m0, goal, s.take(i as int)),
            here@ == present(out@),
        decreases n - i,
    {
        proof {
            lemma_partway_step::<ObjKey, Rows, Seq<RowModel>>(m0, goal, s, i as int);
            lemma_row::<ObjKey, Rows>(s, i as int);
        }
        let ghost out0 = out@;
        let obj = elems.key_at(i);
        let live = to_history(&rows_live(elems.value_at(i), removes, hd));
        if live.len() > 0 {
            assert(live.deep_view().last() == live@.last().deep_view());
            if live[live.len() - 1].1.is_some() {
                here.insert(obj.dup());
            }
            out.insert(obj.dup(), live);
            assert(here@ =~= present(out@));
        } else {
            assert(out@.remove(obj@) =~= out@);
        }
        i += 1;
    }
    proof {
        assert forall|k: ObjModel| !(#[trigger] has_row(s, k)) implies goal.contains_key(k)
            == m0.contains_key(k) && (goal.contains_key(k) ==> goal[k] == m0[k]) by {
            assert(!elems@.contains_key(k));
        }
        lemma_partway_end(m0, goal, s);
    }
    (out, here)
}

/// Property values without their order keys.
pub open spec fn reg_values(regs: Map<Seq<char>, PropModel>) -> Map<Seq<char>, ObjModel> {
    Map::new(|p: Seq<char>| regs.contains_key(p), |p: Seq<char>| regs[p].value)
}

fn values_of(regs: &OrdMap<String, PropReg>) -> (r: OrdMap<String, ObjKey>)
    ensures
        r@ == reg_values(regs@),
{
    let n: usize = regs.len();
    let mut out: OrdMap<String, ObjKey> = OrdMap::new();
    let ghost m0 = out@;
    let ghost goal = reg_values(regs@);
    let ghost s = regs.rows();
    let mut i: usize = 0;
    proof {
        lemma_partway_start(m0, goal, s);
    }
    while i < n
        invariant
            i <= n,
            n == s.len(),
            s == regs.rows(),
            ascending::<String, PropModel>(s),
            goal == reg_values(regs@),
            m0 == Map::<Seq<char>, ObjModel>::empty(),
            out@ == partway(m0, goal, s.take(i as int)),
        decreases n - i,
    {
        proof {
            lemma_partway_step::<String, PropModel, ObjModel>(m0, goal, s, i as int);
            lemma_row::<String, PropModel>(s, i as int);
        }
        out.insert(regs.key_at(i).dup(), regs.value_at(i).value.dup());
        i += 1;
    }
    proof {
        assert forall|k: Seq<char>| !(#[trigger] has_row(s, k)) implies goal.contains_key(k)
            == m0.contains_key(k) && (goal.contains_key(k) ==> goal[k] == m0[k]) by {
            assert(!regs@.contains_key(k));
        }
        lemma_partway_end(m0, goal, s);
    }
    out
}

fn project_props(objs: &OrdMap<ObjKey, OrdMap<String, PropReg>>) -> (r: OrdMap<
    ObjKey,
    OrdMap<String, ObjKey>,
>)
    ensures
        r@ == prop_values(objs@),
        r.rows().len() == 0 <==> objs@ == Map::<ObjModel, Map<Seq<char>, PropModel>>::empty(),
{
    let n: usize = objs.len();
    let mut out: OrdMap<ObjKey, OrdMap<String, ObjKey>> = OrdMap::new();
    let ghost m0 = out@;
    let ghost goal = prop_values(objs@);
    let ghost s = objs.rows();
    let mut i: usize = 0;
    proof {
        lemma_partway_start(m0, goal, s);
    }
    while i < n
        invariant
            i <= n,
            n == s.len(),
            s == objs.rows(),
            ascending::<ObjKey, Map<Seq<char>, PropModel>>(s),
            goal == prop_values(objs@),
            m0 == Map::<ObjModel, Map<Seq<char>, ObjModel>>::empty(),
            out@ == partway(m0, goal, s.take(i as int)),
        decreases n - i,
    {
        proof {
            lemma_partway_step::<
                ObjKey,
                Map<Seq<char>, PropModel>,
                Map<Seq<char>, ObjModel>,
            >(m0, goal, s, i as int);
            lemma_row::<ObjKey, Map<Seq<char>, PropModel>>(s, i as int);
        }
        let vals = values_of(objs.value_at(i));
        proof {
            assert(vals@ =~= goal[s[i as int].0]);
        }
        out.insert(objs.key_at(i).dup(), vals);
        i += 1;
    }
    proof {
        assert forall|k: ObjModel| !(#[trigger] has_row(s, k)) implies goal.contains_key(k)
            == m0.contains_key(k) && (goal.contains_key(k) ==> goal[k] == m0[k]) by {
            assert(!objs@.contains_key(k));
        }
        lemma_partway_end(m0, goal, s);
    }
    let none = out.is_empty();
    proof {
        if none {
            assert forall|o: ObjModel| !objs@.contains_key(o) by {
                if objs@.contains_key(o) {
                    assert(out@.contains_key(o));
                }
            }
            assert(objs@ =~= Map::<ObjModel, Map<Seq<char>, PropModel>>::empty());
        } else if objs@ == Map::<ObjModel, Map<Seq<char>, PropModel>>::empty() {
            assert(out@ =~= Map::<ObjModel, Map<Seq<char>, ObjModel>>::empty());
        }
    }
    out
}

/// The tags that a retraction has to observe: the live adds of an element.
pub open spec fn live_add_tags(f: FoldModel, k: GraphKey, o: ObjModel) -> Set<OrderKey> {
    Set::new(
        |ok: OrderKey| live_elem(f, k, o).contains_key(ok) && live_elem(f, k, o)[ok].object is Some,
    )
}

/// Whether an element is present and some live add of it has this source and interval.
pub open spec fn live_asserted(
    f: FoldModel,
    k: GraphKey,
    o: ObjModel,
    source: FieldId,
    valid_from: i64,
    valid_to: Option<i64>,
) -> bool {
    let h = history(live_elem(f, k, o));
    &&& h.len() > 0
    &&& h.last().1 is Some
    &&& exists|i: int|
        0 <= i < h.len() && (#[trigger] h[i]).1 is Some && h[i].0.source == source && h[i].2
            == valid_from && h[i].3 == valid_to
}

impl Fold {
    /// The live add tags of the element `(subject, predicate, object)`, ascending. Closes are no
    /// tags: a retraction erases adds.
    pub fn live_tags(&self, subject: NodeId, predicate: FieldId, object: &ObjKey) -> (r: Vec<
        OrderKey,
    >)
        ensures
            r@ == sorted_items::<OrderKey>(live_add_tags(self@, (subject, predicate), object@)),
    {
        let ghost k = (subject, predicate);
        let mut tags: OrdSet<OrderKey> = OrdSet::new();
        if let Some(KeyState::Many(s)) = self.keys.get(&(subject, predicate)) {
            if let Some(rows) = s.elems.get(object) {
                let live = rows_live(rows, &s.removes, s.hd);
                assert(live@ == live_elem(self@, k, object@));
                let n: usize = live.len();
                let mut i: usize = 0;
                while i < n
                    invariant
                        i <= n,
                        n == live.rows().len(),
                        forall|t: OrderKey| #[trigger]
                            tags@.contains(t) <==> exists|j: int|
                                0 <= j < i && (#[trigger] live.rows()[j]).0 == t
                                    && live.rows()[j].1.object is Some,
                    decreases n - i,
                {
                    if live.value_at(i).object.is_some() {
                        tags.insert(*live.key_at(i));
                    }
                    i += 1;
                }
                proof {
                    let s = live.rows();
                    assert forall|t: OrderKey| #[trigger] tags@.contains(t) == live_add_tags(
                        self@,
                        k,
                        object@,
                    ).contains(t) by {
                        if tags@.contains(t) {
                            let j = choose|j: int|
                                0 <= j < n && (#[trigger] s[j]).0 == t && s[j].1.object is Some;
                            lemma_row::<OrderKey, VersionModel>(s, j);
                        }
                        if live@.contains_key(t) {
                            lemma_key_row::<OrderKey, VersionModel>(s, t);
                            assert(s[row_of(s, t)].0 == t);
                        }
                    }
                }
            }
        }
        assert(tags@ =~= live_add_tags(self@, k, object@));
        let r = tags.to_vec();
        assert(r@ =~= r.deep_view());
        r
    }

    /// Whether an assertion of this element, source and interval would change nothing: the element
    /// is present and a live add row matches.
    pub fn many_live_asserted(
        &self,
        subject: NodeId,
        predicate: FieldId,
        object: &ObjKey,
        source: FieldId,
        valid_from: i64,
        valid_to: Option<i64>,
    ) -> (r: bool)
        ensures
            r == live_asserted(
                self@,
                (subject, predicate),
                object@,
                source,
                valid_from,
                valid_to,
            ),
    {
        proof {
            lemma_history_empty();
        }
        let s = match self.keys.get(&(subject, predicate)) {
            Some(KeyState::Many(s)) => s,
            _ => {
                return false;
            },
        };
        let rows = match s.elems.get(object) {
            Some(rows) => rows,
            None => {
                return false;
            },
        };
        let live = to_history(&rows_live(rows, &s.removes, s.hd));
        let ghost h = history(live_elem(self@, (subject, predicate), object@));
        assert(live.deep_view() == h);
        if live.len() == 0 {
            return false;
        }
        assert(h.last() == live@.last().deep_view());
        if live[live.len() - 1].1.is_none() {
            return false;
        }
        let mut i: usize = 0;
        while i < live.len()
            invariant
                i <= live.len(),
                live.deep_view() == h,
                h == history(live_elem(self@, (subject, predicate), object@)),
                h.len() == live.len(),
                h.last().1 is Some,
                forall|j: int|
                    0 <= j < i ==> !((#[trigger] h[j]).1 is Some && h[j].0.source == source
                        && h[j].2 == valid_from && h[j].3 == valid_to),
            decreases live.len() - i,
        {
            let row = &live[i];
            assert(row.deep_view() == h[i as int]);
            let same_end = match (row.3, valid_to) {
                (None, None) => true,
                (Some(a), Some(b)) => a == b,
                _ => false,
            };
            if row.1.is_some() && row.0.source == source && row.2 == valid_from && same_end {
                return true;
            }
            i += 1;
        }
        false
    }

    /// The canonical observation.
    pub fn observe(&self) -> (r: Snapshot)
        ensures
            r@ == observed(self@),
    {
        let mut snap = Snapshot::default();
        let ghost s0 = snap@;
        let ghost f = self@;
        let ghost mut ks: Set<GraphKey> = Set::empty();
        let ghost mut ns: Set<NodeId> = Set::empty();
        proof {
            lemma_refresh_none(s0, f);
        }
        let n: usize = self.keys.len();
        let mut i: usize = 0;
        while i < n
            invariant
                i <= n,
                f == self@,
                n == self.keys.rows().len(),
                ascending::<(NodeId, FieldId), KeyModel>(self.keys.rows()),
                snap@ == refresh(s0, f, ks, ns),
                forall|j: int| 0 <= j < i ==> ks.contains((#[trigger] self.keys.rows()[j]).0),
            decreases n - i,
        {
            let k = *self.keys.key_at(i);
            self.observe_key_into(&k, &mut snap);
            proof {
                lemma_refresh_key(s0, f, ks, ns, k);
                ks = ks.insert(k);
            }
            i += 1;
        }
        let ghost ks1 = ks;
        let m: usize = self.edge_props.len();
        i = 0;
        while i < m
            invariant
                i <= m,
                f == self@,
                m == self.edge_props.rows().len(),
                ascending::<(NodeId, FieldId), Props>(self.edge_props.rows()),
                snap@ == refresh(s0, f, ks, ns),
                forall|k: GraphKey| ks1.contains(k) ==> #[trigger] ks.contains(k),
                forall|j: int|
                    0 <= j < i ==> ks.contains((#[trigger] self.edge_props.rows()[j]).0),
            decreases m - i,
        {
            let k = *self.edge_props.key_at(i);
            self.observe_key_into(&k, &mut snap);
            proof {
                lemma_refresh_key(s0, f, ks, ns, k);
                ks = ks.insert(k);
            }
            i += 1;
        }
        let p: usize = self.node_attrs.len();
        i = 0;
        while i < p
            invariant
                i <= p,
                f == self@,
                p == self.node_attrs.rows().len(),
                snap@ == refresh(s0, f, ks, ns),
                forall|j: int| 0 <= j < i ==> ns.contains((#[trigger] self.node_attrs.rows()[j]).0),
            decreases p - i,
        {
            let node: NodeId = *self.node_attrs.key_at(i);
            self.observe_node_into(node, &mut snap);
            proof {
                lemma_refresh_node(s0, f, ks, ns, node);
                ns = ns.insert(node);
            }
            i += 1;
        }
        proof {
            let e = empty_fold();
            lemma_observed_empty();
            assert forall|k: GraphKey| !(#[trigger] ks.contains(k)) implies same_key(e, f, k) by {
                if f.keys.contains_key(k) {
                    lemma_key_row::<(NodeId, FieldId), KeyModel>(self.keys.rows(), k);
                    assert(ks1.contains(self.keys.rows()[row_of(self.keys.rows(), k)].0));
                }
                if f.edge_props.contains_key(k) {
                    lemma_key_row::<(NodeId, FieldId), Props>(self.edge_props.rows(), k);
                    assert(ks.contains(self.edge_props.rows()[row_of(
                        self.edge_props.rows(),
                        k,
                    )].0));
                }
            }
            assert forall|x: NodeId| !(#[trigger] ns.contains(x)) implies same_node(e, f, x) by {
                if f.node_attrs.contains_key(x) {
                    lemma_key_row::<NodeId, super::model::AttrModel>(self.node_attrs.rows(), x);
                    assert(ns.contains(self.node_attrs.rows()[row_of(
                        self.node_attrs.rows(),
                        x,
                    )].0));
                }
            }
            law_refresh_is_observe(e, f, ks, ns);
        }
        snap
    }

    /// Observe one graph key anew in an existing snapshot. A key without live state is left out.
    pub fn observe_key_into(&self, k: &(NodeId, FieldId), snap: &mut Snapshot)
        ensures
            final(snap)@ == refresh_key(old(snap)@, self@, *k),
    {
        let ghost f = self@;
        snap.one.remove(k);
        snap.one_history.remove(k);
        snap.many.remove(k);
        snap.many_history.remove(k);
        snap.edge_props.remove(k);
        proof {
            lemma_history_empty();
        }
        if let Some(objs) = self.edge_props.get(k) {
            let projected = project_props(objs);
            if !projected.is_empty() {
                proof {
                    super::state::lemma_remove_insert(old(snap)@.edge_props, *k, projected@);
                }
                snap.edge_props.insert(*k, projected);
            }
        }
        match self.keys.get(k) {
            Some(KeyState::One(s)) => {
                let none: OrdSet<OrderKey> = OrdSet::new();
                let live = to_history(&rows_live(&s.versions, &none, s.hd));
                proof {
                    assert(live_rows(s.versions@, none@, s.hd) =~= above_floor(
                        s.versions@,
                        s.hd,
                    ));
                    assert(live.deep_view() == seen_one(f, *k));
                    assert forall|o: ObjModel| #[trigger] live_elem(f, *k, o) == Map::<
                        OrderKey,
                        VersionModel,
                    >::empty() by {
                    }
                    assert(seen_many(f, *k) =~= Map::empty());
                    assert(present(seen_many(f, *k)) =~= Set::empty());
                }
                if live.len() > 0 {
                    assert(live.deep_view().last() == live@.last().deep_view());
                    let top = live[live.len() - 1].1.dup();
                    proof {
                        super::state::lemma_remove_insert(
                            old(snap)@.one,
                            *k,
                            seen_one(f, *k).last().1,
                        );
                        super::state::lemma_remove_insert(
                            old(snap)@.one_history,
                            *k,
                            seen_one(f, *k),
                        );
                    }
                    snap.one.insert(*k, top);
                    snap.one_history.insert(*k, live);
                }
            },
            Some(KeyState::Many(s)) => {
                let (history, here) = histories(&s.elems, &s.removes, s.hd);
                proof {
                    assert forall|o: ObjModel|
                        #![trigger history@.dom().contains(o)]
                        #![trigger seen_many(f, *k).dom().contains(o)]
                        history@.dom().contains(o) == seen_many(f, *k).dom().contains(o) && (
                        history@.dom().contains(o) ==> history@[o] == seen_many(f, *k)[o]) by {
                        if s.elems@.contains_key(o) {
                            assert(live_elem(f, *k, o) == live_rows(
                                s.elems@[o],
                                s.removes@,
                                s.hd,
                            ));
                        } else {
                            assert(live_elem(f, *k, o) == Map::<OrderKey, VersionModel>::empty());
                        }
                    }
                    assert(history@ =~= seen_many(f, *k));
                    assert(seen_one(f, *k) =~= Seq::empty());
                }
                if !here.is_empty() {
                    proof {
                        super::state::lemma_remove_insert(old(snap)@.many, *k, here@);
                    }
                    snap.many.insert(*k, here);
                }
                if !history.is_empty() {
                    proof {
                        super::state::lemma_remove_insert(
                            old(snap)@.many_history,
                            *k,
                            history@,
                        );
                    }
                    snap.many_history.insert(*k, history);
                }
            },
            None => {
                proof {
                    assert forall|o: ObjModel| #[trigger] live_elem(f, *k, o) == Map::<
                        OrderKey,
                        VersionModel,
                    >::empty() by {
                    }
                    assert(seen_many(f, *k) =~= Map::empty());
                    assert(present(seen_many(f, *k)) =~= Set::empty());
                }
            },
        }
    }

    /// Observe one node's attributes anew in an existing snapshot.
    pub fn observe_node_into(&self, node: NodeId, snap: &mut Snapshot)
        ensures
            final(snap)@ == refresh_node(old(snap)@, self@, node),
    {
        snap.node_types.remove(&node);
        snap.node_labels.remove(&node);
        if let Some(st) = self.node_attrs.get(&node) {
            if let Some(r) = st.ty {
                proof {
                    super::state::lemma_remove_insert(old(snap)@.node_types, node, r.1);
                }
                snap.node_types.insert(node, r.1);
            }
            if let Some(r) = st.label {
                proof {
                    super::state::lemma_remove_insert(old(snap)@.node_labels, node, r.1);
                }
                snap.node_labels.insert(node, r.1);
            }
        }
    }
}

} // verus!
