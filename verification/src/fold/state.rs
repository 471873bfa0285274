//! The executable state of one graph key, one edge property and one node.
use super::model::{
    above, above_floor, add_row, at_or, elems_above_floor, empty_key, gc_key, key_kind, max_floor,
    merge_elems, merge_key, AttrModel, KeyModel, PropModel, Rows, VersionModel,
};
use crate::catalog::Cardinality;
use crate::codec::lemma_push_to_set;
use crate::fact::FieldId;
use crate::objkey::{ObjKey, ObjModel, OrderKey};
use crate::order::{Dup, Key};
use crate::ordmap::{
    ascending, has_row, lemma_partway_end, lemma_partway_start, lemma_partway_step, lemma_row,
    partway, OrdMap, OrdSet,
};
use vstd::prelude::*;

verus! {

/// One version row.
#[derive(Clone, Debug, PartialEq)]
pub struct Version {
    pub object: Option<ObjKey>,
    pub valid_from: i64,
    pub valid_to: Option<i64>,
}

impl DeepView for Version {
    type V = VersionModel;

    open spec fn deep_view(&self) -> VersionModel {
        VersionModel {
            object: self.object.deep_view(),
            valid_from: self.valid_from,
            valid_to: self.valid_to,
        }
    }
}

impl Dup for Version {
    fn dup(&self) -> (r: Self) {
        Version {
            object: self.object.dup(),
            valid_from: self.valid_from,
            valid_to: self.valid_to,
        }
    }
}

/// A register with history.
#[derive(Clone, Debug)]
pub struct OneState {
    pub versions: OrdMap<OrderKey, Version>,
    pub hd: Option<OrderKey>,
}

/// A set of elements with their rows, tombstones and floor.
#[derive(Clone, Debug)]
pub struct ManyState {
    pub elems: OrdMap<ObjKey, OrdMap<OrderKey, Version>>,
    pub removes: OrdSet<OrderKey>,
    pub hd: Option<OrderKey>,
}

/// The state of one graph key.
#[derive(Clone, Debug)]
pub enum KeyState {
    One(OneState),
    Many(ManyState),
}

impl DeepView for KeyState {
    type V = KeyModel;

    open spec fn deep_view(&self) -> KeyModel {
        match self {
            KeyState::One(s) => KeyModel::One { versions: s.versions@, hd: s.hd },
            KeyState::Many(s) => KeyModel::Many {
                elems: s.elems@,
                removes: s.removes@,
                hd: s.hd,
            },
        }
    }
}

impl Dup for KeyState {
    fn dup(&self) -> (r: Self) {
        match self {
            KeyState::One(s) => KeyState::One(OneState { versions: s.versions.dup(), hd: s.hd }),
            KeyState::Many(s) => KeyState::Many(
                ManyState { elems: s.elems.dup(), removes: s.removes.dup(), hd: s.hd },
            ),
        }
    }
}

/// The greater of two floors.
pub fn join_hd(a: Option<OrderKey>, b: Option<OrderKey>) -> (r: Option<OrderKey>)
    ensures
        r == max_floor(a, b),
{
    match (a, b) {
        (None, _) => b,
        (_, None) => a,
        (Some(x), Some(y)) => if x.precedes(&y) {
            b
        } else {
            a
        },
    }
}

/// Whether `ok` is above the floor.
pub fn is_above(hd: Option<OrderKey>, ok: &OrderKey) -> (r: bool)
    ensures
        r == above(hd, *ok),
{
    match hd {
        None => true,
        Some(h) => h.precedes(ok),
    }
}

/// Dropping a key and giving it a value is giving it that value.
pub proof fn lemma_remove_insert<K, V>(m: Map<K, V>, k: K, v: V)
    ensures
        m.remove(k).insert(k, v) == m.insert(k, v),
{
    assert(m.remove(k).insert(k, v) =~= m.insert(k, v));
}

fn put_row(
    elems: &mut OrdMap<ObjKey, OrdMap<OrderKey, Version>>,
    object: &ObjKey,
    ok: OrderKey,
    v: Version,
)
    ensures
        final(elems)@ == add_row(old(elems)@, object@, ok, v.deep_view()),
{
    let mut rows = match elems.take(object) {
        Some(rows) => rows,
        None => OrdMap::new(),
    };
    rows.insert(ok, v);
    elems.insert(object.dup(), rows);
    proof {
        lemma_remove_insert(
            old(elems)@,
            object@,
            at_or(old(elems)@, object@, Map::empty()).insert(ok, v.deep_view()),
        );
    }
}

impl KeyState {
    /// The state before any write.
    pub fn new(c: Cardinality) -> (r: Self)
        ensures
            r.deep_view() == empty_key(c),
    {
        match c {
            Cardinality::One => KeyState::One(OneState { versions: OrdMap::new(), hd: None }),
            Cardinality::Many => KeyState::Many(
                ManyState { elems: OrdMap::new(), removes: OrdSet::new(), hd: None },
            ),
        }
    }

    /// Set the value of a register from `ok` on.
    pub fn set_one(&mut self, object: Option<&ObjKey>, valid_from: i64, valid_to: Option<i64>, ok: OrderKey)
        requires
            old(self).deep_view() is One,
        ensures
            final(self).deep_view() == (KeyModel::One {
                versions: old(self).deep_view()->versions.insert(
                    ok,
                    VersionModel {
                        object: match object {
                            Some(o) => Some(o@),
                            None => None,
                        },
                        valid_from,
                        valid_to,
                    },
                ),
                hd: old(self).deep_view()->One_hd,
            }),
    {
        let object = match object {
            Some(o) => Some(o.dup()),
            None => None,
        };
        match self {
            KeyState::One(s) => {
                s.versions.insert(ok, Version { object, valid_from, valid_to });
            },
            KeyState::Many(_) => {},
        }
    }

    /// Add a row to an element: an add, or a close where `add` is false.
    pub fn row_many(
        &mut self,
        object: &ObjKey,
        add: bool,
        valid_from: i64,
        valid_to: Option<i64>,
        ok: OrderKey,
    )
        requires
            old(self).deep_view() is Many,
        ensures
            final(self).deep_view() == (KeyModel::Many {
                elems: add_row(
                    old(self).deep_view()->elems,
                    object@,
                    ok,
                    VersionModel {
                        object: if add {
                            Some(object@)
                        } else {
                            None
                        },
                        valid_from,
                        valid_to,
                    },
                ),
                removes: old(self).deep_view()->removes,
                hd: old(self).deep_view()->Many_hd,
            }),
    {
        let value = if add {
            Some(object.dup())
        } else {
            None
        };
        match self {
            KeyState::Many(s) => {
                put_row(
                    &mut s.elems,
                    object,
                    ok,
                    Version { object: value, valid_from, valid_to },
                );
            },
            KeyState::One(_) => {},
        }
    }

    /// Tombstone the observed add tags.
    pub fn remove_many(&mut self, observed: &Vec<OrderKey>)
        requires
            old(self).deep_view() is Many,
        ensures
            final(self).deep_view() == (KeyModel::Many {
                elems: old(self).deep_view()->elems,
                removes: old(self).deep_view()->removes.union(observed@.to_set()),
                hd: old(self).deep_view()->Many_hd,
            }),
    {
        match self {
            KeyState::Many(s) => {
                tombstone(&mut s.removes, observed);
            },
            KeyState::One(_) => {},
        }
    }

    /// Raise the floor.
    pub fn hard_delete(&mut self, ok: OrderKey)
        ensures
            old(self).deep_view() is One ==> final(self).deep_view() == (KeyModel::One {
                versions: old(self).deep_view()->versions,
                hd: max_floor(old(self).deep_view()->One_hd, Some(ok)),
            }),
            old(self).deep_view() is Many ==> final(self).deep_view() == (KeyModel::Many {
                elems: old(self).deep_view()->elems,
                removes: old(self).deep_view()->removes,
                hd: max_floor(old(self).deep_view()->Many_hd, Some(ok)),
            }),
    {
        match self {
            KeyState::One(s) => {
                s.hd = join_hd(s.hd, Some(ok));
            },
            KeyState::Many(s) => {
                s.hd = join_hd(s.hd, Some(ok));
            },
        }
    }
}

fn tombstone(removes: &mut OrdSet<OrderKey>, observed: &Vec<OrderKey>)
    ensures
        final(removes)@ == old(removes)@.union(observed@.to_set()),
{
    let mut i: usize = 0;
    while i < observed.len()
        invariant
            i <= observed.len(),
            removes@ == old(removes)@.union(observed@.take(i as int).to_set()),
        decreases observed.len() - i,
    {
        removes.insert(observed[i]);
        proof {
            let a = observed@.take(i as int);
            let b = observed@.take(i + 1);
            assert(b =~= a.push(observed@[i as int]));
            lemma_push_to_set(a, observed@[i as int]);
            assert(removes@ =~= old(removes)@.union(b.to_set()));
        }
        i += 1;
    }
    assert(observed@.take(i as int) =~= observed@);
    assert(observed@.take(0) =~= Seq::empty());
}

/// An edge property register.
#[derive(Clone, Debug, PartialEq)]
pub struct PropReg {
    pub value: ObjKey,
    pub ok: OrderKey,
}

impl DeepView for PropReg {
    type V = PropModel;

    open spec fn deep_view(&self) -> PropModel {
        PropModel { value: self.value@, ok: self.ok }
    }
}

impl Dup for PropReg {
    fn dup(&self) -> (r: Self) {
        PropReg { value: self.value.dup(), ok: self.ok }
    }
}

/// The registers of a node.
#[derive(Clone, Debug, PartialEq)]
pub struct NodeAttrState {
    pub ty: Option<(OrderKey, FieldId)>,
    pub label: Option<(OrderKey, u8)>,
}

impl DeepView for NodeAttrState {
    type V = AttrModel;

    open spec fn deep_view(&self) -> AttrModel {
        AttrModel { ty: self.ty, label: self.label }
    }
}

impl Dup for NodeAttrState {
    fn dup(&self) -> (r: Self) {
        NodeAttrState { ty: self.ty, label: self.label }
    }
}

impl KeyState {
    /// Join the state of the same key from elsewhere.
    pub fn merge(&mut self, other: &KeyState)
        requires
            key_kind(old(self).deep_view()) == key_kind(other.deep_view()),
        ensures
            final(self).deep_view() == merge_key(old(self).deep_view(), other.deep_view()),
    {
        match self {
            KeyState::One(a) => match other {
                KeyState::One(b) => {
                    a.versions.extend_from(&b.versions);
                    a.hd = join_hd(a.hd, b.hd);
                },
                KeyState::Many(_) => {},
            },
            KeyState::Many(a) => match other {
                KeyState::Many(b) => {
                    join_elems(&mut a.elems, &b.elems);
                    a.removes.extend_from(&b.removes);
                    a.hd = join_hd(a.hd, b.hd);
                },
                KeyState::One(_) => {},
            },
        }
    }

    /// Drop what the floor dominates.
    pub fn gc(&mut self)
        ensures
            final(self).deep_view() == gc_key(old(self).deep_view()),
    {
        match self {
            KeyState::One(s) => {
                let kept = rows_above(&s.versions, s.hd);
                s.versions = kept;
            },
            KeyState::Many(s) => {
                if s.hd.is_some() {
                    let elems = elems_above(&s.elems, s.hd);
                    let removes = tags_above(&s.removes, s.hd);
                    s.elems = elems;
                    s.removes = removes;
                }
            },
        }
    }
}

fn join_elems(
    a: &mut OrdMap<ObjKey, OrdMap<OrderKey, Version>>,
    b: &OrdMap<ObjKey, OrdMap<OrderKey, Version>>,
)
    ensures
        final(a)@ == merge_elems(old(a)@, b@),
{
    let n: usize = b.len();
    let ghost m0 = a@;
    let ghost goal = merge_elems(m0, b@);
    let ghost rows = b.rows();
    let mut i: usize = 0;
    proof {
        lemma_partway_start(m0, goal, rows);
    }
    while i < n
        invariant
            i <= n,
            n == rows.len(),
            rows == b.rows(),
            ascending::<ObjKey, Rows>(rows),
            goal == merge_elems(m0, b@),
            a@ == partway(m0, goal, rows.take(i as int)),
        decreases n - i,
    {
        proof {
            lemma_partway_step::<ObjKey, Rows, Rows>(m0, goal, rows, i as int);
            lemma_row::<ObjKey, Rows>(rows, i as int);
        }
        let ghost before = a@;
        let obj = b.key_at(i);
        let mut e = match a.take(obj) {
            Some(e) => e,
            None => OrdMap::new(),
        };
        e.extend_from(b.value_at(i));
        proof {
            lemma_remove_insert(before, obj@, e@);
            assert(goal.contains_key(obj@));
            assert(e@ == goal[obj@]);
        }
        a.insert(obj.dup(), e);
        i += 1;
    }
    proof {
        assert forall|k: ObjModel| !(#[trigger] has_row(rows, k)) implies goal.contains_key(k)
            == m0.contains_key(k) && (goal.contains_key(k) ==> goal[k] == m0[k]) by {
            assert(!b@.contains_key(k));
            if m0.contains_key(k) {
                assert(m0[k].union_prefer_right(Map::empty()) =~= m0[k]);
            }
        }
        lemma_partway_end(m0, goal, rows);
    }
}

/// The rows above the floor.
pub fn rows_above(rows: &OrdMap<OrderKey, Version>, hd: Option<OrderKey>) -> (r: OrdMap<
    OrderKey,
    Version,
>)
    ensures
        r@ == above_floor(rows@, hd),
{
    let n: usize = rows.len();
    let mut out: OrdMap<OrderKey, Version> = OrdMap::new();
    let ghost m0 = out@;
    let ghost goal = above_floor(rows@, hd);
    let ghost s = rows.rows();
    let mut i: usize = 0;
    proof {
        lemma_partway_start(m0, goal, s);
    }
    while i < n
        invariant
            i <= n,
            n == s.len(),
            s == rows.rows(),
            ascending::<OrderKey, VersionModel>(s),
            goal == above_floor(rows@, hd),
            m0 == Map::<OrderKey, VersionModel>::empty(),
            out@ == partway(m0, goal, s.take(i as int)),
        decreases n - i,
    {
        proof {
            lemma_partway_step::<OrderKey, VersionModel, VersionModel>(m0, goal, s, i as int);
            lemma_row::<OrderKey, VersionModel>(s, i as int);
        }
        let ok = *rows.key_at(i);
        if is_above(hd, &ok) {
            out.insert(ok, rows.value_at(i).dup());
        } else {
            assert(out@.remove(ok) =~= out@);
        }
        i += 1;
    }
    proof {
        assert forall|k: OrderKey| !(#[trigger] has_row(s, k)) implies goal.contains_key(k)
            == m0.contains_key(k) && (goal.contains_key(k) ==> goal[k] == m0[k]) by {
            assert(!rows@.contains_key(k));
        }
        lemma_partway_end(m0, goal, s);
    }
    out
}

fn elems_above(elems: &OrdMap<ObjKey, OrdMap<OrderKey, Version>>, hd: Option<OrderKey>) -> (r:
    OrdMap<ObjKey, OrdMap<OrderKey, Version>>)
    ensures
        r@ == elems_above_floor(elems@, hd),
{
    let n: usize = elems.len();
    let mut out: OrdMap<ObjKey, OrdMap<OrderKey, Version>> = OrdMap::new();
    let ghost m0 = out@;
    let ghost goal = elems_above_floor(elems@, hd);
    let ghost s = elems.rows();
    let mut i: usize = 0;
    proof {
        lemma_partway_start(m0, goal, s);
    }
    while i < n
        invariant
            i <= n,
            n == s.len(),
            s == elems.rows(),
            ascending::<ObjKey, Rows>(s),
            goal == elems_above_floor(elems@, hd),
            m0 == Map::<ObjModel, Rows>::empty(),
            out@ == partway(m0, goal, s.take(i as int)),
        decreases n - i,
    {
        proof {
            lemma_partway_step::<ObjKey, Rows, Rows>(m0, goal, s, i as int);
            lemma_row::<ObjKey, Rows>(s, i as int);
        }
        let obj = elems.key_at(i);
        let kept = rows_above(elems.value_at(i), hd);
        if !kept.is_empty() {
            out.insert(obj.dup(), kept);
        } else {
            assert(out@.remove(obj@) =~= out@);
        }
        i += 1;
    }
    proof {
        assert forall|k: ObjModel| !(#[trigger] has_row(s, k)) implies goal.contains_key(k)
            == m0.contains_key(k) && (goal.contains_key(k) ==> goal[k] == m0[k]) by {
            assert(!elems@.contains_key(k));
        }
        lemma_partway_end(m0, goal, s);
    }
    out
}

fn tags_above(tags: &OrdSet<OrderKey>, hd: Option<OrderKey>) -> (r: OrdSet<OrderKey>)
    ensures
        r@ == tags@.filter(|ok: OrderKey| above(hd, ok)),
{
    let n: usize = tags.len();
    let mut out: OrdSet<OrderKey> = OrdSet::new();
    let mut i: usize = 0;
    while i < n
        invariant
            i <= n,
            n == tags.items().len(),
            forall|k: OrderKey| #[trigger]
                out@.contains(k) <==> tags.items().take(i as int).contains(k) && above(hd, k),
        decreases n - i,
    {
        let t = *tags.at(i);
        proof {
            let a = tags.items().take(i as int);
            let b = tags.items().take(i + 1);
            assert(b =~= a.push(t));
            assert forall|k: OrderKey| #[trigger] b.contains(k) == (a.contains(k) || k == t) by {
                if a.contains(k) {
                    let j = choose|j: int| 0 <= j < a.len() && a[j] == k;
                    assert(b[j] == k);
                }
                assert(b[i as int] == t);
            }
        }
        if is_above(hd, &t) {
            out.insert(t);
        }
        i += 1;
    }
    proof {
        assert(tags.items().take(n as int) =~= tags.items());
        assert(out@ =~= tags@.filter(|ok: OrderKey| above(hd, ok)));
    }
    out
}

} // verus!
