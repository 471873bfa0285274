//! The fold as bytes, verbatim: every row with its own order key, the tombstones and the floors, so
//! that a decoded fold observes as the encoded one and breaks ties as it does.
use super::model::{
    add_row, apply_write, at_or, empty_fold, empty_key, fold_writes, gc_fold, merge_elems,
    merge_folds, write_key, write_kind, AttrModel, FoldModel, GraphKey, KeyModel, PropModel, Rows,
    VersionModel, WriteModel,
};
use super::laws::{coherent_log, law_order_independent, Write};
use super::state::{KeyState, ManyState, NodeAttrState, OneState, PropReg, Version};
use super::Fold;
use crate::codec::{u32_bytes, Reader, Wire};
use crate::fact::{FieldId, NodeId};
use crate::objkey::{ObjKey, ObjModel, OrderKey};
use crate::order::{Dup, Key};
use crate::ordmap::{
    ascending, has_row, lemma_partway_end, lemma_partway_start, lemma_partway_step, lemma_row,
    lemma_sorted_rows, partway, rows_map, sorted_rows, OrdMap, OrdSet,
};
use vstd::prelude::*;

verus! {

/// A register's row: optional object, start, optional end.
impl Wire for Version {
    open spec fn enc(v: VersionModel) -> Seq<u8> {
        <((Option<ObjKey>, i64), Option<i64>) as Wire>::enc(
            ((v.object, v.valid_from), v.valid_to),
        )
    }

    open spec fn dec(s: Seq<u8>) -> Option<(VersionModel, Seq<u8>)> {
        match <((Option<ObjKey>, i64), Option<i64>) as Wire>::dec(s) {
            Some((((object, valid_from), valid_to), rest)) => Some(
                (VersionModel { object, valid_from, valid_to }, rest),
            ),
            None => None,
        }
    }

    open spec fn fits(v: VersionModel) -> bool {
        <Option<ObjKey> as Wire>::fits(v.object)
    }

    proof fn round_trip(v: VersionModel, tail: Seq<u8>) {
        <((Option<ObjKey>, i64), Option<i64>) as Wire>::round_trip(
            ((v.object, v.valid_from), v.valid_to),
            tail,
        );
    }

    proof fn front(s: Seq<u8>, t: Seq<u8>) {
        <((Option<ObjKey>, i64), Option<i64>) as Wire>::front(s, t);
    }

    fn put(&self, buf: &mut Vec<u8>) {
        self.object.put(buf);
        self.valid_from.put(buf);
        self.valid_to.put(buf);
        assert(buf@ =~= old(buf)@ + Self::enc(self.deep_view()));
    }

    fn read(r: &mut Reader) -> (o: Option<Self>) {
        match <((Option<ObjKey>, i64), Option<i64>) as Wire>::read(r) {
            Some(x) => {
                let ((object, valid_from), valid_to) = x;
                Some(Version { object, valid_from, valid_to })
            },
            None => None,
        }
    }
}

/// An element's row: the object of an add is the element itself, so a flag stands for it.
pub struct FlagRow {
    pub add: bool,
    pub valid_from: i64,
    pub valid_to: Option<i64>,
}

/// The model of a [`FlagRow`].
pub struct FlagModel {
    pub add: bool,
    pub valid_from: i64,
    pub valid_to: Option<i64>,
}

impl DeepView for FlagRow {
    type V = FlagModel;

    open spec fn deep_view(&self) -> FlagModel {
        FlagModel { add: self.add, valid_from: self.valid_from, valid_to: self.valid_to }
    }
}

impl Dup for FlagRow {
    fn dup(&self) -> (r: Self) {
        FlagRow { add: self.add, valid_from: self.valid_from, valid_to: self.valid_to }
    }
}

impl Wire for FlagRow {
    open spec fn enc(v: FlagModel) -> Seq<u8> {
        <((u8, i64), Option<i64>) as Wire>::enc(
            (
                (
                    if v.add {
                        1u8
                    } else {
                        0u8
                    },
                    v.valid_from,
                ),
                v.valid_to,
            ),
        )
    }

    open spec fn dec(s: Seq<u8>) -> Option<(FlagModel, Seq<u8>)> {
        match <((u8, i64), Option<i64>) as Wire>::dec(s) {
            Some((((flag, valid_from), valid_to), rest)) => if flag <= 1 {
                Some((FlagModel { add: flag == 1, valid_from, valid_to }, rest))
            } else {
                None
            },
            None => None,
        }
    }

    open spec fn fits(v: FlagModel) -> bool {
        true
    }

    proof fn round_trip(v: FlagModel, tail: Seq<u8>) {
        let flag: u8 = if v.add {
            1
        } else {
            0
        };
        <((u8, i64), Option<i64>) as Wire>::round_trip(((flag, v.valid_from), v.valid_to), tail);
    }

    proof fn front(s: Seq<u8>, t: Seq<u8>) {
        <((u8, i64), Option<i64>) as Wire>::front(s, t);
    }

    fn put(&self, buf: &mut Vec<u8>) {
        let flag: u8 = if self.add {
            1
        } else {
            0
        };
        ((flag, self.valid_from), self.valid_to).put(buf)
    }

    fn read(r: &mut Reader) -> (o: Option<Self>) {
        match <((u8, i64), Option<i64>) as Wire>::read(r) {
            Some(x) => {
                let ((flag, valid_from), valid_to) = x;
                if flag <= 1 {
                    Some(FlagRow { add: flag == 1, valid_from, valid_to })
                } else {
                    None
                }
            },
            None => None,
        }
    }
}

/// Flagged rows by order key.
pub type FlagRows = Map<OrderKey, FlagModel>;

/// The flag of a row.
pub open spec fn flag_of(v: VersionModel) -> FlagModel {
    FlagModel { add: v.object is Some, valid_from: v.valid_from, valid_to: v.valid_to }
}

/// The row of element `o` that a flag stands for.
pub open spec fn row_of_flag(o: ObjModel, f: FlagModel) -> VersionModel {
    VersionModel {
        object: if f.add {
            Some(o)
        } else {
            None
        },
        valid_from: f.valid_from,
        valid_to: f.valid_to,
    }
}

/// Rows flagged.
pub open spec fn flag_rows(rows: Rows) -> FlagRows {
    Map::new(|ok: OrderKey| rows.contains_key(ok), |ok: OrderKey| flag_of(rows[ok]))
}

/// The rows of element `o` from their flags.
pub open spec fn unflag_rows(o: ObjModel, rows: FlagRows) -> Rows {
    Map::new(|ok: OrderKey| rows.contains_key(ok), |ok: OrderKey| row_of_flag(o, rows[ok]))
}

/// Elements flagged.
pub open spec fn flag_elems(elems: Map<ObjModel, Rows>) -> Map<ObjModel, FlagRows> {
    Map::new(|o: ObjModel| elems.contains_key(o), |o: ObjModel| flag_rows(elems[o]))
}

/// Elements from their flags.
pub open spec fn unflag_elems(elems: Map<ObjModel, FlagRows>) -> Map<ObjModel, Rows> {
    Map::new(|o: ObjModel| elems.contains_key(o), |o: ObjModel| unflag_rows(o, elems[o]))
}

/// Every add row of an element carries that element.
pub open spec fn own_rows(elems: Map<ObjModel, Rows>) -> bool {
    forall|o: ObjModel, ok: OrderKey|
        elems.contains_key(o) && elems[o].contains_key(ok) ==> {
            let v = #[trigger] elems[o][ok];
            v.object is Some ==> v.object == Some(o)
        }
}

/// Flags lose nothing of rows that carry their own element.
proof fn lemma_unflag(elems: Map<ObjModel, Rows>)
    requires
        own_rows(elems),
    ensures
        unflag_elems(flag_elems(elems)) == elems,
{
    let u = unflag_elems(flag_elems(elems));
    assert forall|o: ObjModel| elems.contains_key(o) implies #[trigger] u[o] == elems[o] by {
        assert forall|ok: OrderKey| elems[o].contains_key(ok) implies #[trigger] u[o][ok]
            == elems[o][ok] by {
        }
        assert(u[o] =~= elems[o]);
    }
    assert(u =~= elems);
}

fn to_flags(rows: &OrdMap<OrderKey, Version>) -> (r: OrdMap<OrderKey, FlagRow>)
    ensures
        r@ == flag_rows(rows@),
{
    let n: usize = rows.len();
    let mut out: OrdMap<OrderKey, FlagRow> = OrdMap::new();
    let ghost m0 = out@;
    let ghost goal = flag_rows(rows@);
    let ghost s = rows.rows();
    let mut i: usize = 0;
    proof {
        lemma_partway_start(m0, goal, s);
    }
    while i < n
        invariant
            i <= n,
            n == s.len(),
            s == rows.rows(),
            ascending::<OrderKey, VersionModel>(s),
            goal == flag_rows(rows@),
            m0 == Map::<OrderKey, FlagModel>::empty(),
            out@ == partway(m0, goal, s.take(i as int)),
        decreases n - i,
    {
        proof {
            lemma_partway_step::<OrderKey, VersionModel, FlagModel>(m0, goal, s, i as int);
            lemma_row::<OrderKey, VersionModel>(s, i as int);
        }
        let v = rows.value_at(i);
        out.insert(
            *rows.key_at(i),
            FlagRow { add: v.object.is_some(), valid_from: v.valid_from, valid_to: v.valid_to },
        );
        i += 1;
    }
    proof {
        assert forall|k: OrderKey| !(#[trigger] has_row(s, k)) implies goal.contains_key(k)
            == m0.contains_key(k) && (goal.contains_key(k) ==> goal[k] == m0[k]) by {
            assert(!rows@.contains_key(k));
        }
        lemma_partway_end(m0, goal, s);
    }
    out
}

fn from_flags(o: &ObjKey, rows: &OrdMap<OrderKey, FlagRow>) -> (r: OrdMap<OrderKey, Version>)
    ensures
        r@ == unflag_rows(o@, rows@),
{
    let n: usize = rows.len();
    let mut out: OrdMap<OrderKey, Version> = OrdMap::new();
    let ghost m0 = out@;
    let ghost goal = unflag_rows(o@, rows@);
    let ghost s = rows.rows();
    let mut i: usize = 0;
    proof {
        lemma_partway_start(m0, goal, s);
    }
    while i < n
        invariant
            i <= n,
            n == s.len(),
            s == rows.rows(),
            ascending::<OrderKey, FlagModel>(s),
            goal == unflag_rows(o@, rows@),
            m0 == Map::<OrderKey, VersionModel>::empty(),
            out@ == partway(m0, goal, s.take(i as int)),
        decreases n - i,
    {
        proof {
            lemma_partway_step::<OrderKey, FlagModel, VersionModel>(m0, goal, s, i as int);
            lemma_row::<OrderKey, FlagModel>(s, i as int);
        }
        let f = rows.value_at(i);
        let object = if f.add {
            Some(o.dup())
        } else {
            None
        };
        out.insert(
            *rows.key_at(i),
            Version { object, valid_from: f.valid_from, valid_to: f.valid_to },
        );
        i += 1;
    }
    proof {
        assert forall|k: OrderKey| !(#[trigger] has_row(s, k)) implies goal.contains_key(k)
            == m0.contains_key(k) && (goal.contains_key(k) ==> goal[k] == m0[k]) by {
            assert(!rows@.contains_key(k));
        }
        lemma_partway_end(m0, goal, s);
    }
    out
}

fn flags_of(elems: &OrdMap<ObjKey, OrdMap<OrderKey, Version>>) -> (r: OrdMap<
    ObjKey,
    OrdMap<OrderKey, FlagRow>,
>)
    ensures
        r@ == flag_elems(elems@),
{
    let n: usize = elems.len();
    let mut out: OrdMap<ObjKey, OrdMap<OrderKey, FlagRow>> = OrdMap::new();
    let ghost m0 = out@;
    let ghost goal = flag_elems(elems@);
    let ghost s = elems.rows();
    let mut i: usize = 0;
    proof {
        lemma_partway_start(m0, goal, s);
    }
    while i < n
        invariant
            i <= n,
            n == s.len(),
            s == elems.rows(),
            ascending::<ObjKey, Rows>(s),
            goal == flag_elems(elems@),
            m0 == Map::<ObjModel, FlagRows>::empty(),
            out@ == partway(m0, goal, s.take(i as int)),
        decreases n - i,
    {
        proof {
            lemma_partway_step::<ObjKey, Rows, FlagRows>(m0, goal, s, i as int);
            lemma_row::<ObjKey, Rows>(s, i as int);
        }
        out.insert(elems.key_at(i).dup(), to_flags(elems.value_at(i)));
        i += 1;
    }
    proof {
        assert forall|k: ObjModel| !(#[trigger] has_row(s, k)) implies goal.contains_key(k)
            == m0.contains_key(k) && (goal.contains_key(k) ==> goal[k] == m0[k]) by {
            assert(!elems@.contains_key(k));
        }
        lemma_partway_end(m0, goal, s);
    }
    out
}

fn elems_from(elems: &OrdMap<ObjKey, OrdMap<OrderKey, FlagRow>>) -> (r: OrdMap<
    ObjKey,
    OrdMap<OrderKey, Version>,
>)
    ensures
        r@ == unflag_elems(elems@),
{
    let n: usize = elems.len();
    let mut out: OrdMap<ObjKey, OrdMap<OrderKey, Version>> = OrdMap::new();
    let ghost m0 = out@;
    let ghost goal = unflag_elems(elems@);
    let ghost s = elems.rows();
    let mut i: usize = 0;
    proof {
        lemma_partway_start(m0, goal, s);
    }
    while i < n
        invariant
            i <= n,
            n == s.len(),
            s == elems.rows(),
            ascending::<ObjKey, FlagRows>(s),
            goal == unflag_elems(elems@),
            m0 == Map::<ObjModel, Rows>::empty(),
            out@ == partway(m0, goal, s.take(i as int)),
        decreases n - i,
    {
        proof {
            lemma_partway_step::<ObjKey, FlagRows, Rows>(m0, goal, s, i as int);
            lemma_row::<ObjKey, FlagRows>(s, i as int);
        }
        let o = elems.key_at(i);
        out.insert(o.dup(), from_flags(o, elems.value_at(i)));
        i += 1;
    }
    proof {
        assert forall|k: ObjModel| !(#[trigger] has_row(s, k)) implies goal.contains_key(k)
            == m0.contains_key(k) && (goal.contains_key(k) ==> goal[k] == m0[k]) by {
            assert(!elems@.contains_key(k));
        }
        lemma_partway_end(m0, goal, s);
    }
    out
}

/// The state of a graph key: a cardinality tag, the floor, then the rows; a set's tombstones last.
impl Wire for KeyState {
    open spec fn enc(v: KeyModel) -> Seq<u8> {
        match v {
            KeyModel::One { versions, hd } => <u8 as Wire>::enc(0u8) + <(
                Option<OrderKey>,
                OrdMap<OrderKey, Version>,
            ) as Wire>::enc((hd, versions)),
            KeyModel::Many { elems, removes, hd } => <u8 as Wire>::enc(1u8) + <(
                (Option<OrderKey>, OrdMap<ObjKey, OrdMap<OrderKey, FlagRow>>),
                OrdSet<OrderKey>,
            ) as Wire>::enc(((hd, flag_elems(elems)), removes)),
        }
    }

    open spec fn dec(s: Seq<u8>) -> Option<(KeyModel, Seq<u8>)> {
        match <u8 as Wire>::dec(s) {
            None => None,
            Some(tag) => match tag.0 {
                0u8 => match <(Option<OrderKey>, OrdMap<OrderKey, Version>) as Wire>::dec(tag.1) {
                    Some(((hd, versions), rest)) => Some((KeyModel::One { versions, hd }, rest)),
                    None => None,
                },
                1u8 => match <(
                    (Option<OrderKey>, OrdMap<ObjKey, OrdMap<OrderKey, FlagRow>>),
                    OrdSet<OrderKey>,
                ) as Wire>::dec(tag.1) {
                    Some((((hd, flags), removes), rest)) => Some(
                        (KeyModel::Many { elems: unflag_elems(flags), removes, hd }, rest),
                    ),
                    None => None,
                },
                _ => None,
            },
        }
    }

    open spec fn fits(v: KeyModel) -> bool {
        match v {
            KeyModel::One { versions, hd } => <OrdMap<OrderKey, Version> as Wire>::fits(versions),
            KeyModel::Many { elems, removes, hd } => {
                &&& own_rows(elems)
                &&& <OrdMap<ObjKey, OrdMap<OrderKey, FlagRow>> as Wire>::fits(flag_elems(elems))
                &&& <OrdSet<OrderKey> as Wire>::fits(removes)
            },
        }
    }

    proof fn round_trip(v: KeyModel, tail: Seq<u8>) {
        match v {
            KeyModel::One { versions, hd } => {
                let body = <(Option<OrderKey>, OrdMap<OrderKey, Version>) as Wire>::enc(
                    (hd, versions),
                );
                assert(Self::enc(v) + tail =~= <u8 as Wire>::enc(0u8) + (body + tail));
                <u8 as Wire>::round_trip(0u8, body + tail);
                <(Option<OrderKey>, OrdMap<OrderKey, Version>) as Wire>::round_trip(
                    (hd, versions),
                    tail,
                );
            },
            KeyModel::Many { elems, removes, hd } => {
                let x = ((hd, flag_elems(elems)), removes);
                let body = <(
                    (Option<OrderKey>, OrdMap<ObjKey, OrdMap<OrderKey, FlagRow>>),
                    OrdSet<OrderKey>,
                ) as Wire>::enc(x);
                assert(Self::enc(v) + tail =~= <u8 as Wire>::enc(1u8) + (body + tail));
                <u8 as Wire>::round_trip(1u8, body + tail);
                <(
                    (Option<OrderKey>, OrdMap<ObjKey, OrdMap<OrderKey, FlagRow>>),
                    OrdSet<OrderKey>,
                ) as Wire>::round_trip(x, tail);
                lemma_unflag(elems);
            },
        }
    }

    proof fn front(s: Seq<u8>, t: Seq<u8>) {
        <u8 as Wire>::front(s, t);
        let tag = <u8 as Wire>::dec(s)->0;
        if tag.0 == 0 {
            <(Option<OrderKey>, OrdMap<OrderKey, Version>) as Wire>::front(tag.1, t);
        } else {
            <(
                (Option<OrderKey>, OrdMap<ObjKey, OrdMap<OrderKey, FlagRow>>),
                OrdSet<OrderKey>,
            ) as Wire>::front(tag.1, t);
        }
    }

    fn put(&self, buf: &mut Vec<u8>) {
        match self {
            KeyState::One(s) => {
                0u8.put(buf);
                s.hd.put(buf);
                s.versions.put(buf);
            },
            KeyState::Many(s) => {
                1u8.put(buf);
                s.hd.put(buf);
                flags_of(&s.elems).put(buf);
                s.removes.put(buf);
            },
        }
        assert(buf@ =~= old(buf)@ + Self::enc(self.deep_view()));
    }

    fn read(r: &mut Reader) -> (o: Option<Self>) {
        let tag: u8 = match <u8 as Wire>::read(r) {
            Some(t) => t,
            None => {
                return None;
            },
        };
        match tag {
            0 => match <(Option<OrderKey>, OrdMap<OrderKey, Version>) as Wire>::read(r) {
                Some(x) => {
                    let (hd, versions) = x;
                    Some(KeyState::One(OneState { versions, hd }))
                },
                None => None,
            },
            1 => match <(
                (Option<OrderKey>, OrdMap<ObjKey, OrdMap<OrderKey, FlagRow>>),
                OrdSet<OrderKey>,
            ) as Wire>::read(r) {
                Some(x) => {
                    let ((hd, flags), removes) = x;
                    Some(KeyState::Many(ManyState { elems: elems_from(&flags), removes, hd }))
                },
                None => None,
            },
            _ => None,
        }
    }
}

/// A property register: value, then order key.
impl Wire for PropReg {
    open spec fn enc(v: PropModel) -> Seq<u8> {
        <(ObjKey, OrderKey) as Wire>::enc((v.value, v.ok))
    }

    open spec fn dec(s: Seq<u8>) -> Option<(PropModel, Seq<u8>)> {
        match <(ObjKey, OrderKey) as Wire>::dec(s) {
            Some(((value, ok), rest)) => Some((PropModel { value, ok }, rest)),
            None => None,
        }
    }

    open spec fn fits(v: PropModel) -> bool {
        <ObjKey as Wire>::fits(v.value)
    }

    proof fn round_trip(v: PropModel, tail: Seq<u8>) {
        <(ObjKey, OrderKey) as Wire>::round_trip((v.value, v.ok), tail);
    }

    proof fn front(s: Seq<u8>, t: Seq<u8>) {
        <(ObjKey, OrderKey) as Wire>::front(s, t);
    }

    fn put(&self, buf: &mut Vec<u8>) {
        self.value.put(buf);
        self.ok.put(buf);
        assert(buf@ =~= old(buf)@ + Self::enc(self.deep_view()));
    }

    fn read(r: &mut Reader) -> (o: Option<Self>) {
        match <(ObjKey, OrderKey) as Wire>::read(r) {
            Some(x) => {
                let (value, ok) = x;
                Some(PropReg { value, ok })
            },
            None => None,
        }
    }
}

/// A node's registers: optional type, then optional label, each after its order key.
impl Wire for NodeAttrState {
    open spec fn enc(v: AttrModel) -> Seq<u8> {
        <(Option<(OrderKey, u32)>, Option<(OrderKey, u8)>) as Wire>::enc((v.ty, v.label))
    }

    open spec fn dec(s: Seq<u8>) -> Option<(AttrModel, Seq<u8>)> {
        match <(Option<(OrderKey, u32)>, Option<(OrderKey, u8)>) as Wire>::dec(s) {
            Some(((ty, label), rest)) => Some((AttrModel { ty, label }, rest)),
            None => None,
        }
    }

    open spec fn fits(v: AttrModel) -> bool {
        true
    }

    proof fn round_trip(v: AttrModel, tail: Seq<u8>) {
        <(Option<(OrderKey, u32)>, Option<(OrderKey, u8)>) as Wire>::round_trip(
            (v.ty, v.label),
            tail,
        );
    }

    proof fn front(s: Seq<u8>, t: Seq<u8>) {
        <(Option<(OrderKey, u32)>, Option<(OrderKey, u8)>) as Wire>::front(s, t);
    }

    fn put(&self, buf: &mut Vec<u8>) {
        (self.ty, self.label).put(buf)
    }

    fn read(r: &mut Reader) -> (o: Option<Self>) {
        match <(Option<(OrderKey, u32)>, Option<(OrderKey, u8)>) as Wire>::read(r) {
            Some(x) => {
                let (ty, label) = x;
                Some(NodeAttrState { ty, label })
            },
            None => None,
        }
    }
}

/// The maps of a fold, in the order in which they are encoded.
pub type FoldMaps = (
    (
        OrdMap<(NodeId, FieldId), KeyState>,
        OrdMap<(NodeId, FieldId), OrdMap<ObjKey, OrdMap<String, PropReg>>>,
    ),
    OrdMap<NodeId, NodeAttrState>,
);

/// The bytes of a state.
pub open spec fn fold_bytes(f: FoldModel) -> Seq<u8> {
    <FoldMaps as Wire>::enc(((f.keys, f.edge_props), f.node_attrs))
}

/// The state that some bytes are, all of them.
pub open spec fn fold_of_bytes(s: Seq<u8>) -> Option<FoldModel> {
    match <FoldMaps as Wire>::dec(s) {
        Some((((keys, edge_props), node_attrs), rest)) => if rest.len() == 0 {
            Some(FoldModel { keys, edge_props, node_attrs })
        } else {
            None
        },
        None => None,
    }
}

/// Whether the maps of a state are finite, the lengths in it fit their length fields, and every add
/// row carries its own element.
pub open spec fn fold_fits(f: FoldModel) -> bool {
    <FoldMaps as Wire>::fits(((f.keys, f.edge_props), f.node_attrs))
}

impl Fold {
    /// Append the bytes of this fold.
    pub fn encode_into(&self, buf: &mut Vec<u8>)
        ensures
            final(buf)@ == old(buf)@ + fold_bytes(self@),
    {
        self.keys.put(buf);
        self.edge_props.put(buf);
        self.node_attrs.put(buf);
        assert(buf@ =~= old(buf)@ + fold_bytes(self@));
    }

    /// The fold that `bytes` encode; `None` where they are malformed or something follows.
    pub fn decode(bytes: &[u8]) -> (r: Option<Fold>)
        ensures
            r is Some == fold_of_bytes(bytes@) is Some,
            r matches Some(f) ==> fold_of_bytes(bytes@) == Some(f@),
    {
        let mut rd = Reader::new(bytes);
        match <FoldMaps as Wire>::read(&mut rd) {
            Some(x) => {
                let ((keys, edge_props), node_attrs) = x;
                if rd.done() {
                    Some(Fold { keys, edge_props, node_attrs })
                } else {
                    None
                }
            },
            None => None,
        }
    }
}

/// An encoded fold is decoded to the same state.
pub proof fn law_fold_round_trip(f: FoldModel)
    requires
        fold_fits(f),
    ensures
        fold_of_bytes(fold_bytes(f)) == Some(f),
{
    <FoldMaps as Wire>::round_trip(((f.keys, f.edge_props), f.node_attrs), Seq::empty());
    assert(fold_bytes(f) + Seq::<u8>::empty() =~= fold_bytes(f));
}

/// Nothing else is the bytes of a state: no proper part of them from the front is a state, and
/// neither is anything longer.
pub proof fn law_fold_bytes_whole(f: FoldModel, n: int, more: Seq<u8>)
    requires
        fold_fits(f),
        0 <= n < fold_bytes(f).len(),
        more.len() > 0,
    ensures
        fold_of_bytes(fold_bytes(f).take(n)) is None,
        fold_of_bytes(fold_bytes(f) + more) is None,
{
    let b = fold_bytes(f);
    let v = ((f.keys, f.edge_props), f.node_attrs);
    <FoldMaps as Wire>::round_trip(v, more);
    <FoldMaps as Wire>::round_trip(v, Seq::empty());
    assert(b + Seq::<u8>::empty() =~= b);
    let part = b.take(n);
    if fold_of_bytes(part) is Some {
        <FoldMaps as Wire>::front(part, b.skip(n));
        assert(part + b.skip(n) =~= b);
        let rest = (<FoldMaps as Wire>::dec(part)->0).1;
        assert(rest + b.skip(n) =~= b.skip(n));
    }
}

/// States with the same bytes are the same.
pub proof fn law_fold_bytes_unique(f: FoldModel, g: FoldModel)
    requires
        fold_fits(f),
        fold_fits(g),
        fold_bytes(f) == fold_bytes(g),
    ensures
        f == g,
{
    law_fold_round_trip(f);
    law_fold_round_trip(g);
}

/// The bytes do not depend on the order of the writes: logs with the same writes, each as often,
/// encode alike.
pub proof fn law_bytes_order_independent(a: Seq<Write>, b: Seq<Write>)
    requires
        coherent_log(a),
        a.to_multiset() == b.to_multiset(),
    ensures
        fold_bytes(fold_writes(empty_fold(), a)) == fold_bytes(fold_writes(empty_fold(), b)),
{
    law_order_independent(empty_fold(), a, b);
}

/// The state before any write is three empty maps: twelve zero bytes.
pub proof fn law_empty_fold_bytes()
    ensures
        fold_bytes(empty_fold()) == Seq::new(12, |i: int| 0u8),
{
    let f = empty_fold();
    lemma_no_rows::<(NodeId, FieldId), KeyModel>();
    lemma_no_rows::<(NodeId, FieldId), Map<ObjModel, Map<Seq<char>, PropModel>>>();
    lemma_no_rows::<NodeId, AttrModel>();
    let zero = <u32 as Wire>::enc(0u32);
    reveal(u32_bytes);
    assert(zero =~= seq![0u8, 0u8, 0u8, 0u8]);
    assert(<OrdMap<(NodeId, FieldId), KeyState> as Wire>::enc(f.keys) =~= zero);
    assert(<OrdMap<(NodeId, FieldId), OrdMap<ObjKey, OrdMap<String, PropReg>>> as Wire>::enc(
        f.edge_props,
    ) =~= zero);
    assert(<OrdMap<NodeId, NodeAttrState> as Wire>::enc(f.node_attrs) =~= zero);
    assert(fold_bytes(f) =~= zero + zero + zero);
    assert(fold_bytes(f) =~= Seq::new(12, |i: int| 0u8));
}

proof fn lemma_no_rows<K: Key, T>()
    ensures
        sorted_rows::<K, T>(Map::empty()).len() == 0,
{
    let s = Seq::<(<K as DeepView>::V, T)>::empty();
    assert(rows_map(s) =~= Map::<<K as DeepView>::V, T>::empty());
    lemma_sorted_rows::<K, T>(s);
}

/// In every set of a state each add row carries its own element.
pub open spec fn rows_owned(f: FoldModel) -> bool {
    forall|k: GraphKey| #[trigger]
        f.keys.contains_key(k) ==> (f.keys[k] matches KeyModel::Many { elems, .. } ==> own_rows(
            elems,
        ))
}

proof fn lemma_add_row_owned(
    elems: Map<ObjModel, Rows>,
    object: ObjModel,
    ok: OrderKey,
    v: VersionModel,
)
    requires
        own_rows(elems),
        v.object is Some ==> v.object == Some(object),
    ensures
        own_rows(add_row(elems, object, ok, v)),
{
    let r = add_row(elems, object, ok, v);
    assert forall|o: ObjModel, x: OrderKey| r.contains_key(o) && r[o].contains_key(x) implies ({
        let y = #[trigger] r[o][x];
        y.object is Some ==> y.object == Some(o)
    }) by {
        if o != object || x != ok {
            assert(elems.contains_key(o) && elems[o].contains_key(x));
            assert(r[o][x] == elems[o][x]);
        }
    }
}

/// Every add row carries its own element, in the empty state and after every write, so of any state
/// that writes make a round trip through bytes asks no more than that its lengths fit.
pub proof fn law_rows_stay_owned(f: FoldModel, ws: Seq<(WriteModel, OrderKey)>)
    requires
        rows_owned(f),
    ensures
        rows_owned(fold_writes(f, ws)),
        rows_owned(empty_fold()),
    decreases ws.len(),
{
    if ws.len() > 0 {
        law_rows_stay_owned(f, ws.drop_last());
        let g = fold_writes(f, ws.drop_last());
        let (w, ok) = ws.last();
        let h = apply_write(g, w, ok);
        assert forall|k: GraphKey| #[trigger] h.keys.contains_key(k) implies (
        h.keys[k] matches KeyModel::Many { elems, .. } ==> own_rows(elems)) by {
            if write_key(w) == Some(k) && write_kind(w) is Some {
                let st = at_or(g.keys, k, empty_key(write_kind(w)->0));
                assert(st matches KeyModel::Many { elems, .. } ==> own_rows(elems)) by {
                    if g.keys.contains_key(k) {
                        assert(g.keys.contains_key(k));
                    }
                }
                match (st, w) {
                    (
                        KeyModel::Many { elems, .. },
                        WriteModel::AddMany { object, valid_from, valid_to, .. },
                    ) => {
                        lemma_add_row_owned(
                            elems,
                            object,
                            ok,
                            VersionModel { object: Some(object), valid_from, valid_to },
                        );
                    },
                    (
                        KeyModel::Many { elems, .. },
                        WriteModel::CloseMany { object, valid_from, .. },
                    ) => {
                        lemma_add_row_owned(
                            elems,
                            object,
                            ok,
                            VersionModel { object: None, valid_from, valid_to: None },
                        );
                    },
                    _ => {},
                }
            } else {
                assert(g.keys.contains_key(k));
            }
        }
    }
}

/// A merge and a collection keep that every add row carries its own element.
pub proof fn law_merged_rows_stay_owned(a: FoldModel, b: FoldModel)
    requires
        rows_owned(a),
        rows_owned(b),
    ensures
        rows_owned(merge_folds(a, b)),
        rows_owned(gc_fold(a)),
{
    let m = merge_folds(a, b);
    assert forall|k: GraphKey| #[trigger] m.keys.contains_key(k) implies (
    m.keys[k] matches KeyModel::Many { elems, .. } ==> own_rows(elems)) by {
        if a.keys.contains_key(k) && b.keys.contains_key(k) {
            match (a.keys[k], b.keys[k]) {
                (KeyModel::Many { elems: ea, .. }, KeyModel::Many { elems: eb, .. }) => {
                    let r = merge_elems(ea, eb);
                    assert forall|o: ObjModel, x: OrderKey|
                        r.contains_key(o) && r[o].contains_key(x) implies ({
                        let y = #[trigger] r[o][x];
                        y.object is Some ==> y.object == Some(o)
                    }) by {
                        if eb.contains_key(o) && eb[o].contains_key(x) {
                            assert(r[o][x] == eb[o][x]);
                        } else {
                            assert(ea.contains_key(o) && ea[o].contains_key(x));
                            assert(r[o][x] == ea[o][x]);
                        }
                    }
                },
                _ => {},
            }
        }
    }
    let g = gc_fold(a);
    assert forall|k: GraphKey| #[trigger] g.keys.contains_key(k) implies (
    g.keys[k] matches KeyModel::Many { elems, .. } ==> own_rows(elems)) by {
        assert(a.keys.contains_key(k));
        match a.keys[k] {
            KeyModel::Many { elems: ea, removes, hd } => {
                let r = g.keys[k]->elems;
                assert forall|o: ObjModel, x: OrderKey|
                    r.contains_key(o) && r[o].contains_key(x) implies ({
                    let y = #[trigger] r[o][x];
                    y.object is Some ==> y.object == Some(o)
                }) by {
                    assert(ea.contains_key(o) && ea[o].contains_key(x));
                    assert(r[o][x] == ea[o][x]);
                }
            },
            _ => {},
        }
    }
}

} // verus!
