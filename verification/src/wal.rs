//! The framed write-ahead log: `[payload length][checksum][payload]`, all integers little-endian.
//!
//! Recovery reads frames in order and stops at the first that is short, garbled or undecodable, so
//! that a crash in the middle of an append costs that record alone and never a committed prefix.
use crate::catalog::Cardinality;
use crate::changelog::WriteKind;
use crate::codec::{count32, lemma_number_bytes, put_count, put_str, Reader, Wire};
use crate::fact::{FieldId, NodeId};
use crate::fold::model::WriteModel;
use crate::objkey::{ObjKey, ObjModel, OrderKey};
use vstd::prelude::*;

verus! {

/// Longer records are taken for garbage: no single write comes near this.
pub const MAX_RECORD_LEN: u32 = 16777216;

/// The tag of the frame that names the first sequence number of a log.
pub const WAL_START_TAG: u8 = 255;

/// The 32-bit FNV-1a hash.
pub open spec fn fnv1a32(s: Seq<u8>) -> u32
    decreases s.len(),
{
    if s.len() == 0 {
        0x811c_9dc5u32
    } else {
        (fnv1a32(s.drop_last()) ^ (s.last() as u32)).wrapping_mul(0x0100_0193u32)
    }
}

/// The checksum of a payload: FNV-1a, which detects torn writes.
pub fn checksum(bytes: &[u8]) -> (r: u32)
    ensures
        r == fnv1a32(bytes@),
{
    let mut h: u32 = 0x811c_9dc5;
    let mut i: usize = 0;
    assert(bytes@.take(0) =~= Seq::empty());
    while i < bytes.len()
        invariant
            i <= bytes.len(),
            h == fnv1a32(bytes@.take(i as int)),
        decreases bytes.len() - i,
    {
        proof {
            let t = bytes@.take(i + 1);
            assert(t.drop_last() =~= bytes@.take(i as int));
            assert(t.last() == bytes@[i as int]);
        }
        h = (h ^ (bytes[i] as u32)).wrapping_mul(0x0100_0193);
        i += 1;
    }
    assert(bytes@.take(i as int) =~= bytes@);
    h
}

/// Append a 32-bit integer.
pub fn put_u32(buf: &mut Vec<u8>, v: u32)
    ensures
        final(buf)@ == old(buf)@ + <u32 as Wire>::enc(v),
{
    v.put(buf)
}

/// Append a 64-bit integer.
pub fn put_u64(buf: &mut Vec<u8>, v: u64)
    ensures
        final(buf)@ == old(buf)@ + <u64 as Wire>::enc(v),
{
    v.put(buf)
}

/// Append an object.
pub fn put_objkey(buf: &mut Vec<u8>, o: &ObjKey)
    ensures
        final(buf)@ == old(buf)@ + <ObjKey as Wire>::enc(o@),
{
    o.put(buf)
}

/// Subject and predicate.
type Sp = (NodeId, FieldId);

/// Subject, predicate and object.
type Spo = (Sp, ObjKey);

/// The tag of a write.
pub open spec fn write_tag(w: WriteModel) -> u8 {
    match w {
        WriteModel::SetOne { .. } => 0,
        WriteModel::CloseOne { .. } => 1,
        WriteModel::AddMany { .. } => 2,
        WriteModel::RemoveMany { .. } => 3,
        WriteModel::HardDelete { .. } => 4,
        WriteModel::SetEdgeProp { .. } => 5,
        WriteModel::SetNodeType { .. } => 6,
        WriteModel::SetNodeLabel { .. } => 7,
        WriteModel::CloseMany { .. } => 8,
    }
}

/// The byte of a cardinality.
pub open spec fn cardinality_byte(c: Cardinality) -> u8 {
    match c {
        Cardinality::One => 0,
        Cardinality::Many => 1,
    }
}

/// The bytes of a write after its tag.
pub open spec fn write_body(w: WriteModel) -> Seq<u8> {
    match w {
        WriteModel::SetOne { subject, predicate, object, valid_from, valid_to } => <(
            (Spo, i64),
            Option<i64>,
        ) as Wire>::enc(((((subject, predicate), object), valid_from), valid_to)),
        WriteModel::CloseOne { subject, predicate, valid_from } => <(Sp, i64) as Wire>::enc(
            ((subject, predicate), valid_from),
        ),
        WriteModel::AddMany { subject, predicate, object, valid_from, valid_to } => <(
            (Spo, i64),
            Option<i64>,
        ) as Wire>::enc(((((subject, predicate), object), valid_from), valid_to)),
        WriteModel::RemoveMany { subject, predicate, observed } => <(
            Sp,
            Vec<OrderKey>,
        ) as Wire>::enc(((subject, predicate), observed)),
        WriteModel::HardDelete { subject, predicate, cardinality } => <(Sp, u8) as Wire>::enc(
            ((subject, predicate), cardinality_byte(cardinality)),
        ),
        WriteModel::SetEdgeProp { subject, predicate, object, key, value } => <(
            (Spo, String),
            ObjKey,
        ) as Wire>::enc(((((subject, predicate), object), key), value)),
        WriteModel::SetNodeType { node, type_id } => <(u64, u32) as Wire>::enc((node, type_id)),
        WriteModel::SetNodeLabel { node, label } => <(u64, u8) as Wire>::enc((node, label)),
        WriteModel::CloseMany { subject, predicate, object, valid_from } => <(
            Spo,
            i64,
        ) as Wire>::enc((((subject, predicate), object), valid_from)),
    }
}

/// The payload of a record: source, tag, body.
pub open spec fn payload(source: FieldId, w: WriteModel) -> Seq<u8> {
    <u32 as Wire>::enc(source) + (seq![write_tag(w)] + write_body(w))
}

/// Whether the lengths inside a write fit their length fields.
pub open spec fn write_fits(w: WriteModel) -> bool {
    match w {
        WriteModel::SetOne { object, .. } => <ObjKey as Wire>::fits(object),
        WriteModel::AddMany { object, .. } => <ObjKey as Wire>::fits(object),
        WriteModel::CloseMany { object, .. } => <ObjKey as Wire>::fits(object),
        WriteModel::RemoveMany { observed, .. } => observed.len() <= u32::MAX,
        WriteModel::SetEdgeProp { object, key, value, .. } => {
            &&& <ObjKey as Wire>::fits(object)
            &&& <String as Wire>::fits(key)
            &&& <ObjKey as Wire>::fits(value)
        },
        _ => true,
    }
}

/// A trailing optional integer; a record from before the field existed simply ends, which reads as
/// none.
pub open spec fn opt_tail(s: Seq<u8>) -> Option<(Option<i64>, Seq<u8>)> {
    if s.len() == 0 {
        Some((None, s))
    } else {
        <Option<i64> as Wire>::dec(s)
    }
}

/// A trailing validity; a record from before the fields existed simply ends, which reads as
/// unreported and open.
pub open spec fn time_tail(s: Seq<u8>) -> Option<((i64, Option<i64>), Seq<u8>)> {
    if s.len() == 0 {
        Some(((0, None), s))
    } else {
        match <i64 as Wire>::dec(s) {
            None => None,
            Some(from) => match opt_tail(from.1) {
                None => None,
                Some(to) => Some(((from.0, to.0), to.1)),
            },
        }
    }
}

/// The write with this tag at the front of some bytes, and what follows it.
pub open spec fn write_of_body(tag: u8, s: Seq<u8>) -> Option<(WriteModel, Seq<u8>)> {
    match tag {
        0u8 => match <(Spo, i64) as Wire>::dec(s) {
            None => None,
            Some(((((subject, predicate), object), valid_from), s1)) => match opt_tail(s1) {
                None => None,
                Some((valid_to, s2)) => Some(
                    (
                        WriteModel::SetOne { subject, predicate, object, valid_from, valid_to },
                        s2,
                    ),
                ),
            },
        },
        1u8 => match <(Sp, i64) as Wire>::dec(s) {
            None => None,
            Some((((subject, predicate), valid_from), s1)) => Some(
                (WriteModel::CloseOne { subject, predicate, valid_from }, s1),
            ),
        },
        2u8 => match <Spo as Wire>::dec(s) {
            None => None,
            Some((((subject, predicate), object), s1)) => match time_tail(s1) {
                None => None,
                Some(((valid_from, valid_to), s2)) => Some(
                    (
                        WriteModel::AddMany { subject, predicate, object, valid_from, valid_to },
                        s2,
                    ),
                ),
            },
        },
        3u8 => match <(Sp, Vec<OrderKey>) as Wire>::dec(s) {
            None => None,
            Some((((subject, predicate), observed), s1)) => Some(
                (WriteModel::RemoveMany { subject, predicate, observed }, s1),
            ),
        },
        4u8 => match <(Sp, u8) as Wire>::dec(s) {
            None => None,
            Some((((subject, predicate), c), s1)) => if c == 0 {
                Some(
                    (
                        WriteModel::HardDelete {
                            subject,
                            predicate,
                            cardinality: Cardinality::One,
                        },
                        s1,
                    ),
                )
            } else if c == 1 {
                Some(
                    (
                        WriteModel::HardDelete {
                            subject,
                            predicate,
                            cardinality: Cardinality::Many,
                        },
                        s1,
                    ),
                )
            } else {
                None
            },
        },
        5u8 => match <((Spo, String), ObjKey) as Wire>::dec(s) {
            None => None,
            Some((((((subject, predicate), object), key), value), s1)) => Some(
                (WriteModel::SetEdgeProp { subject, predicate, object, key, value }, s1),
            ),
        },
        6u8 => match <(u64, u32) as Wire>::dec(s) {
            None => None,
            Some(((node, type_id), s1)) => Some((WriteModel::SetNodeType { node, type_id }, s1)),
        },
        7u8 => match <(u64, u8) as Wire>::dec(s) {
            None => None,
            Some(((node, label), s1)) => Some((WriteModel::SetNodeLabel { node, label }, s1)),
        },
        8u8 => match <(Spo, i64) as Wire>::dec(s) {
            None => None,
            Some(((((subject, predicate), object), valid_from), s1)) => Some(
                (WriteModel::CloseMany { subject, predicate, object, valid_from }, s1),
            ),
        },
        _ => None,
    }
}

/// The record that a payload is, all of it.
pub open spec fn record_of(s: Seq<u8>) -> Option<(FieldId, WriteModel)> {
    match <(u32, u8) as Wire>::dec(s) {
        None => None,
        Some(((source, tag), s1)) => match write_of_body(tag, s1) {
            None => None,
            Some((w, rest)) => if rest.len() == 0 {
                Some((source, w))
            } else {
                None
            },
        },
    }
}

proof fn lemma_set_body(w: WriteModel, e: Seq<u8>)
    requires
        w is SetOne,
        write_fits(w),
    ensures
        write_of_body(write_tag(w), write_body(w) + e) == Some((w, e)),
{
    if let WriteModel::SetOne { subject, predicate, object, valid_from, valid_to } = w {
        let v = (((subject, predicate), object), valid_from);
        let head = <(Spo, i64) as Wire>::enc(v);
        let tail = <Option<i64> as Wire>::enc(valid_to);
        assert(write_body(w) == head + tail);
        assert(head + tail + e =~= head + (tail + e));
        <(Spo, i64) as Wire>::round_trip(v, tail + e);
        <Option<i64> as Wire>::round_trip(valid_to, e);
        assert(tail.len() > 0);
    }
}

proof fn lemma_add_body(w: WriteModel, e: Seq<u8>)
    requires
        w is AddMany,
        write_fits(w),
    ensures
        write_of_body(write_tag(w), write_body(w) + e) == Some((w, e)),
{
    if let WriteModel::AddMany { subject, predicate, object, valid_from, valid_to } = w {
        let v = ((subject, predicate), object);
        let head = <Spo as Wire>::enc(v);
        let from = <i64 as Wire>::enc(valid_from);
        let opt = <Option<i64> as Wire>::enc(valid_to);
        assert(write_body(w) == head + from + opt);
        assert(head + from + opt + e =~= head + (from + (opt + e)));
        <Spo as Wire>::round_trip(v, from + (opt + e));
        <i64 as Wire>::round_trip(valid_from, opt + e);
        <Option<i64> as Wire>::round_trip(valid_to, e);
        assert(opt.len() > 0);
    }
}

/// A write that fits is read back from its body, whatever follows.
proof fn lemma_body_round_trip(w: WriteModel, e: Seq<u8>)
    requires
        write_fits(w),
    ensures
        write_of_body(write_tag(w), write_body(w) + e) == Some((w, e)),
{
    match w {
        WriteModel::SetOne { .. } => {
            lemma_set_body(w, e);
        },
        WriteModel::CloseOne { subject, predicate, valid_from } => {
            <(Sp, i64) as Wire>::round_trip(((subject, predicate), valid_from), e);
        },
        WriteModel::AddMany { .. } => {
            lemma_add_body(w, e);
        },
        WriteModel::RemoveMany { subject, predicate, observed } => {
            <(Sp, Vec<OrderKey>) as Wire>::round_trip(((subject, predicate), observed), e);
        },
        WriteModel::HardDelete { subject, predicate, cardinality } => {
            <(Sp, u8) as Wire>::round_trip(
                ((subject, predicate), cardinality_byte(cardinality)),
                e,
            );
        },
        WriteModel::SetEdgeProp { subject, predicate, object, key, value } => {
            <((Spo, String), ObjKey) as Wire>::round_trip(
                ((((subject, predicate), object), key), value),
                e,
            );
        },
        WriteModel::SetNodeType { node, type_id } => {
            <(u64, u32) as Wire>::round_trip((node, type_id), e);
        },
        WriteModel::SetNodeLabel { node, label } => {
            <(u64, u8) as Wire>::round_trip((node, label), e);
        },
        WriteModel::CloseMany { subject, predicate, object, valid_from } => {
            <(Spo, i64) as Wire>::round_trip((((subject, predicate), object), valid_from), e);
        },
    }
}

/// Every record that fits is decoded from its own payload.
pub proof fn law_record_round_trip(source: FieldId, w: WriteModel)
    requires
        write_fits(w),
    ensures
        record_of(payload(source, w)) == Some((source, w)),
{
    let p = payload(source, w);
    assert(p =~= <(u32, u8) as Wire>::enc((source, write_tag(w))) + write_body(w));
    <(u32, u8) as Wire>::round_trip((source, write_tag(w)), write_body(w));
    lemma_body_round_trip(w, Seq::empty());
    assert(write_body(w) + Seq::<u8>::empty() =~= write_body(w));
}

/// A record is its whole payload: with anything behind it, it is none.
pub proof fn law_record_whole(source: FieldId, w: WriteModel, more: Seq<u8>)
    requires
        write_fits(w),
        more.len() > 0,
    ensures
        record_of(payload(source, w) + more) is None,
{
    let p = payload(source, w) + more;
    assert(p =~= <(u32, u8) as Wire>::enc((source, write_tag(w))) + (write_body(w) + more));
    <(u32, u8) as Wire>::round_trip((source, write_tag(w)), write_body(w) + more);
    lemma_body_round_trip(w, more);
}

/// Equal payloads mean equal records.
pub proof fn law_payload_unique(s1: FieldId, w1: WriteModel, s2: FieldId, w2: WriteModel)
    requires
        write_fits(w1),
        write_fits(w2),
        payload(s1, w1) == payload(s2, w2),
    ensures
        s1 == s2,
        w1 == w2,
{
    law_record_round_trip(s1, w1);
    law_record_round_trip(s2, w2);
}

/// Records written before validity fields existed still decode: a set-add that ends after its
/// object is unreported and open, a set that ends after its start is open.
pub proof fn law_old_format(
    source: FieldId,
    subject: NodeId,
    predicate: FieldId,
    object: ObjModel,
    valid_from: i64,
)
    requires
        <ObjKey as Wire>::fits(object),
    ensures
        record_of(
            <(u32, u8) as Wire>::enc((source, 2u8)) + <Spo as Wire>::enc(
                ((subject, predicate), object),
            ),
        ) == Some(
            (
                source,
                WriteModel::AddMany { subject, predicate, object, valid_from: 0, valid_to: None },
            ),
        ),
        record_of(
            <(u32, u8) as Wire>::enc((source, 0u8)) + <(Spo, i64) as Wire>::enc(
                (((subject, predicate), object), valid_from),
            ),
        ) == Some(
            (source, WriteModel::SetOne { subject, predicate, object, valid_from, valid_to: None }),
        ),
{
    let e = Seq::<u8>::empty();
    let v = ((subject, predicate), object);
    let b = <Spo as Wire>::enc(v);
    <(u32, u8) as Wire>::round_trip((source, 2u8), b);
    <Spo as Wire>::round_trip(v, e);
    assert(b + e =~= b);
    let c = <(Spo, i64) as Wire>::enc((v, valid_from));
    <(u32, u8) as Wire>::round_trip((source, 0u8), c);
    <(Spo, i64) as Wire>::round_trip((v, valid_from), e);
    assert(c + e =~= c);
}

fn put_sp(buf: &mut Vec<u8>, subject: NodeId, predicate: FieldId)
    ensures
        final(buf)@ == old(buf)@ + <Sp as Wire>::enc((subject, predicate)),
{
    subject.put(buf);
    predicate.put(buf);
    assert(buf@ =~= old(buf)@ + <Sp as Wire>::enc((subject, predicate)));
}

fn put_spo(buf: &mut Vec<u8>, subject: NodeId, predicate: FieldId, object: &ObjKey)
    ensures
        final(buf)@ == old(buf)@ + <Spo as Wire>::enc(((subject, predicate), object@)),
{
    put_sp(buf, subject, predicate);
    object.put(buf);
    assert(buf@ =~= old(buf)@ + <Spo as Wire>::enc(((subject, predicate), object@)));
}

fn put_spo_from(
    buf: &mut Vec<u8>,
    subject: NodeId,
    predicate: FieldId,
    object: &ObjKey,
    valid_from: i64,
)
    ensures
        final(buf)@ == old(buf)@ + <(Spo, i64) as Wire>::enc(
            (((subject, predicate), object@), valid_from),
        ),
{
    put_spo(buf, subject, predicate, object);
    valid_from.put(buf);
    assert(buf@ =~= old(buf)@ + <(Spo, i64) as Wire>::enc(
        (((subject, predicate), object@), valid_from),
    ));
}

fn put_edge_prop(
    buf: &mut Vec<u8>,
    subject: NodeId,
    predicate: FieldId,
    object: &ObjKey,
    key: &String,
    value: &ObjKey,
)
    ensures
        final(buf)@ == old(buf)@ + <((Spo, String), ObjKey) as Wire>::enc(
            ((((subject, predicate), object@), key@), value@),
        ),
{
    put_spo(buf, subject, predicate, object);
    put_str(buf, key.as_str());
    value.put(buf);
    assert(buf@ =~= old(buf)@ + <((Spo, String), ObjKey) as Wire>::enc(
        ((((subject, predicate), object@), key@), value@),
    ));
}

fn tag_of(kind: &WriteKind) -> (r: u8)
    ensures
        r == write_tag(kind@),
{
    match kind {
        WriteKind::SetOne { .. } => 0,
        WriteKind::CloseOne { .. } => 1,
        WriteKind::AddMany { .. } => 2,
        WriteKind::RemoveMany { .. } => 3,
        WriteKind::HardDelete { .. } => 4,
        WriteKind::SetEdgeProp { .. } => 5,
        WriteKind::SetNodeType { .. } => 6,
        WriteKind::SetNodeLabel { .. } => 7,
        WriteKind::CloseMany { .. } => 8,
    }
}

fn put_body(buf: &mut Vec<u8>, kind: &WriteKind)
    ensures
        final(buf)@ == old(buf)@ + write_body(kind@),
{
    match kind {
        WriteKind::SetOne { subject, predicate, object, valid_from, valid_to } => {
            put_spo_from(buf, *subject, *predicate, object, *valid_from);
            valid_to.put(buf);
        },
        WriteKind::CloseOne { subject, predicate, valid_from } => {
            put_sp(buf, *subject, *predicate);
            valid_from.put(buf);
        },
        WriteKind::AddMany { subject, predicate, object, valid_from, valid_to } => {
            put_spo_from(buf, *subject, *predicate, object, *valid_from);
            valid_to.put(buf);
        },
        WriteKind::RemoveMany { subject, predicate, observed } => {
            put_sp(buf, *subject, *predicate);
            observed.put(buf);
            assert(observed.deep_view() =~= observed@);
        },
        WriteKind::HardDelete { subject, predicate, cardinality } => {
            put_sp(buf, *subject, *predicate);
            let c: u8 = match cardinality {
                Cardinality::One => 0,
                Cardinality::Many => 1,
            };
            c.put(buf);
        },
        WriteKind::SetEdgeProp { subject, predicate, object, key, value } => {
            put_edge_prop(buf, *subject, *predicate, object, key, value);
        },
        WriteKind::SetNodeType { node, type_id } => {
            node.put(buf);
            type_id.put(buf);
        },
        WriteKind::SetNodeLabel { node, label } => {
            node.put(buf);
            label.put(buf);
        },
        WriteKind::CloseMany { subject, predicate, object, valid_from } => {
            put_spo_from(buf, *subject, *predicate, object, *valid_from);
        },
    }
    assert(buf@ =~= old(buf)@ + write_body(kind@));
}

/// Append the payload of a record. Where the lengths inside the write fit, the payload is decoded to
/// this record, and with anything behind it to none.
pub fn encode_payload(buf: &mut Vec<u8>, source: FieldId, kind: &WriteKind)
    ensures
        final(buf)@ == old(buf)@ + payload(source, kind@),
        write_fits(kind@) ==> record_of(final(buf)@.skip(old(buf)@.len() as int)) == Some(
            (source, kind@),
        ),
        write_fits(kind@) ==> forall|more: Seq<u8>|
            more.len() > 0 ==> record_of(
                #[trigger] (final(buf)@.skip(old(buf)@.len() as int) + more),
            ) is None,
{
    source.put(buf);
    buf.push(tag_of(kind));
    put_body(buf, kind);
    proof {
        let p = payload(source, kind@);
        assert(buf@ =~= old(buf)@ + p);
        assert(buf@.skip(old(buf)@.len() as int) =~= p);
        if write_fits(kind@) {
            law_record_round_trip(source, kind@);
            assert forall|more: Seq<u8>| more.len() > 0 implies record_of(
                #[trigger] (p + more),
            ) is None by {
                law_record_whole(source, kind@, more);
            }
        }
    }
}

fn read_opt_tail(r: &mut Reader) -> (o: Option<Option<i64>>)
    ensures
        o is Some == opt_tail(old(r).rest()) is Some,
        o matches Some(v) ==> opt_tail(old(r).rest()) == Some((v, final(r).rest())),
{
    if r.remaining() == 0 {
        return Some(None);
    }
    <Option<i64> as Wire>::read(r)
}

fn read_time_tail(r: &mut Reader) -> (o: Option<(i64, Option<i64>)>)
    ensures
        o is Some == time_tail(old(r).rest()) is Some,
        o matches Some(v) ==> time_tail(old(r).rest()) == Some((v, final(r).rest())),
{
    if r.remaining() == 0 {
        return Some((0, None));
    }
    let from: i64 = match <i64 as Wire>::read(r) {
        Some(v) => v,
        None => {
            return None;
        },
    };
    match read_opt_tail(r) {
        Some(to) => Some((from, to)),
        None => None,
    }
}

fn read_write(tag: u8, r: &mut Reader) -> (o: Option<WriteKind>)
    ensures
        o is Some == write_of_body(tag, old(r).rest()) is Some,
        o matches Some(w) ==> write_of_body(tag, old(r).rest()) == Some((w@, final(r).rest())),
{
    match tag {
        0 => match <(Spo, i64) as Wire>::read(r) {
            None => None,
            Some(x) => {
                let (((subject, predicate), object), valid_from) = x;
                match read_opt_tail(r) {
                    None => None,
                    Some(valid_to) => Some(
                        WriteKind::SetOne { subject, predicate, object, valid_from, valid_to },
                    ),
                }
            },
        },
        1 => match <(Sp, i64) as Wire>::read(r) {
            None => None,
            Some(x) => {
                let ((subject, predicate), valid_from) = x;
                Some(WriteKind::CloseOne { subject, predicate, valid_from })
            },
        },
        2 => match <Spo as Wire>::read(r) {
            None => None,
            Some(x) => {
                let ((subject, predicate), object) = x;
                match read_time_tail(r) {
                    None => None,
                    Some(t) => {
                        let (valid_from, valid_to) = t;
                        Some(
                            WriteKind::AddMany { subject, predicate, object, valid_from, valid_to },
                        )
                    },
                }
            },
        },
        3 => match <(Sp, Vec<OrderKey>) as Wire>::read(r) {
            None => None,
            Some(x) => {
                let ((subject, predicate), observed) = x;
                assert(observed.deep_view() =~= observed@);
                Some(WriteKind::RemoveMany { subject, predicate, observed })
            },
        },
        4 => match <(Sp, u8) as Wire>::read(r) {
            None => None,
            Some(x) => {
                let ((subject, predicate), c) = x;
                match c {
                    0 => Some(
                        WriteKind::HardDelete {
                            subject,
                            predicate,
                            cardinality: Cardinality::One,
                        },
                    ),
                    1 => Some(
                        WriteKind::HardDelete {
                            subject,
                            predicate,
                            cardinality: Cardinality::Many,
                        },
                    ),
                    _ => None,
                }
            },
        },
        5 => match <((Spo, String), ObjKey) as Wire>::read(r) {
            None => None,
            Some(x) => {
                let ((((subject, predicate), object), key), value) = x;
                Some(WriteKind::SetEdgeProp { subject, predicate, object, key, value })
            },
        },
        6 => match <(u64, u32) as Wire>::read(r) {
            None => None,
            Some(x) => {
                let (node, type_id) = x;
                Some(WriteKind::SetNodeType { node, type_id })
            },
        },
        7 => match <(u64, u8) as Wire>::read(r) {
            None => None,
            Some(x) => {
                let (node, label) = x;
                Some(WriteKind::SetNodeLabel { node, label })
            },
        },
        8 => match <(Spo, i64) as Wire>::read(r) {
            None => None,
            Some(x) => {
                let (((subject, predicate), object), valid_from) = x;
                Some(WriteKind::CloseMany { subject, predicate, object, valid_from })
            },
        },
        _ => None,
    }
}

/// Decode a payload. Bytes that follow the record make it malformed.
pub fn decode_record(payload: &[u8]) -> (o: Option<(FieldId, WriteKind)>)
    ensures
        o is Some == record_of(payload@) is Some,
        o matches Some(x) ==> record_of(payload@) == Some((x.0, x.1@)),
{
    let mut r = Reader::new(payload);
    let (source, tag) = match <(u32, u8) as Wire>::read(&mut r) {
        Some(x) => x,
        None => {
            return None;
        },
    };
    match read_write(tag, &mut r) {
        Some(kind) => if r.done() {
            Some((source, kind))
        } else {
            None
        },
        None => None,
    }
}

/// A frame: the payload's length and checksum, then the payload.
pub open spec fn frame(p: Seq<u8>) -> Seq<u8> {
    <(u32, u32) as Wire>::enc((count32(p.len()), fnv1a32(p))) + p
}

/// The payload of the frame that names the first sequence number of a log.
pub open spec fn start_payload(first: u64) -> Seq<u8> {
    <((u32, u8), u64) as Wire>::enc(((0u32, WAL_START_TAG), first))
}

/// The sequence number that a payload names as a log's first, if it is such a payload.
pub open spec fn start_of(s: Seq<u8>) -> Option<u64> {
    match <((u32, u8), u64) as Wire>::dec(s) {
        Some((((source, tag), first), rest)) => if source == 0 && tag == WAL_START_TAG
            && rest.len() == 0 {
            Some(first)
        } else {
            None
        },
        None => None,
    }
}

fn put_frame(buf: &mut Vec<u8>, p: &mut Vec<u8>)
    ensures
        final(buf)@ == old(buf)@ + frame(old(p)@),
{
    put_count(p.len(), buf);
    checksum(p.as_slice()).put(buf);
    buf.append(p);
    assert(buf@ =~= old(buf)@ + frame(old(p)@));
}

/// Append one framed record.
pub fn frame_record(buf: &mut Vec<u8>, source: FieldId, kind: &WriteKind)
    ensures
        final(buf)@ == old(buf)@ + frame(payload(source, kind@)),
{
    let mut p: Vec<u8> = Vec::new();
    encode_payload(&mut p, source, kind);
    assert(p@ =~= payload(source, kind@));
    put_frame(buf, &mut p);
}

/// Append the frame that names the log's first sequence number.
pub fn frame_wal_start(buf: &mut Vec<u8>, first_seqno: u64)
    ensures
        final(buf)@ == old(buf)@ + frame(start_payload(first_seqno)),
{
    let mut p: Vec<u8> = Vec::new();
    0u32.put(&mut p);
    p.push(WAL_START_TAG);
    first_seqno.put(&mut p);
    assert(p@ =~= start_payload(first_seqno));
    put_frame(buf, &mut p);
}

/// The sequence number that a payload names as the log's first, if it does.
fn decode_wal_start(payload: &[u8]) -> (r: Option<u64>)
    ensures
        r == start_of(payload@),
{
    let mut r = Reader::new(payload);
    match <((u32, u8), u64) as Wire>::read(&mut r) {
        Some(x) => {
            let ((source, tag), first) = x;
            if source == 0 && tag == WAL_START_TAG && r.done() {
                Some(first)
            } else {
                None
            }
        },
        None => None,
    }
}

/// The payload of the sound frame at the front of some bytes, and what follows it. A frame that is
/// short, empty, too long or fails its checksum is none.
pub open spec fn next_frame(s: Seq<u8>) -> Option<(Seq<u8>, Seq<u8>)> {
    match <(u32, u32) as Wire>::dec(s) {
        None => None,
        Some(((len, crc), rest)) => if 0 < len <= MAX_RECORD_LEN && len <= rest.len() && fnv1a32(
            rest.take(len as int),
        ) == crc {
            Some((rest.take(len as int), rest.skip(len as int)))
        } else {
            None
        },
    }
}

/// What follows a frame is shorter.
proof fn lemma_next_frame_shorter(s: Seq<u8>)
    ensures
        next_frame(s) matches Some(x) ==> x.1.len() < s.len(),
{
}

/// The records of a sequence of frames, up to the first that is unsound or undecodable.
pub open spec fn records_of(s: Seq<u8>) -> Seq<(FieldId, WriteModel)>
    decreases s.len(),
{
    match next_frame(s) {
        None => Seq::empty(),
        Some(x) => match record_of(x.0) {
            None => Seq::empty(),
            Some(r) => if x.1.len() < s.len() {
                seq![r] + records_of(x.1)
            } else {
                Seq::empty()
            },
        },
    }
}

/// What a log recovers to: the sequence number of its first record, and its records. Only the very
/// first frame may name the former; without one it is 0.
pub open spec fn recovered(s: Seq<u8>) -> (u64, Seq<(FieldId, WriteModel)>) {
    match next_frame(s) {
        Some(x) => match start_of(x.0) {
            Some(first) => (first, records_of(x.1)),
            None => (0, records_of(s)),
        },
        None => (0, Seq::empty()),
    }
}

/// The models of recovered records.
pub open spec fn record_models(v: Seq<(FieldId, WriteKind)>) -> Seq<(FieldId, WriteModel)> {
    Seq::new(v.len(), |i: int| (v[i].0, v[i].1@))
}

fn read_frame<'a>(r: &mut Reader<'a>) -> (o: Option<&'a [u8]>)
    ensures
        o is Some == next_frame(old(r).rest()) is Some,
        o matches Some(p) ==> next_frame(old(r).rest()) == Some((p@, final(r).rest())),
{
    let (len, crc) = match <(u32, u32) as Wire>::read(r) {
        Some(x) => x,
        None => {
            return None;
        },
    };
    if len == 0 || len > MAX_RECORD_LEN {
        return None;
    }
    match r.take(len as usize) {
        Some(p) => if checksum(p) == crc {
            Some(p)
        } else {
            None
        },
        None => None,
    }
}

/// Recover a log from its bytes: the sequence number of its first record, and its records in order.
/// The first torn or corrupt frame ends it; a committed prefix is always recovered intact. No bytes
/// are an empty log.
pub fn recover(bytes: &[u8]) -> (r: (u64, Vec<(FieldId, WriteKind)>))
    ensures
        r.0 == recovered(bytes@).0,
        record_models(r.1@) == recovered(bytes@).1,
{
    let mut rd = Reader::new(bytes);
    let mut first_seqno: u64 = 0;
    let mut first_frame = true;
    let mut out: Vec<(FieldId, WriteKind)> = Vec::new();
    let ghost goal = recovered(bytes@);
    assert(record_models(out@) + records_of(bytes@) =~= records_of(bytes@));
    loop
        invariant_except_break
            goal == recovered(bytes@),
            first_frame ==> rd.rest() == bytes@ && out@.len() == 0 && first_seqno == 0,
            !first_frame ==> goal.0 == first_seqno && goal.1 == record_models(out@) + records_of(
                rd.rest(),
            ),
        ensures
            goal.0 == first_seqno,
            goal.1 == record_models(out@),
        decreases rd.rest().len(),
    {
        let ghost s = rd.rest();
        let ghost out0 = record_models(out@);
        assert(out0 + Seq::<(FieldId, WriteModel)>::empty() =~= out0);
        let p = match read_frame(&mut rd) {
            Some(p) => p,
            None => {
                break;
            },
        };
        proof {
            lemma_next_frame_shorter(s);
            assert(out0 + records_of(s) =~= if first_frame {
                records_of(s)
            } else {
                out0 + records_of(s)
            });
        }
        if first_frame {
            first_frame = false;
            if let Some(first) = decode_wal_start(p) {
                first_seqno = first;
                assert(out0 + records_of(rd.rest()) =~= records_of(rd.rest()));
                continue ;
            }
        }
        match decode_record(p) {
            Some(rec) => {
                let ghost m = (rec.0, rec.1@);
                out.push(rec);
                proof {
                    assert(record_models(out@) =~= out0.push(m));
                    assert(out0 + (seq![m] + records_of(rd.rest())) =~= out0.push(m) + records_of(
                        rd.rest(),
                    ));
                }
            },
            None => {
                break;
            },
        }
    }
    (first_seqno, out)
}

/// The frames of some records.
pub open spec fn log_bytes(recs: Seq<(FieldId, WriteModel)>) -> Seq<u8>
    decreases recs.len(),
{
    if recs.len() == 0 {
        Seq::empty()
    } else {
        log_bytes(recs.drop_last()) + frame(payload(recs.last().0, recs.last().1))
    }
}

/// A record that can be written and read back: lengths fit, and the payload is not too long.
pub open spec fn storable(r: (FieldId, WriteModel)) -> bool {
    write_fits(r.1) && payload(r.0, r.1).len() <= MAX_RECORD_LEN
}

/// A frame is read back, whatever follows it.
proof fn lemma_frame_read(p: Seq<u8>, tail: Seq<u8>)
    requires
        0 < p.len() <= MAX_RECORD_LEN,
    ensures
        next_frame(frame(p) + tail) == Some((p, tail)),
{
    let len = count32(p.len());
    assert(len == p.len());
    <(u32, u32) as Wire>::round_trip((len, fnv1a32(p)), p + tail);
    assert(frame(p) + tail =~= <(u32, u32) as Wire>::enc((len, fnv1a32(p))) + (p + tail));
    assert((p + tail).take(len as int) =~= p);
    assert((p + tail).skip(len as int) =~= tail);
}

proof fn lemma_payload_not_empty(source: FieldId, w: WriteModel)
    ensures
        payload(source, w).len() > 0,
        start_of(payload(source, w)) is None,
{
    let p = payload(source, w);
    assert(p =~= <(u32, u8) as Wire>::enc((source, write_tag(w))) + write_body(w));
    <(u32, u8) as Wire>::round_trip((source, write_tag(w)), write_body(w));
}

/// A framed record is read back, whatever follows it.
proof fn lemma_record_read(r: (FieldId, WriteModel), tail: Seq<u8>)
    requires
        storable(r),
    ensures
        records_of(frame(payload(r.0, r.1)) + tail) == seq![r] + records_of(tail),
{
    let p = payload(r.0, r.1);
    lemma_payload_not_empty(r.0, r.1);
    lemma_frame_read(p, tail);
    law_record_round_trip(r.0, r.1);
    lemma_next_frame_shorter(frame(p) + tail);
}

/// The records of a log followed by anything else start with the log's records.
proof fn lemma_log_then(recs: Seq<(FieldId, WriteModel)>, tail: Seq<u8>)
    requires
        forall|i: int| 0 <= i < recs.len() ==> storable(#[trigger] recs[i]),
    ensures
        records_of(log_bytes(recs) + tail) == recs + records_of(tail),
    decreases recs.len(),
{
    if recs.len() == 0 {
        assert(log_bytes(recs) + tail =~= tail);
        assert(recs + records_of(tail) =~= records_of(tail));
    } else {
        let init = recs.drop_last();
        let z = recs.last();
        let p = payload(z.0, z.1);
        assert(storable(recs[recs.len() - 1]));
        assert forall|i: int| 0 <= i < init.len() implies storable(#[trigger] init[i]) by {
            assert(init[i] == recs[i]);
        }
        lemma_log_then(init, frame(p) + tail);
        assert(log_bytes(recs) + tail =~= log_bytes(init) + (frame(p) + tail));
        lemma_record_read(z, tail);
        assert(init + (seq![z] + records_of(tail)) =~= recs + records_of(tail));
    }
}

/// The first frame of a log's bytes names no sequence number.
proof fn lemma_log_no_start(recs: Seq<(FieldId, WriteModel)>, tail: Seq<u8>)
    requires
        forall|i: int| 0 <= i < recs.len() ==> storable(#[trigger] recs[i]),
        recs.len() > 0,
    ensures
        next_frame(log_bytes(recs) + tail) matches Some(x) && start_of(x.0) is None,
    decreases recs.len(),
{
    let init = recs.drop_last();
    let z = recs.last();
    let p = payload(z.0, z.1);
    assert(storable(recs[recs.len() - 1]));
    assert(log_bytes(recs) + tail =~= log_bytes(init) + (frame(p) + tail));
    if init.len() == 0 {
        assert(log_bytes(init) + (frame(p) + tail) =~= frame(p) + tail);
        lemma_payload_not_empty(z.0, z.1);
        lemma_frame_read(p, tail);
    } else {
        assert forall|i: int| 0 <= i < init.len() implies storable(#[trigger] init[i]) by {
            assert(init[i] == recs[i]);
        }
        lemma_log_no_start(init, frame(p) + tail);
    }
}

/// A log is recovered whole, and what follows it costs nothing of it: whatever unsound frame comes
/// after the records, recovery gives exactly the records.
pub proof fn law_recover_log(recs: Seq<(FieldId, WriteModel)>, tail: Seq<u8>)
    requires
        forall|i: int| 0 <= i < recs.len() ==> storable(#[trigger] recs[i]),
        next_frame(tail) is None,
    ensures
        recovered(log_bytes(recs) + tail) == (0u64, recs),
{
    lemma_log_then(recs, tail);
    assert(recs + records_of(tail) =~= recs);
    if recs.len() > 0 {
        lemma_log_no_start(recs, tail);
    } else {
        assert(log_bytes(recs) + tail =~= tail);
        assert(recs =~= Seq::empty());
    }
}

/// The same of a log that starts at a named sequence number.
pub proof fn law_recover_started_log(
    first: u64,
    recs: Seq<(FieldId, WriteModel)>,
    tail: Seq<u8>,
)
    requires
        forall|i: int| 0 <= i < recs.len() ==> storable(#[trigger] recs[i]),
        next_frame(tail) is None,
    ensures
        recovered(frame(start_payload(first)) + log_bytes(recs) + tail) == (first, recs),
{
    let p = start_payload(first);
    let rest = log_bytes(recs) + tail;
    assert(frame(p) + log_bytes(recs) + tail =~= frame(p) + rest);
    <((u32, u8), u64) as Wire>::round_trip(((0u32, WAL_START_TAG), first), Seq::empty());
    assert(p + Seq::<u8>::empty() =~= p);
    lemma_start_len(first);
    lemma_frame_read(p, rest);
    lemma_log_then(recs, tail);
    assert(recs + records_of(tail) =~= recs);
}

proof fn lemma_start_len(first: u64)
    ensures
        start_payload(first).len() == 13,
{
    lemma_number_bytes();
}

/// A torn write costs that record alone: any proper part of a frame is no frame.
pub proof fn law_torn_frame(p: Seq<u8>, n: int)
    requires
        0 < p.len() <= MAX_RECORD_LEN,
        0 <= n < frame(p).len(),
    ensures
        next_frame(frame(p).take(n)) is None,
{
    lemma_number_bytes();
    let h = <(u32, u32) as Wire>::enc((count32(p.len()), fnv1a32(p)));
    assert(h.len() == 8);
    let t = frame(p).take(n);
    if n >= 8 {
        let q = p.take(n - 8);
        assert(t =~= h + q);
        <(u32, u32) as Wire>::round_trip((count32(p.len()), fnv1a32(p)), q);
        assert(count32(p.len()) == p.len());
    }
}

/// A payload whose checksum is not the one in the header is no frame.
pub proof fn law_corrupt_frame(p: Seq<u8>, crc: u32, tail: Seq<u8>)
    requires
        p.len() <= u32::MAX,
        fnv1a32(p) != crc,
    ensures
        next_frame(<(u32, u32) as Wire>::enc((count32(p.len()), crc)) + (p + tail)) is None,
{
    <(u32, u32) as Wire>::round_trip((count32(p.len()), crc), p + tail);
    assert(count32(p.len()) == p.len());
    assert((p + tail).take(p.len() as int) =~= p);
}

/// A frame whose payload is no record ends a log, though its checksum is right: what comes after it is
/// not recovered, what came before it is.
pub proof fn law_undecodable_ends(recs: Seq<(FieldId, WriteModel)>, p: Seq<u8>, tail: Seq<u8>)
    requires
        recs.len() > 0,
        forall|i: int| 0 <= i < recs.len() ==> storable(#[trigger] recs[i]),
        0 < p.len() <= MAX_RECORD_LEN,
        record_of(p) is None,
    ensures
        recovered(log_bytes(recs) + (frame(p) + tail)) == (0u64, recs),
{
    let t = frame(p) + tail;
    lemma_frame_read(p, tail);
    lemma_log_then(recs, t);
    lemma_log_no_start(recs, t);
    assert(records_of(t) =~= Seq::empty());
    assert(recs + records_of(t) =~= recs);
}

/// The frame that names a start is no record, so that it counts as the first frame only.
pub proof fn law_start_is_no_record(first: u64)
    ensures
        record_of(start_payload(first)) is None,
        start_of(start_payload(first)) == Some(first),
{
    let v = ((0u32, WAL_START_TAG), first);
    let e = Seq::<u8>::empty();
    <((u32, u8), u64) as Wire>::round_trip(v, e);
    assert(start_payload(first) + e =~= start_payload(first));
    <(u32, u8) as Wire>::round_trip((0u32, WAL_START_TAG), <u64 as Wire>::enc(first));
}

/// A record is laid out as its source, the number of its kind, and what it holds.
pub proof fn law_record_layout(source: FieldId, w: WriteModel)
    ensures
        payload(source, w).len() >= 5,
        payload(source, w).take(4) == <u32 as Wire>::enc(source),
        payload(source, w)[4] == match w {
            WriteModel::SetOne { .. } => 0u8,
            WriteModel::CloseOne { .. } => 1u8,
            WriteModel::AddMany { .. } => 2u8,
            WriteModel::RemoveMany { .. } => 3u8,
            WriteModel::HardDelete { .. } => 4u8,
            WriteModel::SetEdgeProp { .. } => 5u8,
            WriteModel::SetNodeType { .. } => 6u8,
            WriteModel::SetNodeLabel { .. } => 7u8,
            WriteModel::CloseMany { .. } => 8u8,
        },
{
    lemma_number_bytes();
    assert(payload(source, w).take(4) =~= <u32 as Wire>::enc(source));
}

/// A frame is laid out as the length of its payload, the checksum of it, and the payload itself.
pub proof fn law_frame_layout(p: Seq<u8>)
    requires
        p.len() <= u32::MAX,
    ensures
        frame(p).len() == p.len() + 8,
        frame(p).take(4) == <u32 as Wire>::enc(p.len() as u32),
        frame(p).subrange(4, 8) == <u32 as Wire>::enc(fnv1a32(p)),
        frame(p).skip(8) == p,
{
    lemma_number_bytes();
    assert(frame(p).take(4) =~= <u32 as Wire>::enc(p.len() as u32));
    assert(frame(p).subrange(4, 8) =~= <u32 as Wire>::enc(fnv1a32(p)));
    assert(frame(p).skip(8) =~= p);
}

/// What is taken for a frame is one, payload and all: it is not empty nor longer than a record may be,
/// and the bytes begin with exactly its frame.
pub proof fn law_next_frame_is_a_frame(s: Seq<u8>, p: Seq<u8>, rest: Seq<u8>)
    ensures
        next_frame(s) == Some((p, rest)) <==> 0 < p.len() <= 0x100_0000 && s == frame(p) + rest,
{
    lemma_number_bytes();
    if next_frame(s) == Some((p, rest)) {
        let head = <(u32, u32) as Wire>::dec(s)->0;
        assert(s =~= s.take(4) + (s.skip(4).take(4) + s.skip(4).skip(4)));
        assert(head.1 =~= p + rest);
        assert(s =~= frame(p) + rest);
    }
    if 0 < p.len() <= 0x100_0000 && s == frame(p) + rest {
        <(u32, u32) as Wire>::round_trip((count32(p.len()), fnv1a32(p)), p + rest);
        assert(s =~= <(u32, u32) as Wire>::enc((count32(p.len()), fnv1a32(p))) + (p + rest));
        assert((p + rest).take(p.len() as int) =~= p);
        assert((p + rest).skip(p.len() as int) =~= rest);
    }
}

} // verus!
