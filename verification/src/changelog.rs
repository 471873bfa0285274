//! The changelog: the append-only write log, whose sequence numbers order every write.
use crate::catalog::Cardinality;
use crate::codec::{
    lemma_number_bytes, u32_bytes, u32_value, u64_bytes, u64_value, Reader, Wire,
};
use crate::fact::{FieldId, NodeId};
use crate::fold::bytes::{fold_bytes, fold_fits, fold_of_bytes, law_fold_round_trip};
use crate::fold::model::{
    all_fit, empty_fold, fold_writes, lemma_all_fit_prefix, write_key, write_node, FoldModel,
    GraphKey, WriteModel,
};
use crate::fold::{Fold, ObjKey, Op, OrderKey};
use crate::order::Dup;
use crate::ordmap::OrdSet;
use crate::wal::{
    checksum, fnv1a32, frame, frame_record, frame_wal_start, log_bytes, record_models, recover,
    recovered, start_payload,
};
use vstd::prelude::*;
use vstd::string::StringExecFns;

verus! {

/// A write as submitted: an operation without its order key, which the changelog assigns.
/// `RemoveMany` carries the order keys that it observed.
#[derive(Clone, Debug)]
pub enum WriteKind {
    SetOne {
        subject: NodeId,
        predicate: FieldId,
        object: ObjKey,
        valid_from: i64,
        /// The end of validity; as-of reads use it, the order of writes does not.
        valid_to: Option<i64>,
    },
    CloseOne { subject: NodeId, predicate: FieldId, valid_from: i64 },
    AddMany {
        subject: NodeId,
        predicate: FieldId,
        object: ObjKey,
        /// The start of validity; 0 where it was not reported.
        valid_from: i64,
        valid_to: Option<i64>,
    },
    /// End one element's interval. The element leaves the present set, its history stays.
    CloseMany { subject: NodeId, predicate: FieldId, object: ObjKey, valid_from: i64 },
    RemoveMany { subject: NodeId, predicate: FieldId, observed: Vec<OrderKey> },
    HardDelete { subject: NodeId, predicate: FieldId, cardinality: Cardinality },
    /// Set a property of an edge. The property name is carried as text.
    SetEdgeProp {
        subject: NodeId,
        predicate: FieldId,
        object: ObjKey,
        key: String,
        value: ObjKey,
    },
    SetNodeType { node: NodeId, type_id: FieldId },
    SetNodeLabel { node: NodeId, label: u8 },
}

impl DeepView for WriteKind {
    type V = WriteModel;

    open spec fn deep_view(&self) -> WriteModel {
        match self {
            WriteKind::SetOne { subject, predicate, object, valid_from, valid_to } =>
            WriteModel::SetOne {
                subject: *subject,
                predicate: *predicate,
                object: object@,
                valid_from: *valid_from,
                valid_to: *valid_to,
            },
            WriteKind::CloseOne { subject, predicate, valid_from } => WriteModel::CloseOne {
                subject: *subject,
                predicate: *predicate,
                valid_from: *valid_from,
            },
            WriteKind::AddMany { subject, predicate, object, valid_from, valid_to } =>
            WriteModel::AddMany {
                subject: *subject,
                predicate: *predicate,
                object: object@,
                valid_from: *valid_from,
                valid_to: *valid_to,
            },
            WriteKind::CloseMany { subject, predicate, object, valid_from } =>
            WriteModel::CloseMany {
                subject: *subject,
                predicate: *predicate,
                object: object@,
                valid_from: *valid_from,
            },
            WriteKind::RemoveMany { subject, predicate, observed } => WriteModel::RemoveMany {
                subject: *subject,
                predicate: *predicate,
                observed: observed@,
            },
            WriteKind::HardDelete { subject, predicate, cardinality } => WriteModel::HardDelete {
                subject: *subject,
                predicate: *predicate,
                cardinality: *cardinality,
            },
            WriteKind::SetEdgeProp { subject, predicate, object, key, value } =>
            WriteModel::SetEdgeProp {
                subject: *subject,
                predicate: *predicate,
                object: object@,
                key: key@,
                value: value@,
            },
            WriteKind::SetNodeType { node, type_id } => WriteModel::SetNodeType {
                node: *node,
                type_id: *type_id,
            },
            WriteKind::SetNodeLabel { node, label } => WriteModel::SetNodeLabel {
                node: *node,
                label: *label,
            },
        }
    }
}

impl View for WriteKind {
    type V = WriteModel;

    open spec fn view(&self) -> WriteModel {
        self.deep_view()
    }
}

/// The order key of the write with sequence number `seqno`.
pub open spec fn order_of(seqno: u64, source: FieldId) -> OrderKey {
    OrderKey { tx: seqno, source, seq: seqno }
}

fn record_to_op(seqno: u64, source: FieldId, kind: &WriteKind) -> (r: Op)
    ensures
        r.write() == kind@,
        !(kind@ is RemoveMany) ==> r.order() == order_of(seqno, source),
{
    let ok = OrderKey { tx: seqno, source, seq: seqno };
    match kind {
        WriteKind::SetOne { subject, predicate, object, valid_from, valid_to } => Op::SetOne {
            subject: *subject,
            predicate: *predicate,
            object: object.dup(),
            valid_from: *valid_from,
            valid_to: *valid_to,
            ok,
        },
        WriteKind::CloseOne { subject, predicate, valid_from } => Op::CloseOne {
            subject: *subject,
            predicate: *predicate,
            valid_from: *valid_from,
            ok,
        },
        WriteKind::AddMany { subject, predicate, object, valid_from, valid_to } => Op::AddMany {
            subject: *subject,
            predicate: *predicate,
            object: object.dup(),
            valid_from: *valid_from,
            valid_to: *valid_to,
            ok,
        },
        WriteKind::CloseMany { subject, predicate, object, valid_from } => Op::CloseMany {
            subject: *subject,
            predicate: *predicate,
            object: object.dup(),
            valid_from: *valid_from,
            ok,
        },
        WriteKind::RemoveMany { subject, predicate, observed } => {
            let tags = observed.dup();
            assert(tags@ =~= observed@) by {
                assert(tags.deep_view() =~= tags@);
                assert(observed.deep_view() =~= observed@);
            }
            Op::RemoveMany { subject: *subject, predicate: *predicate, observed: tags }
        },
        WriteKind::HardDelete { subject, predicate, cardinality } => Op::HardDelete {
            subject: *subject,
            predicate: *predicate,
            ok,
            cardinality: *cardinality,
        },
        WriteKind::SetEdgeProp { subject, predicate, object, key, value } => Op::SetEdgeProp {
            subject: *subject,
            predicate: *predicate,
            object: object.dup(),
            key: key.dup(),
            value: value.dup(),
            ok,
        },
        WriteKind::SetNodeType { node, type_id } => Op::SetNodeType {
            node: *node,
            type_id: *type_id,
            ok,
        },
        WriteKind::SetNodeLabel { node, label } => Op::SetNodeLabel {
            node: *node,
            label: *label,
            ok,
        },
    }
}

/// One record of the log: who wrote, and what.
#[derive(Clone, Debug)]
struct Record {
    source: FieldId,
    kind: WriteKind,
}

/// A record's model.
pub type RecordModel = (FieldId, WriteModel);

impl DeepView for Record {
    type V = RecordModel;

    closed spec fn deep_view(&self) -> RecordModel {
        (self.source, self.kind@)
    }
}

/// The backlog would exceed its bound: the writer has to wait.
#[derive(Clone, Copy, Debug, PartialEq, Eq, Structural)]
pub struct Backpressure {
    pub unmaterialized: usize,
    pub limit: usize,
}

/// Why a log cannot be compacted.
#[derive(Clone, Copy, Debug, PartialEq, Eq, Structural)]
pub enum CompactError {
    /// An in-memory log has no write-ahead log.
    InMemory,
    /// Some record is not materialized or not synced yet.
    Unsettled,
}

/// A snapshot file is there but malformed. The log prefix that it covered is gone, so that going on
/// without it would drop history.
#[derive(Clone, Copy, Debug, PartialEq, Eq, Structural)]
pub struct CorruptSnapshot;

/// The four bytes that a snapshot starts with.
pub open spec fn snapshot_magic() -> Seq<u8> {
    seq![83u8, 83u8, 78u8, 80u8]
}

/// The fields of a snapshot after its magic: version, covered sequence number, length and checksum
/// of the fold's bytes.
type SnapHead = (((u8, u64), u64), u32);

/// The bytes of a snapshot that covers everything below `upto`.
pub open spec fn snapshot_bytes(f: FoldModel, upto: u64) -> Seq<u8> {
    let b = fold_bytes(f);
    snapshot_magic() + (<SnapHead as Wire>::enc((((1u8, upto), b.len() as u64), fnv1a32(b))) + b)
}

/// The covered sequence number and the state that some bytes are a snapshot of.
pub open spec fn snapshot_of(s: Seq<u8>) -> Option<(u64, FoldModel)> {
    if s.len() < 25 || s.take(4) != snapshot_magic() {
        None
    } else {
        match <SnapHead as Wire>::dec(s.skip(4)) {
            None => None,
            Some(((((version, upto), len), crc), b)) => if version == 1 && b.len() == len
                && fnv1a32(b) == crc {
                match fold_of_bytes(b) {
                    Some(f) => Some((upto, f)),
                    None => None,
                }
            } else {
                None
            },
        }
    }
}

/// A snapshot is read back: the sequence number that it covers and the state.
pub proof fn law_snapshot_round_trip(f: FoldModel, upto: u64)
    requires
        fold_fits(f),
        fold_bytes(f).len() <= u64::MAX,
    ensures
        snapshot_of(snapshot_bytes(f, upto)) == Some((upto, f)),
{
    let b = fold_bytes(f);
    let head = (((1u8, upto), b.len() as u64), fnv1a32(b));
    let s = snapshot_bytes(f, upto);
    lemma_number_bytes();
    assert(s.take(4) =~= snapshot_magic());
    assert(s.skip(4) =~= <SnapHead as Wire>::enc(head) + b);
    <SnapHead as Wire>::round_trip(head, b);
    law_fold_round_trip(f);
    assert(<SnapHead as Wire>::enc(head).len() == 21);
}

/// Nothing else is this snapshot: no proper part of it from the front is one, nothing longer is, and
/// it is none with any byte of its magic, version, length or checksum changed.
pub proof fn law_snapshot_whole(f: FoldModel, upto: u64, n: int, more: Seq<u8>, i: int, x: u8)
    requires
        fold_fits(f),
        fold_bytes(f).len() <= u64::MAX,
        0 <= n < snapshot_bytes(f, upto).len(),
        more.len() > 0,
        0 <= i < 5 || 13 <= i < 25,
        x != snapshot_bytes(f, upto)[i],
    ensures
        snapshot_of(snapshot_bytes(f, upto).take(n)) is None,
        snapshot_of(snapshot_bytes(f, upto) + more) is None,
        snapshot_of(snapshot_bytes(f, upto).update(i, x)) is None,
{
    lemma_snapshot_part(f, upto, n);
    lemma_snapshot_longer(f, upto, more);
    lemma_snapshot_altered(f, upto, i, x);
}

proof fn lemma_snapshot_part(f: FoldModel, upto: u64, n: int)
    requires
        fold_bytes(f).len() <= u64::MAX,
        0 <= n < snapshot_bytes(f, upto).len(),
    ensures
        snapshot_of(snapshot_bytes(f, upto).take(n)) is None,
{
    lemma_number_bytes();
    let b = fold_bytes(f);
    let head = (((1u8, upto), b.len() as u64), fnv1a32(b));
    let h = <SnapHead as Wire>::enc(head);
    assert(h.len() == 21);
    if n >= 25 {
        let part = snapshot_bytes(f, upto).take(n);
        assert(part.skip(4) =~= h + b.take(n - 25));
        <SnapHead as Wire>::round_trip(head, b.take(n - 25));
    }
}

proof fn lemma_snapshot_longer(f: FoldModel, upto: u64, more: Seq<u8>)
    requires
        fold_bytes(f).len() <= u64::MAX,
        more.len() > 0,
    ensures
        snapshot_of(snapshot_bytes(f, upto) + more) is None,
{
    lemma_number_bytes();
    let b = fold_bytes(f);
    let head = (((1u8, upto), b.len() as u64), fnv1a32(b));
    let h = <SnapHead as Wire>::enc(head);
    assert((snapshot_bytes(f, upto) + more).skip(4) =~= h + (b + more));
    <SnapHead as Wire>::round_trip(head, b + more);
}

/// The header of a snapshot, field by field.
proof fn lemma_snapshot_fields(s: Seq<u8>)
    requires
        s.len() >= 25,
    ensures
        <SnapHead as Wire>::dec(s.skip(4)) == Some(
            (
                (
                    ((s[4], u64_value(s.subrange(5, 13))), u64_value(s.subrange(13, 21))),
                    u32_value(s.subrange(21, 25)),
                ),
                s.skip(25),
            ),
        ),
{
    let a = s.skip(4);
    assert(a.skip(1) =~= s.skip(5));
    assert(s.skip(5).take(8) =~= s.subrange(5, 13));
    assert(s.skip(5).skip(8) =~= s.skip(13));
    assert(s.skip(13).take(8) =~= s.subrange(13, 21));
    assert(s.skip(13).skip(8) =~= s.skip(21));
    assert(s.skip(21).take(4) =~= s.subrange(21, 25));
    assert(s.skip(21).skip(4) =~= s.skip(25));
}

proof fn lemma_snapshot_altered(f: FoldModel, upto: u64, i: int, x: u8)
    requires
        fold_bytes(f).len() <= u64::MAX,
        0 <= i < 5 || 13 <= i < 25,
        x != snapshot_bytes(f, upto)[i],
    ensures
        snapshot_of(snapshot_bytes(f, upto).update(i, x)) is None,
{
    lemma_number_bytes();
    let b = fold_bytes(f);
    let head = (((1u8, upto), b.len() as u64), fnv1a32(b));
    let h = <SnapHead as Wire>::enc(head);
    let s = snapshot_bytes(f, upto);
    let t = s.update(i, x);
    assert(h.len() == 21);
    assert(s.skip(4) =~= h + b);
    <SnapHead as Wire>::round_trip(head, b);
    lemma_snapshot_fields(s);
    lemma_snapshot_fields(t);
    assert(t.skip(25) =~= b);
    if i < 4 {
        assert(t.take(4)[i] == x);
        assert(s.take(4) =~= snapshot_magic());
        assert(s.take(4)[i] != x);
    } else if 13 <= i < 21 {
        let p = s.subrange(13, 21);
        let q = t.subrange(13, 21);
        assert(q[i - 13] == x && p[i - 13] == s[i]);
        assert(u64_bytes(u64_value(p)) == p && u64_bytes(u64_value(q)) == q);
    } else if i >= 21 {
        let p = s.subrange(21, 25);
        let q = t.subrange(21, 25);
        assert(q[i - 21] == x && p[i - 21] == s[i]);
        assert(u32_bytes(u32_value(p)) == p && u32_bytes(u32_value(q)) == q);
    }
}

/// Encode a snapshot that covers everything below `upto`.
pub fn encode_snapshot(fold: &Fold, upto: u64) -> (r: Vec<u8>)
    ensures
        r@ == snapshot_bytes(fold@, upto),
{
    let mut body: Vec<u8> = Vec::new();
    fold.encode_into(&mut body);
    assert(body@ =~= fold_bytes(fold@));
    let mut out: Vec<u8> = Vec::new();
    out.push(83);
    out.push(83);
    out.push(78);
    out.push(80);
    out.push(1);
    upto.put(&mut out);
    (body.len() as u64).put(&mut out);
    checksum(body.as_slice()).put(&mut out);
    out.append(&mut body);
    assert(out@ =~= snapshot_bytes(fold@, upto));
    out
}

/// Decode a snapshot: the covered sequence number and the fold. `None` where magic, version, length,
/// checksum or fold are malformed.
pub fn decode_snapshot(bytes: &[u8]) -> (r: Option<(u64, Fold)>)
    ensures
        r is Some == snapshot_of(bytes@) is Some,
        r matches Some(x) ==> snapshot_of(bytes@) == Some((x.0, x.1@)),
{
    if bytes.len() < 25 {
        return None;
    }
    let ghost magic = bytes@.take(4);
    if bytes[0] != 83 || bytes[1] != 83 || bytes[2] != 78 || bytes[3] != 80 {
        proof {
            if magic == snapshot_magic() {
                assert(magic[0] == 83 && magic[1] == 83 && magic[2] == 78 && magic[3] == 80);
            }
        }
        return None;
    }
    assert(magic =~= snapshot_magic());
    let mut r = Reader::new(bytes);
    let _ = r.take(4);
    let (((version, upto), len), crc) = match <SnapHead as Wire>::read(&mut r) {
        Some(x) => x,
        None => {
            return None;
        },
    };
    let left: usize = r.remaining();
    if version != 1 || left as u64 != len {
        return None;
    }
    let b = match r.take(left) {
        Some(b) => b,
        None => {
            return None;
        },
    };
    assert(r.rest().len() == 0);
    proof {
        let rest = <SnapHead as Wire>::dec(bytes@.skip(4)).unwrap().1;
        assert(b@ =~= rest);
    }
    if checksum(b) != crc {
        return None;
    }
    match Fold::decode(b) {
        Some(f) => Some((upto, f)),
        None => None,
    }
}

/// What the snapshot file beside a log holds. No file is a log that was never compacted; a file
/// that is there has to be sound.
pub fn read_snapshot(file: Option<&[u8]>) -> (r: Result<Option<(u64, Fold)>, CorruptSnapshot>)
    ensures
        file is None ==> r matches Ok(None),
        file matches Some(b) ==> (r is Ok == snapshot_of(b@) is Some),
        file matches Some(b) ==> (r matches Ok(x) ==> (x matches Some(y) && snapshot_of(b@)
            == Some((y.0, y.1@)))),
{
    match file {
        None => Ok(None),
        Some(b) => match decode_snapshot(b) {
            Some(x) => Ok(Some(x)),
            None => Err(CorruptSnapshot),
        },
    }
}

/// The model of a [`Changelog`].
pub struct ChangelogModel {
    pub records: Seq<RecordModel>,
    /// The sequence number of the first record.
    pub base: u64,
    /// How many records a derived store has caught up to.
    pub materialized: nat,
    /// The bound on the backlog.
    pub limit: nat,
    /// Whether a write-ahead log stands behind it.
    pub durable: bool,
    /// How many records were synced.
    pub synced: nat,
}

/// The append-only log. A record's sequence number is `base` plus its position; compaction moves
/// `base` on, so that sequence numbers stay continuous.
pub struct Changelog {
    records: Vec<Record>,
    base: u64,
    materialized: u64,
    max_unmaterialized: usize,
    durable: bool,
    durable_upto: usize,
}

impl View for Changelog {
    type V = ChangelogModel;

    closed spec fn view(&self) -> ChangelogModel {
        ChangelogModel {
            records: self.records.deep_view(),
            base: self.base,
            materialized: self.materialized as nat,
            limit: self.max_unmaterialized as nat,
            durable: self.durable,
            synced: self.durable_upto as nat,
        }
    }
}

/// The sequence number that the next record gets.
pub open spec fn head_of(c: ChangelogModel) -> nat {
    c.base as nat + c.records.len()
}

/// Whether the backlog has room for `n` more writes.
pub open spec fn room(c: ChangelogModel, n: nat) -> bool {
    c.records.len() - c.materialized + n <= c.limit
}

/// The order key of the record at position `i`. A removal has no order key of its own.
pub open spec fn record_order(c: ChangelogModel, i: int) -> OrderKey {
    if c.records[i].1 is RemoveMany {
        OrderKey { tx: 0, source: 0, seq: 0 }
    } else {
        order_of((c.base + i) as u64, c.records[i].0)
    }
}

/// The writes from position `start` on, with their order keys.
pub open spec fn writes_from(c: ChangelogModel, start: int) -> Seq<(WriteModel, OrderKey)> {
    Seq::new(
        (c.records.len() - start) as nat,
        |i: int| (c.records[start + i].1, record_order(c, start + i)),
    )
}

/// The position of sequence number `from`, within the log.
pub open spec fn position(c: ChangelogModel, from: u64) -> int {
    if from <= c.base {
        0
    } else if from - c.base <= c.records.len() {
        from - c.base
    } else {
        c.records.len() as int
    }
}

/// The graph keys that some writes touch.
pub open spec fn touched_keys(ws: Seq<(WriteModel, OrderKey)>) -> Set<GraphKey> {
    Set::new(
        |k: GraphKey|
            exists|i: int| 0 <= i < ws.len() && write_key((#[trigger] ws[i]).0) == Some(k),
    )
}

/// The nodes whose attributes some writes touch.
pub open spec fn touched_nodes(ws: Seq<(WriteModel, OrderKey)>) -> Set<NodeId> {
    Set::new(
        |n: NodeId|
            exists|i: int| 0 <= i < ws.len() && write_node((#[trigger] ws[i]).0) == Some(n),
    )
}

impl Changelog {
    /// Both marks lie within the log, sequence numbers do not run out, and the backlog keeps to its
    /// bound.
    pub closed spec fn wf(&self) -> bool {
        &&& self.materialized <= self.records.len()
        &&& self.durable_upto <= self.records.len()
        &&& self.base + self.records.len() <= u64::MAX
        &&& self.records.len() - self.materialized <= self.max_unmaterialized
    }

    /// What well-formedness says of the model.
    pub proof fn lemma_wf(&self)
        requires
            self.wf(),
        ensures
            self@.materialized <= self@.records.len(),
            self@.synced <= self@.records.len(),
            head_of(self@) <= u64::MAX,
            self@.records.len() <= usize::MAX,
            self@.limit <= usize::MAX,
            self@.records.len() - self@.materialized <= self@.limit,
    {
    }

    /// An empty in-memory log; `max_unmaterialized` bounds its backlog.
    pub fn new(max_unmaterialized: usize) -> (r: Self)
        ensures
            r.wf(),
            r@ == (ChangelogModel {
                records: Seq::empty(),
                base: 0,
                materialized: 0,
                limit: max_unmaterialized as nat,
                durable: false,
                synced: 0,
            }),
    {
        let r = Changelog {
            records: Vec::new(),
            base: 0,
            materialized: 0,
            max_unmaterialized,
            durable: false,
            durable_upto: 0,
        };
        assert(r@.records =~= Seq::empty());
        r
    }

    /// A durable log from the bytes of its write-ahead log. What is recovered counts as
    /// materialized and synced.
    pub fn open(wal: &[u8], max_unmaterialized: usize) -> (r: Self)
        requires
            recovered(wal@).0 + recovered(wal@).1.len() <= u64::MAX,
        ensures
            r.wf(),
            r@ == (ChangelogModel {
                records: recovered(wal@).1,
                base: recovered(wal@).0,
                materialized: recovered(wal@).1.len(),
                limit: max_unmaterialized as nat,
                durable: true,
                synced: recovered(wal@).1.len(),
            }),
    {
        let (base, recs) = recover(wal);
        let ghost models = record_models(recs@);
        let n: usize = recs.len();
        let mut records: Vec<Record> = Vec::new();
        let mut it = recs;
        let mut i: usize = 0;
        while i < n
            invariant
                i <= n,
                n == models.len(),
                it.len() == n - i,
                records.len() == i,
                forall|j: int| 0 <= j < i ==> (#[trigger] records@[j]).deep_view() == models[n - 1 - j],
                forall|j: int|
                    0 <= j < n - i ==> ((#[trigger] it@[j]).0, it@[j].1@) == models[j],
            decreases n - i,
        {
            match it.pop() {
                Some(x) => {
                    let (source, kind) = x;
                    records.push(Record { source, kind });
                },
                None => {},
            }
            i += 1;
        }
        let records = reversed(records);
        assert(records.deep_view() =~= models);
        Changelog {
            records,
            base,
            materialized: n as u64,
            max_unmaterialized,
            durable: true,
            durable_upto: n,
        }
    }

    /// Where a snapshot covers more than the write-ahead log beside it holds, compaction was cut
    /// short after the old log was put aside: the bytes of the log to start then. `None` where the
    /// log is good as it is.
    pub fn restart(wal: &[u8], covered: u64) -> (r: Option<Vec<u8>>)
        ensures
            r is Some == (recovered(wal@).0 + recovered(wal@).1.len() < covered),
            r matches Some(b) ==> b@ == frame(start_payload(covered)),
    {
        let (base, recs) = recover(wal);
        let n: u64 = recs.len() as u64;
        assert(recs@.len() == record_models(recs@).len());
        if base < covered && n < covered - base {
            let mut buf: Vec<u8> = Vec::new();
            frame_wal_start(&mut buf, covered);
            assert(buf@ =~= frame(start_payload(covered)));
            Some(buf)
        } else {
            None
        }
    }

    /// The sequence number of the first record still in the log.
    pub fn base(&self) -> (r: u64)
        ensures
            r == self@.base,
    {
        self.base
    }

    /// Where the snapshot of a log lives: beside it, with `.snap` appended.
    pub fn snapshot_path(wal_path: &str) -> (r: String)
        ensures
            r@ == wal_path@ + ".snap"@,
    {
        let mut p = wal_path.to_owned();
        p.append(".snap");
        p
    }

    /// Whether the log can be compacted; if so, the sequence number up to which a snapshot has to
    /// cover it, and the bytes that its new write-ahead log starts with.
    pub fn compact_to(&self) -> (r: Result<(u64, Vec<u8>), CompactError>)
        requires
            self.wf(),
        ensures
            !self@.durable ==> r == Err::<(u64, Vec<u8>), CompactError>(CompactError::InMemory),
            self@.durable && (self@.synced < self@.records.len() || self@.materialized
                < self@.records.len()) ==> r == Err::<(u64, Vec<u8>), CompactError>(
                CompactError::Unsettled,
            ),
            self@.durable && self@.synced == self@.records.len() && self@.materialized
                == self@.records.len() ==> r is Ok,
            r matches Ok(x) ==> x.0 == head_of(self@) && x.1@ == frame(start_payload(x.0)),
    {
        if !self.durable {
            return Err(CompactError::InMemory);
        }
        if self.durable_upto < self.records.len() || self.materialized < self.records.len() as u64 {
            return Err(CompactError::Unsettled);
        }
        let upto: u64 = self.head();
        let mut buf: Vec<u8> = Vec::new();
        frame_wal_start(&mut buf, upto);
        assert(buf@ =~= frame(start_payload(upto)));
        Ok((upto, buf))
    }

    /// The snapshot is committed and the write-ahead log starts anew: drop the covered records.
    pub fn compacted(&mut self)
        requires
            old(self).wf(),
            old(self)@.durable,
            old(self)@.synced == old(self)@.records.len(),
            old(self)@.materialized == old(self)@.records.len(),
        ensures
            final(self).wf(),
            final(self)@ == (ChangelogModel {
                records: Seq::empty(),
                base: head_of(old(self)@) as u64,
                materialized: 0,
                synced: 0,
                ..old(self)@
            }),
    {
        let upto: u64 = self.head();
        self.records = Vec::new();
        self.base = upto;
        self.materialized = 0;
        self.durable_upto = 0;
        assert(self@.records =~= Seq::empty());
    }

    /// The bytes to append to the write-ahead log so that every record is in it: the frames of the
    /// records not synced yet. `None` where there is nothing to do.
    pub fn sync(&self) -> (r: Option<Vec<u8>>)
        requires
            self.wf(),
        ensures
            r is Some == (self@.durable && self@.synced < self@.records.len()),
            r matches Some(b) ==> b@ == log_bytes(self@.records.skip(self@.synced as int)),
    {
        if !self.durable || self.durable_upto >= self.records.len() {
            return None;
        }
        let ghost tail = self@.records.skip(self@.synced as int);
        let mut buf: Vec<u8> = Vec::new();
        let mut i: usize = self.durable_upto;
        assert(tail.take(0) =~= Seq::empty());
        while i < self.records.len()
            invariant
                self.durable_upto <= i <= self.records.len(),
                tail == self@.records.skip(self@.synced as int),
                buf@ == log_bytes(tail.take(i - self.durable_upto)),
            decreases self.records.len() - i,
        {
            let rec = &self.records[i];
            frame_record(&mut buf, rec.source, &rec.kind);
            proof {
                let t = tail.take(i + 1 - self.durable_upto);
                assert(t.drop_last() =~= tail.take(i - self.durable_upto));
                assert(t.last() == rec.deep_view());
            }
            i += 1;
        }
        assert(tail.take(i - self.durable_upto) =~= tail);
        Some(buf)
    }

    /// The bytes of [`Changelog::sync`] are safely stored.
    pub fn synced(&mut self)
        requires
            old(self).wf(),
        ensures
            final(self).wf(),
            final(self)@ == (ChangelogModel {
                synced: if old(self)@.durable {
                    old(self)@.records.len()
                } else {
                    old(self)@.synced
                },
                ..old(self)@
            }),
    {
        if self.durable {
            self.durable_upto = self.records.len();
        }
    }

    /// The sequence number up to which records are safely stored; 0 for an in-memory log.
    pub fn durable_head(&self) -> (r: u64)
        requires
            self.wf(),
        ensures
            r == (if self@.durable {
                self@.base + self@.synced
            } else {
                0
            }),
    {
        if !self.durable {
            return 0;
        }
        self.base + self.durable_upto as u64
    }

    /// Append a write: its sequence number, or the refusal where the backlog is full.
    pub fn append(&mut self, source: FieldId, kind: WriteKind) -> (r: Result<u64, Backpressure>)
        requires
            old(self).wf(),
            head_of(old(self)@) < u64::MAX,
        ensures
            final(self).wf(),
            r is Ok == room(old(self)@, 1),
            ({
                let backlog = old(self)@.records.len() - old(self)@.materialized;
                if backlog >= old(self)@.limit {
                    &&& r == Err::<u64, Backpressure>(
                        Backpressure {
                            unmaterialized: backlog as usize,
                            limit: old(self)@.limit as usize,
                        },
                    )
                    &&& final(self)@ == old(self)@
                } else {
                    &&& r == Ok::<u64, Backpressure>(head_of(old(self)@) as u64)
                    &&& final(self)@ == (ChangelogModel {
                        records: old(self)@.records.push((source, kind@)),
                        ..old(self)@
                    })
                }
            }),
    {
        let unmaterialized: usize = self.records.len() - self.materialized as usize;
        if unmaterialized >= self.max_unmaterialized {
            return Err(Backpressure { unmaterialized, limit: self.max_unmaterialized });
        }
        let seqno: u64 = self.head();
        self.records.push(Record { source, kind });
        assert(self@.records =~= old(self)@.records.push((source, kind@)));
        Ok(seqno)
    }

    /// Append a chunk of writes, all or none: their sequence numbers in order.
    pub fn append_batch(&mut self, writes: Vec<(FieldId, WriteKind)>) -> (r: Result<
        Vec<u64>,
        Backpressure,
    >)
        requires
            old(self).wf(),
            head_of(old(self)@) + writes.len() <= u64::MAX,
            old(self)@.records.len() + writes.len() <= usize::MAX,
        ensures
            final(self).wf(),
            r is Ok == room(old(self)@, writes@.len()),
            ({
                let wanted = old(self)@.records.len() - old(self)@.materialized + writes.len();
                if wanted > old(self)@.limit {
                    &&& r == Err::<Vec<u64>, Backpressure>(
                        Backpressure {
                            unmaterialized: wanted as usize,
                            limit: old(self)@.limit as usize,
                        },
                    )
                    &&& final(self)@ == old(self)@
                } else {
                    &&& r matches Ok(seqnos)
                    &&& seqnos@.len() == writes@.len()
                    &&& forall|i: int|
                        0 <= i < writes@.len() ==> #[trigger] seqnos@[i] == head_of(old(self)@) + i
                    &&& final(self)@ == (ChangelogModel {
                        records: old(self)@.records + record_models(writes@),
                        ..old(self)@
                    })
                }
            }),
    {
        let unmaterialized: usize = self.records.len() - self.materialized as usize;
        let n: usize = writes.len();
        if unmaterialized + n > self.max_unmaterialized {
            return Err(
                Backpressure { unmaterialized: unmaterialized + n, limit: self.max_unmaterialized },
            );
        }
        let ghost models = record_models(writes@);
        let first: u64 = self.head();
        let mut seqnos: Vec<u64> = Vec::new();
        let mut fresh: Vec<Record> = Vec::new();
        let mut it = writes;
        let mut i: usize = 0;
        while i < n
            invariant
                i <= n,
                n == models.len(),
                first + n <= u64::MAX,
                it.len() == n - i,
                fresh.len() == i,
                seqnos.len() == i,
                forall|j: int| 0 <= j < i ==> #[trigger] seqnos@[j] == first + j,
                forall|j: int| 0 <= j < i ==> (#[trigger] fresh@[j]).deep_view() == models[n - 1 - j],
                forall|j: int|
                    0 <= j < n - i ==> ((#[trigger] it@[j]).0, it@[j].1@) == models[j],
            decreases n - i,
        {
            match it.pop() {
                Some(x) => {
                    let (source, kind) = x;
                    fresh.push(Record { source, kind });
                },
                None => {},
            }
            seqnos.push(first + i as u64);
            i += 1;
        }
        let mut fresh = reversed(fresh);
        assert(fresh.deep_view() =~= models);
        let ghost before = self.records@;
        let ghost extra = fresh@;
        self.records.append(&mut fresh);
        assert(self@.records =~= old(self)@.records + models);
        Ok(seqnos)
    }

    /// The next sequence number.
    pub fn head(&self) -> (r: u64)
        requires
            self.wf(),
        ensures
            r == head_of(self@),
    {
        self.base + self.records.len() as u64
    }

    /// How many records are not materialized yet.
    pub fn unmaterialized(&self) -> (r: usize)
        requires
            self.wf(),
        ensures
            r == self@.records.len() - self@.materialized,
    {
        self.records.len() - self.materialized as usize
    }

    /// A derived store has caught up to sequence number `up_to`. The mark never moves back.
    pub fn mark_materialized(&mut self, up_to: u64)
        requires
            old(self).wf(),
        ensures
            final(self).wf(),
            final(self)@ == (ChangelogModel {
                materialized: if position(old(self)@, up_to) > old(self)@.materialized {
                    position(old(self)@, up_to) as nat
                } else {
                    old(self)@.materialized
                },
                ..old(self)@
            }),
    {
        let rel: u64 = up_to.saturating_sub(self.base);
        let n: u64 = self.records.len() as u64;
        let capped: u64 = if rel < n {
            rel
        } else {
            n
        };
        if capped > self.materialized {
            self.materialized = capped;
        }
    }

    /// The state that the whole log folds to.
    pub fn replay(&self) -> (r: Fold)
        requires
            self.wf(),
            all_fit(empty_fold(), writes_from(self@, 0)),
        ensures
            r@ == fold_writes(empty_fold(), writes_from(self@, 0)),
    {
        let mut f = Fold::default();
        self.replay_into(&mut f);
        f
    }

    /// Fold the whole log into a state.
    pub fn replay_into(&self, fold: &mut Fold)
        requires
            self.wf(),
            all_fit(old(fold)@, writes_from(self@, 0)),
        ensures
            final(fold)@ == fold_writes(old(fold)@, writes_from(self@, 0)),
    {
        self.replay_range_into(0, fold);
    }

    /// Fold the records from sequence number `from` on into a state.
    pub fn replay_range_into(&self, from: u64, fold: &mut Fold)
        requires
            self.wf(),
            all_fit(old(fold)@, writes_from(self@, position(self@, from))),
        ensures
            final(fold)@ == fold_writes(old(fold)@, writes_from(self@, position(self@, from))),
    {
        let _ = self.replay_range_into_tracked(from, fold);
    }

    /// Whether the records from sequence number `from` on may be folded into a state, each being of
    /// the cardinality that it meets.
    pub fn fits_from(&self, from: u64, fold: &Fold) -> (r: bool)
        requires
            self.wf(),
        ensures
            r == all_fit(fold@, writes_from(self@, position(self@, from))),
    {
        let rel: u64 = from.saturating_sub(self.base);
        let start: usize = if rel < self.records.len() as u64 {
            rel as usize
        } else {
            self.records.len()
        };
        let ghost ws = writes_from(self@, start as int);
        let ghost f0 = fold@;
        let mut state = fold.dup();
        let mut i: usize = start;
        assert(ws.take(0) =~= Seq::empty());
        while i < self.records.len()
            invariant
                start <= i <= self.records.len(),
                start == position(self@, from),
                f0 == fold@,
                self.wf(),
                ws == writes_from(self@, start as int),
                all_fit(f0, ws.take(i - start)),
                state@ == fold_writes(f0, ws.take(i - start)),
            decreases self.records.len() - i,
        {
            let seqno: u64 = self.base + i as u64;
            let rec = &self.records[i];
            let op = record_to_op(seqno, rec.source, &rec.kind);
            proof {
                assert(rec.deep_view() == self@.records[i as int]);
                assert(ws[i - start] == (op.write(), op.order()));
                let t = ws.take(i + 1 - start);
                assert(t.drop_last() =~= ws.take(i - start));
                assert(t.last() == ws[i - start]);
            }
            if !state.accepts(&op) {
                proof {
                    if all_fit(f0, ws) {
                        lemma_all_fit_prefix(f0, ws, i + 1 - start);
                    }
                }
                return false;
            }
            state.apply(&op);
            i += 1;
        }
        assert(ws.take(i - start) =~= ws);
        true
    }

    /// Fold the records from sequence number `from` on into a state, and tell what they touched: the
    /// graph keys, and the nodes whose attributes changed.
    pub fn replay_range_into_tracked(&self, from: u64, fold: &mut Fold) -> (r: (
        OrdSet<(NodeId, FieldId)>,
        OrdSet<NodeId>,
    ))
        requires
            self.wf(),
            all_fit(old(fold)@, writes_from(self@, position(self@, from))),
        ensures
            final(fold)@ == fold_writes(old(fold)@, writes_from(self@, position(self@, from))),
            r.0@ == touched_keys(writes_from(self@, position(self@, from))),
            r.1@ == touched_nodes(writes_from(self@, position(self@, from))),
    {
        let rel: u64 = from.saturating_sub(self.base);
        let start: usize = if rel < self.records.len() as u64 {
            rel as usize
        } else {
            self.records.len()
        };
        let ghost ws = writes_from(self@, start as int);
        let ghost f0 = fold@;
        let mut keys: OrdSet<(NodeId, FieldId)> = OrdSet::new();
        let mut nodes: OrdSet<NodeId> = OrdSet::new();
        let mut i: usize = start;
        proof {
            assert(ws.take(0) =~= Seq::empty());
            assert(keys@ =~= touched_keys(ws.take(0)));
            assert(nodes@ =~= touched_nodes(ws.take(0)));
        }
        while i < self.records.len()
            invariant
                start <= i <= self.records.len(),
                self.wf(),
                ws == writes_from(self@, start as int),
                all_fit(f0, ws),
                fold@ == fold_writes(f0, ws.take(i - start)),
                keys@ == touched_keys(ws.take(i - start)),
                nodes@ == touched_nodes(ws.take(i - start)),
            decreases self.records.len() - i,
        {
            let seqno: u64 = self.base + i as u64;
            let rec = &self.records[i];
            let op = record_to_op(seqno, rec.source, &rec.kind);
            let ghost w = ws[i - start];
            proof {
                assert(rec.deep_view() == self@.records[i as int]);
                assert(w == (op.write(), op.order()));
                let t = ws.take(i + 1 - start);
                assert(t.drop_last() =~= ws.take(i - start));
                assert(t.last() == w);
                lemma_all_fit_prefix(f0, ws, i + 1 - start);
                lemma_touched_push(ws.take(i - start), w);
                assert(t =~= ws.take(i - start).push(w));
            }
            match op.node_attr_node() {
                Some(node) => {
                    nodes.insert(node);
                },
                None => {
                    keys.insert(op.key());
                },
            }
            fold.apply(&op);
            i += 1;
        }
        assert(ws.take(i - start) =~= ws);
        (keys, nodes)
    }
}

proof fn lemma_touched_push(ws: Seq<(WriteModel, OrderKey)>, w: (WriteModel, OrderKey))
    ensures
        touched_keys(ws.push(w)) == match write_key(w.0) {
            Some(k) => touched_keys(ws).insert(k),
            None => touched_keys(ws),
        },
        touched_nodes(ws.push(w)) == match write_node(w.0) {
            Some(n) => touched_nodes(ws).insert(n),
            None => touched_nodes(ws),
        },
{
    let t = ws.push(w);
    assert(t[ws.len() as int] == w);
    assert forall|k: GraphKey| #[trigger] touched_keys(ws).contains(k) implies touched_keys(
        t,
    ).contains(k) by {
        let i = choose|i: int| 0 <= i < ws.len() && write_key((#[trigger] ws[i]).0) == Some(k);
        assert(t[i] == ws[i]);
    }
    assert forall|k: GraphKey| #[trigger]
        touched_keys(t).contains(k) && write_key(w.0) != Some(k) implies touched_keys(ws).contains(
        k,
    ) by {
        let i = choose|i: int| 0 <= i < t.len() && write_key((#[trigger] t[i]).0) == Some(k);
        assert(ws[i] == t[i]);
    }
    assert forall|n: NodeId| #[trigger] touched_nodes(ws).contains(n) implies touched_nodes(
        t,
    ).contains(n) by {
        let i = choose|i: int| 0 <= i < ws.len() && write_node((#[trigger] ws[i]).0) == Some(n);
        assert(t[i] == ws[i]);
    }
    assert forall|n: NodeId| #[trigger]
        touched_nodes(t).contains(n) && write_node(w.0) != Some(n) implies touched_nodes(
        ws,
    ).contains(n) by {
        let i = choose|i: int| 0 <= i < t.len() && write_node((#[trigger] t[i]).0) == Some(n);
        assert(ws[i] == t[i]);
    }
    match write_key(w.0) {
        Some(k) => {
            assert(touched_keys(t) =~= touched_keys(ws).insert(k));
        },
        None => {
            assert(touched_keys(t) =~= touched_keys(ws));
        },
    }
    match write_node(w.0) {
        Some(n) => {
            assert(touched_nodes(t) =~= touched_nodes(ws).insert(n));
        },
        None => {
            assert(touched_nodes(t) =~= touched_nodes(ws));
        },
    }
}

fn reversed(v: Vec<Record>) -> (r: Vec<Record>)
    ensures
        r@.len() == v@.len(),
        forall|i: int| 0 <= i < v@.len() ==> #[trigger] r@[i] == v@[v@.len() - 1 - i],
{
    let ghost all = v@;
    let n: usize = v.len();
    let mut v = v;
    let mut out: Vec<Record> = Vec::new();
    let mut i: usize = 0;
    while i < n
        invariant
            i <= n,
            n == all.len(),
            v@ == all.take(n - i),
            out.len() == i,
            forall|j: int| 0 <= j < i ==> #[trigger] out@[j] == all[n - 1 - j],
        decreases n - i,
    {
        match v.pop() {
            Some(x) => {
                out.push(x);
            },
            None => {},
        }
        assert(v@ =~= all.take(n - (i + 1)));
        i += 1;
    }
    out
}

/// Writes are numbered by their place: the write of the record at a position, taken from any position
/// at or before it, has the sequence number of that place as its transaction and its number, and the
/// record's source. A removal, which names the writes that it removes, has none.
pub proof fn law_writes_are_numbered(c: ChangelogModel, start: int, i: int)
    requires
        0 <= start <= i < c.records.len(),
        c.base + c.records.len() <= u64::MAX,
    ensures
        writes_from(c, start).len() == c.records.len() - start,
        ({
            let (w, ok) = writes_from(c, start)[i - start];
            &&& w == c.records[i].1
            &&& !(w is RemoveMany) ==> ok.tx == c.base + i && ok.seq == c.base + i && ok.source
                == c.records[i].0
        }),
{
}

/// A sequence number leads to the record that has it; one from before the log to its start, and one
/// from beyond it to its end.
pub proof fn law_position_of_number(c: ChangelogModel, n: u64, i: int)
    ensures
        0 <= i <= c.records.len() && n == c.base + i ==> position(c, n) == i,
        n <= c.base ==> position(c, n) == 0,
        n >= c.base + c.records.len() ==> position(c, n) == c.records.len(),
{
}

/// What some writes touch: the graph key of each write of the graph or of an edge's properties, and
/// the node of each write of a type or a label; nothing else.
pub proof fn law_touched(ws: Seq<(WriteModel, OrderKey)>, k: GraphKey, n: NodeId)
    ensures
        touched_keys(ws).contains(k) <==> exists|i: int|
            0 <= i < ws.len() && match (#[trigger] ws[i]).0 {
                WriteModel::SetOne { subject, predicate, .. } => (subject, predicate) == k,
                WriteModel::CloseOne { subject, predicate, .. } => (subject, predicate) == k,
                WriteModel::AddMany { subject, predicate, .. } => (subject, predicate) == k,
                WriteModel::CloseMany { subject, predicate, .. } => (subject, predicate) == k,
                WriteModel::RemoveMany { subject, predicate, .. } => (subject, predicate) == k,
                WriteModel::HardDelete { subject, predicate, .. } => (subject, predicate) == k,
                WriteModel::SetEdgeProp { subject, predicate, .. } => (subject, predicate) == k,
                _ => false,
            },
        touched_nodes(ws).contains(n) <==> exists|i: int|
            0 <= i < ws.len() && match (#[trigger] ws[i]).0 {
                WriteModel::SetNodeType { node, .. } => node == n,
                WriteModel::SetNodeLabel { node, .. } => node == n,
                _ => false,
            },
{
    if touched_keys(ws).contains(k) {
        let i = choose|i: int| 0 <= i < ws.len() && write_key((#[trigger] ws[i]).0) == Some(k);
        assert(ws[i].0 == ws[i].0);
    }
    if touched_nodes(ws).contains(n) {
        let i = choose|i: int| 0 <= i < ws.len() && write_node((#[trigger] ws[i]).0) == Some(n);
        assert(ws[i].0 == ws[i].0);
    }
}

/// The backlog is bounded, and by nothing but its bound: a log that is materialized to its end takes
/// as many writes as the bound and no more, and what was taken before counts as if it were asked for
/// together with what is asked for now.
pub proof fn law_backlog_is_bounded(
    c: ChangelogModel,
    taken: Seq<(FieldId, WriteModel)>,
    n: nat,
)
    ensures
        c.materialized == c.records.len() ==> (room(c, n) <==> n <= c.limit),
        room(ChangelogModel { records: c.records + taken, ..c }, n) <==> room(c, taken.len() + n),
{
}

} // verus!
