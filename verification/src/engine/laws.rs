//! The laws of the log and the engine.
use super::{materialized, opened_log, state_of, tail_of, EngineModel};
use crate::changelog::{
    head_of, law_snapshot_round_trip, order_of, position, record_order, snapshot_bytes,
    snapshot_of, writes_from, ChangelogModel, RecordModel,
};
use crate::fact::FieldId;
use crate::fold::bytes::{fold_bytes, fold_fits};
use crate::fold::laws::{coherent, coherent_log, law_gc_then_writes};
use crate::fold::model::{
    apply_write, fits, fold_writes, gc_fold, history, lemma_fold_concat, live_elem, observed, present,
    seen_many, write_key, write_kind, FoldModel, GraphKey, VersionModel, WriteModel,
};
use crate::fold::observe::live_add_tags;
use crate::objkey::{older, ObjModel, OrderKey};
use crate::ordmap::{lemma_finite_rows, lemma_row, sorted_rows};
use crate::query::laws::{
    key_below, law_deleted_is_gone, law_element_write_is_read, law_register_write_is_read,
    law_write_settles, numbered, rows_below, settled,
};
use crate::query::{current_many, current_one};
use crate::wal::{
    frame, law_recover_log, law_recover_started_log, log_bytes, next_frame, recovered,
    start_payload, storable,
};
use vstd::prelude::*;

verus! {

/// An engine state as its operations keep it.
pub open spec fn valid(e: EngineModel) -> bool {
    &&& e.watermark == e.log.base + e.log.materialized
    &&& e.log.materialized <= e.log.records.len()
    &&& e.log.synced <= e.log.records.len()
    &&& head_of(e.log) <= u64::MAX
}

/// Merged reads and materialized reads agree: materializing changes nothing of the state, and
/// leaves no tail.
pub proof fn law_materialize_keeps_state(e: EngineModel)
    requires
        valid(e),
    ensures
        state_of(materialized(e)) == state_of(e),
        tail_of(materialized(e)).len() == 0,
        materialized(e).base == state_of(e),
        valid(materialized(e)),
{
}

/// An appended write is in the next read: the state is the old one with the write folded in.
pub proof fn law_write_is_read(e: EngineModel, source: FieldId, w: WriteModel)
    requires
        valid(e),
        head_of(e.log) < u64::MAX,
    ensures
        ({
            let log = ChangelogModel { records: e.log.records.push((source, w)), ..e.log };
            let after = EngineModel { log, ..e };
            &&& valid(after)
            &&& state_of(after) == apply_write(
                state_of(e),
                w,
                order_of(head_of(e.log) as u64, source),
            )
        }),
{
    let log = ChangelogModel { records: e.log.records.push((source, w)), ..e.log };
    let after = EngineModel { log, ..e };
    let t = tail_of(after);
    assert(t.drop_last() =~= tail_of(e));
    assert(t.last() == (w, record_order(log, e.log.records.len() as int)));
}

/// The order keys of a log are unique: where its writes agree on cardinalities, it is coherent, so
/// that order, redelivery and source do not matter to what it folds to.
pub proof fn law_log_is_coherent(c: ChangelogModel)
    requires
        head_of(c) <= u64::MAX,
        forall|i: int, j: int|
            #![trigger c.records[i], c.records[j]]
            0 <= i < c.records.len() && 0 <= j < c.records.len() && write_kind(c.records[i].1)
                is Some && write_kind(c.records[j].1) is Some && write_key(c.records[i].1)
                == write_key(c.records[j].1) ==> write_kind(c.records[i].1) == write_kind(
                c.records[j].1,
            ),
    ensures
        coherent_log(writes_from(c, 0)),
{
    let ws = writes_from(c, 0);
    assert forall|i: int, j: int| 0 <= i < ws.len() && 0 <= j < ws.len() implies coherent(
        #[trigger] ws[i],
        #[trigger] ws[j],
    ) by {
        assert(ws[i] == (c.records[i].1, record_order(c, i)));
        assert(ws[j] == (c.records[j].1, record_order(c, j)));
    }
}

/// Retracting an edge removes it: once its live tags are tombstoned, it has none and is not among
/// the observed elements.
pub proof fn law_retract_removes(
    f: FoldModel,
    k: GraphKey,
    o: ObjModel,
    tags: Seq<OrderKey>,
    ok: OrderKey,
)
    requires
        f.keys.contains_key(k) ==> f.keys[k] is Many,
        tags.to_set() == live_add_tags(f, k, o),
        live_elem(f, k, o).dom().finite(),
    ensures
        ({
            let w = WriteModel::RemoveMany { subject: k.0, predicate: k.1, observed: tags };
            let g = apply_write(f, w, ok);
            &&& live_add_tags(g, k, o) == Set::<OrderKey>::empty()
            &&& !present(seen_many(g, k)).contains(o)
        }),
{
    let w = WriteModel::RemoveMany { subject: k.0, predicate: k.1, observed: tags };
    let g = apply_write(f, w, ok);
    let before = live_elem(f, k, o);
    let after = live_elem(g, k, o);
    assert forall|t: OrderKey| #[trigger] after.contains_key(t) implies before.contains_key(t)
        && before[t] == after[t] by {
    }
    assert forall|t: OrderKey| !(#[trigger] live_add_tags(g, k, o).contains(t)) by {
        if live_add_tags(g, k, o).contains(t) {
            assert(after.contains_key(t) && after[t].object is Some);
            assert(live_add_tags(f, k, o).contains(t));
            assert(tags.to_set().contains(t));
        }
    }
    assert(live_add_tags(g, k, o) =~= Set::<OrderKey>::empty());
    if present(seen_many(g, k)).contains(o) {
        assert(after.dom().subset_of(before.dom()));
        vstd::set_lib::lemma_len_subset(after.dom(), before.dom());
        lemma_finite_rows::<OrderKey, VersionModel>(after);
        let s = sorted_rows::<OrderKey, VersionModel>(after);
        assert(history(after).len() > 0);
        let i = s.len() - 1;
        lemma_row::<OrderKey, VersionModel>(s, i);
        assert(history(after).last().1 is Some);
        assert(live_add_tags(g, k, o).contains(s[i].0));
    }
}

/// What the write-ahead log of a log holds: the frame that names its start, where it was `started`
/// with one, and the records synced.
pub open spec fn wal_image(c: ChangelogModel, started: bool) -> Seq<u8> {
    (if started {
        frame(start_payload(c.base))
    } else {
        Seq::empty()
    }) + log_bytes(c.records.take(c.synced as int))
}

/// Only a log that starts at 0 can do without the frame that names its start. A fresh log has none;
/// a compaction writes one, of an empty log too.
pub open spec fn start_known(c: ChangelogModel, started: bool) -> bool {
    started || c.base == 0
}

proof fn lemma_log_bytes_concat(a: Seq<RecordModel>, b: Seq<RecordModel>)
    ensures
        log_bytes(a + b) == log_bytes(a) + log_bytes(b),
    decreases b.len(),
{
    if b.len() == 0 {
        assert(a + b =~= a);
        assert(log_bytes(a) + log_bytes(b) =~= log_bytes(a));
    } else {
        let init = b.drop_last();
        lemma_log_bytes_concat(a, init);
        assert((a + b).drop_last() =~= a + init);
        assert((a + b).last() == b.last());
        assert(log_bytes(a + b) =~= log_bytes(a) + log_bytes(b));
    }
}

/// Before the first sync the write-ahead log is empty, or it is the frame that names its start alone,
/// which is what a compaction stores.
pub proof fn law_wal_begins(c: ChangelogModel)
    requires
        c.synced == 0,
    ensures
        wal_image(c, false) == Seq::<u8>::empty(),
        wal_image(c, true) == frame(start_payload(c.base)),
{
    assert(log_bytes(c.records.take(0)) =~= Seq::empty());
    assert(wal_image(c, false) =~= Seq::empty());
    assert(wal_image(c, true) =~= frame(start_payload(c.base)));
}

/// Appending the bytes of a sync to the write-ahead log brings it up to date.
pub proof fn law_sync_extends_wal(c: ChangelogModel, started: bool)
    requires
        c.synced <= c.records.len(),
    ensures
        wal_image(c, started) + log_bytes(c.records.skip(c.synced as int)) == wal_image(
            ChangelogModel { synced: c.records.len(), ..c },
            started,
        ),
{
    let a = c.records.take(c.synced as int);
    let b = c.records.skip(c.synced as int);
    lemma_log_bytes_concat(a, b);
    assert(a + b =~= c.records);
    assert(c.records.take(c.records.len() as int) =~= c.records);
    assert(wal_image(c, started) + log_bytes(b) =~= wal_image(
        ChangelogModel { synced: c.records.len(), ..c },
        started,
    ));
}

/// A crash loses only what was not synced: whatever torn write follows in the write-ahead log, the
/// synced records are recovered, under the sequence numbers that they had.
pub proof fn law_synced_survives(c: ChangelogModel, started: bool, torn: Seq<u8>)
    requires
        start_known(c, started),
        c.synced <= c.records.len(),
        forall|i: int| 0 <= i < c.synced ==> storable(#[trigger] c.records[i]),
        next_frame(torn) is None,
    ensures
        recovered(wal_image(c, started) + torn) == (c.base, c.records.take(c.synced as int)),
{
    let recs = c.records.take(c.synced as int);
    assert forall|i: int| 0 <= i < recs.len() implies storable(#[trigger] recs[i]) by {
        assert(recs[i] == c.records[i]);
    }
    if started {
        law_recover_started_log(c.base, recs, torn);
    } else {
        assert(wal_image(c, started) + torn =~= log_bytes(recs) + torn);
        law_recover_log(recs, torn);
    }
}

/// What was stored is not stored again: a log opened from a write-ahead log is durable and takes for
/// synced exactly what that holds, so that it has nothing to append to it. It starts without a
/// backlog.
pub proof fn law_opened_is_synced(c: ChangelogModel, started: bool, torn: Seq<u8>, n_max: nat)
    requires
        start_known(c, started),
        c.synced <= c.records.len(),
        forall|i: int| 0 <= i < c.synced ==> storable(#[trigger] c.records[i]),
        next_frame(torn) is None,
    ensures
        ({
            let log = opened_log(wal_image(c, started) + torn, n_max);
            &&& log.durable
            &&& log.limit == n_max
            &&& wal_image(log, started) == wal_image(c, started)
            &&& log.synced == log.records.len()
            &&& log.base + log.materialized == c.base + c.synced
            &&& head_of(log) == c.base + c.synced
        }),
{
    law_synced_survives(c, started, torn);
    let recs = c.records.take(c.synced as int);
    assert(recs.take(recs.len() as int) =~= recs);
}

/// An engine whose base is the state `f0` with the log's materialized records folded in.
pub open spec fn built_on(e: EngineModel, f0: FoldModel) -> bool {
    &&& valid(e)
    &&& e.base == fold_writes(f0, writes_from(e.log, 0).take(e.log.materialized as int))
}

/// The state of an engine is what its whole log folds to, from the state it was built on. The
/// parts that are materialized make no difference.
pub proof fn law_state_is_replay(e: EngineModel, f0: FoldModel)
    requires
        built_on(e, f0),
    ensures
        state_of(e) == fold_writes(f0, writes_from(e.log, 0)),
        built_on(materialized(e), f0),
{
    let ws = writes_from(e.log, 0);
    let n = e.log.materialized as int;
    assert(position(e.log, e.watermark) == n);
    assert(ws.skip(n) =~= tail_of(e));
    lemma_fold_concat(f0, ws.take(n), ws.skip(n));
    assert(ws.take(n) + ws.skip(n) =~= ws);
    let log2 = materialized(e).log;
    assert(writes_from(log2, 0) =~= ws);
    assert(ws.take(ws.len() as int) =~= ws);
}

/// A cold start gives the state back: an engine opened from the write-ahead log of a fully synced
/// engine, with the snapshot that the log follows, has the same state.
pub proof fn law_cold_start(
    e: EngineModel,
    f0: FoldModel,
    started: bool,
    torn: Seq<u8>,
    n_max: nat,
)
    requires
        start_known(e.log, started),
        built_on(e, f0),
        e.log.synced == e.log.records.len(),
        forall|i: int| 0 <= i < e.log.records.len() ==> storable(#[trigger] e.log.records[i]),
        next_frame(torn) is None,
    ensures
        ({
            let log = opened_log(wal_image(e.log, started) + torn, n_max);
            &&& log.base == e.log.base
            &&& log.records == e.log.records
            &&& fold_writes(f0, writes_from(log, position(log, e.log.base))) == state_of(e)
        }),
{
    law_synced_survives(e.log, started, torn);
    assert(e.log.records.take(e.log.records.len() as int) =~= e.log.records);
    law_state_is_replay(e, f0);
    let log = opened_log(wal_image(e.log, started) + torn, n_max);
    assert(writes_from(log, 0) =~= writes_from(e.log, 0));
}

/// Compaction is invisible: an engine that was compacted is observed as one that was not, whatever
/// is written to both afterwards.
pub proof fn law_compaction_invisible(
    f: FoldModel,
    later: Seq<(WriteModel, OrderKey)>,
)
    ensures
        observed(fold_writes(gc_fold(f), later)) == observed(fold_writes(f, later)),
{
    law_gc_then_writes(f, later);
}

/// Where the snapshot is committed but the old write-ahead log is still in place, nothing is folded
/// twice: the covered records lie below the snapshot's sequence number.
pub proof fn law_stale_log_skipped(log: ChangelogModel, f: FoldModel)
    requires
        head_of(log) <= u64::MAX,
    ensures
        fold_writes(f, writes_from(log, position(log, head_of(log) as u64))) == f,
{
}

/// Sequence numbers stay continuous: the writes after a compaction have the order keys that they
/// would have had without it.
pub proof fn law_orders_continue(log: ChangelogModel, later: Seq<RecordModel>)
    requires
        head_of(log) + later.len() <= u64::MAX,
    ensures
        ({
            let plain = ChangelogModel { records: log.records + later, ..log };
            let compacted = ChangelogModel {
                records: later,
                base: head_of(log) as u64,
                ..log
            };
            writes_from(compacted, 0) == writes_from(plain, log.records.len() as int)
        }),
{
    let plain = ChangelogModel { records: log.records + later, ..log };
    let compacted = ChangelogModel { records: later, base: head_of(log) as u64, ..log };
    assert(writes_from(compacted, 0) =~= writes_from(plain, log.records.len() as int));
}

/// A compacted engine that is opened again is observed as one that was never compacted, after the
/// same later writes: its snapshot reads back, its log has exactly the later records, and the two
/// together give what the whole log would.
pub proof fn law_reopened_after_compaction(
    e: EngineModel,
    f0: FoldModel,
    later: Seq<RecordModel>,
    torn: Seq<u8>,
    n_max: nat,
)
    requires
        built_on(e, f0),
        head_of(e.log) + later.len() <= u64::MAX,
        forall|i: int| 0 <= i < later.len() ==> storable(#[trigger] later[i]),
        next_frame(torn) is None,
        fold_fits(gc_fold(state_of(e))),
        fold_bytes(gc_fold(state_of(e))).len() <= u64::MAX,
    ensures
        ({
            let upto = head_of(e.log) as u64;
            let g = gc_fold(state_of(e));
            let log = opened_log(frame(start_payload(upto)) + log_bytes(later) + torn, n_max);
            let plain = ChangelogModel { records: e.log.records + later, ..e.log };
            &&& snapshot_of(snapshot_bytes(g, upto)) == Some((upto, g))
            &&& log.base == upto
            &&& log.records == later
            &&& observed(fold_writes(g, writes_from(log, position(log, upto)))) == observed(
                fold_writes(f0, writes_from(plain, 0)),
            )
        }),
{
    let upto = head_of(e.log) as u64;
    let g = gc_fold(state_of(e));
    let log = opened_log(frame(start_payload(upto)) + log_bytes(later) + torn, n_max);
    let plain = ChangelogModel { records: e.log.records + later, ..e.log };
    let n = e.log.records.len() as int;
    law_snapshot_round_trip(g, upto);
    law_recover_started_log(upto, later, torn);
    law_orders_continue(e.log, later);
    let compacted = ChangelogModel { records: later, base: upto, ..e.log };
    assert(writes_from(log, 0) =~= writes_from(compacted, 0));
    law_compaction_invisible(state_of(e), writes_from(plain, n));
    law_state_is_replay(e, f0);
    assert(writes_from(plain, 0) =~= writes_from(e.log, 0) + writes_from(plain, n));
    lemma_fold_concat(f0, writes_from(e.log, 0), writes_from(plain, n));
}

/// Whether the removals of a log name only writes before them.
pub open spec fn removals_look_back(c: ChangelogModel) -> bool {
    forall|i: int|
        0 <= i < c.records.len() && (#[trigger] c.records[i]).1 is RemoveMany ==> numbered(
            c.records[i].1,
            record_order(c, i),
            c.base + i,
        )
}

/// A retraction names only writes before it: the live tags of a state of writes below `n` are below
/// `n`.
pub proof fn law_retract_looks_back(f: FoldModel, k: GraphKey, o: ObjModel, n: int)
    requires
        settled(f, n),
    ensures
        forall|t: OrderKey| #[trigger] live_add_tags(f, k, o).contains(t) ==> t.tx < n,
{
    assert forall|t: OrderKey| #[trigger] live_add_tags(f, k, o).contains(t) implies t.tx < n by {
        assert(live_elem(f, k, o).contains_key(t));
        assert(key_below(f.keys[k], n));
        assert(rows_below(f.keys[k]->elems[o], n));
        assert(f.keys[k]->elems[o].contains_key(t));
    }
}

/// What a log folds to, on a state of earlier writes, is a state of writes below its head: the next
/// write is later than all of them.
pub proof fn law_log_settles(c: ChangelogModel, f0: FoldModel)
    requires
        settled(f0, c.base as int),
        removals_look_back(c),
        head_of(c) <= u64::MAX,
    ensures
        settled(fold_writes(f0, writes_from(c, 0)), head_of(c) as int),
    decreases c.records.len(),
{
    let ws = writes_from(c, 0);
    let n = c.records.len() as int;
    if n > 0 {
        let init = ChangelogModel { records: c.records.drop_last(), ..c };
        assert forall|i: int|
            0 <= i < init.records.len() && (#[trigger] init.records[i]).1 is RemoveMany implies numbered(
            init.records[i].1,
            record_order(init, i),
            init.base + i,
        ) by {
            assert(c.records[i].1 is RemoveMany);
        }
        law_log_settles(init, f0);
        assert(ws.drop_last() =~= writes_from(init, 0));
        let (w, ok) = ws.last();
        assert(w == c.records[n - 1].1 && ok == record_order(c, n - 1));
        law_write_settles(fold_writes(f0, ws.drop_last()), w, ok, c.base + n - 1);
    }
}

/// What is written is read: after an accepted write the engine's state is one of writes below the
/// new head, a register has the value written, an element is present or gone, and a hard delete
/// leaves nothing.
pub proof fn law_written_is_read(e: EngineModel, f0: FoldModel, source: FieldId, w: WriteModel)
    requires
        built_on(e, f0),
        head_of(e.log) < u64::MAX,
        settled(f0, e.log.base as int),
        removals_look_back(e.log),
        numbered(w, order_of(head_of(e.log) as u64, source), head_of(e.log) as int),
        fits(state_of(e), w),
    ensures
        ({
            let log = ChangelogModel { records: e.log.records.push((source, w)), ..e.log };
            let after = EngineModel { log, ..e };
            let s = observed(state_of(after));
            &&& built_on(after, f0)
            &&& settled(state_of(after), head_of(log) as int)
            &&& match w {
                WriteModel::SetOne { subject, predicate, object, .. } => current_one(
                    s,
                    (subject, predicate),
                ) == Some(object),
                WriteModel::CloseOne { subject, predicate, .. } => current_one(
                    s,
                    (subject, predicate),
                ) is None,
                WriteModel::AddMany { subject, predicate, object, .. } => current_many(
                    s,
                    (subject, predicate),
                ).contains(object),
                WriteModel::CloseMany { subject, predicate, object, .. } => !current_many(
                    s,
                    (subject, predicate),
                ).contains(object),
                WriteModel::HardDelete { subject, predicate, .. } => current_one(
                    s,
                    (subject, predicate),
                ) is None && current_many(s, (subject, predicate)) == Set::<ObjModel>::empty(),
                _ => true,
            }
        }),
{
    let log = ChangelogModel { records: e.log.records.push((source, w)), ..e.log };
    let after = EngineModel { log, ..e };
    let n = head_of(e.log);
    let ok = order_of(n as u64, source);
    let f = state_of(e);
    law_state_is_replay(e, f0);
    law_log_settles(e.log, f0);
    law_write_is_read(e, source, w);
    assert(writes_from(log, 0).take(e.log.materialized as int) =~= writes_from(e.log, 0).take(
        e.log.materialized as int,
    ));
    law_write_settles(f, w, ok, n as int);
    match w {
        WriteModel::SetOne { .. } | WriteModel::CloseOne { .. } => {
            law_register_write_is_read(f, w, ok, 0);
        },
        WriteModel::AddMany { object, .. } => {
            law_element_write_is_read(f, w, object, ok, 0);
        },
        WriteModel::CloseMany { object, .. } => {
            law_element_write_is_read(f, w, object, ok, 0);
        },
        WriteModel::HardDelete { .. } => {
            law_deleted_is_gone(f, w, ok);
        },
        _ => {},
    }
}

/// A retraction names live adds of the element itself, and all of them: not closes, not what is
/// tombstoned or below the floor, and nothing of another element.
pub proof fn law_retract_names_adds(f: FoldModel, k: GraphKey, o: ObjModel, t: OrderKey)
    ensures
        live_add_tags(f, k, o).contains(t) <==> {
            &&& f.keys.contains_key(k) && f.keys[k] is Many && f.keys[k]->elems.contains_key(o)
            &&& f.keys[k]->elems[o].contains_key(t) && f.keys[k]->elems[o][t].object is Some
            &&& !f.keys[k]->removes.contains(t)
            &&& f.keys[k]->Many_hd is Some ==> older(f.keys[k]->Many_hd->0, t)
        },
{
}

} // verus!
