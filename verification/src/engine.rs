//! The engine: writes are appended, reads merge the materialized base with the bounded tail.
//!
//! Materializing folds the tail into the base, which relieves the backlog, and refreshes the cached
//! snapshot at what the tail touched.
pub mod laws;

use crate::changelog::{
    encode_snapshot, head_of, position, room, snapshot_bytes, touched_keys, touched_nodes, writes_from,
    Backpressure, Changelog, ChangelogModel, CompactError, WriteKind,
};
use crate::fact::{FieldId, NodeId};
use crate::fold::laws::law_gc_preserves_observation;
use crate::fold::model::{
    all_fit, empty_fold, fold_writes, gc_fold, law_refresh_is_observe, lemma_observed_empty,
    lemma_refresh_key, lemma_refresh_node, lemma_refresh_none, observed, refresh, same_key,
    same_node, write_key, write_node, FoldModel, GraphKey, WriteModel,
};
use crate::fold::observe::live_add_tags;
use crate::fold::{Fold, ObjKey, OrderKey, Snapshot};
use crate::order::Dup;
use crate::ordmap::{lemma_take_contains, sorted_items, OrdSet};
use crate::wal::{frame, log_bytes, record_models, recovered, start_payload};
use std::sync::Arc;
use vstd::prelude::*;

verus! {

/// `Arc::clone` of std: another handle on the same value.
#[verifier::external_body]
fn share(a: &Arc<Snapshot>) -> (r: Arc<Snapshot>)
    ensures
        r == *a,
{
    Arc::clone(a)
}

/// `Arc::make_mut` of std: the value of `a` for changing in place; where other handles share it, `a`
/// first gets a clone of its own, so that theirs do not change. `Snapshot::clone`, which is proved,
/// keeps what is observed.
#[verifier::external_body]
fn writable(a: &mut Arc<Snapshot>) -> (r: &mut Snapshot)
    ensures
        r@ == old(a)@,
        final(a)@ == final(r)@,
{
    Arc::make_mut(a)
}

/// The model of an [`Engine`].
pub struct EngineModel {
    pub log: ChangelogModel,
    /// The state of everything below the watermark.
    pub base: FoldModel,
    pub watermark: u64,
}

/// The writes not materialized yet.
pub open spec fn tail_of(e: EngineModel) -> Seq<(WriteModel, OrderKey)> {
    writes_from(e.log, position(e.log, e.watermark))
}

/// The state of everything written.
pub open spec fn state_of(e: EngineModel) -> FoldModel {
    fold_writes(e.base, tail_of(e))
}

/// The tail keeps to the cardinalities of the state it meets.
pub open spec fn tail_fits(e: EngineModel) -> bool {
    all_fit(e.base, tail_of(e))
}

/// What a compaction has to store: the snapshot, and what the new write-ahead log starts with.
pub struct Compaction {
    pub upto: u64,
    pub snapshot: Vec<u8>,
    pub wal_start: Vec<u8>,
}

/// The storage engine.
pub struct Engine {
    changelog: Changelog,
    base: Fold,
    base_snap: Arc<Snapshot>,
    watermark: u64,
}

impl View for Engine {
    type V = EngineModel;

    closed spec fn view(&self) -> EngineModel {
        EngineModel { log: self.changelog@, base: self.base@, watermark: self.watermark }
    }
}

/// A state is left alone where a sequence of writes does not touch it.
proof fn lemma_untouched(f: FoldModel, ws: Seq<(WriteModel, OrderKey)>)
    ensures
        forall|k: GraphKey|
            !(#[trigger] touched_keys(ws).contains(k)) ==> same_key(f, fold_writes(f, ws), k),
        forall|n: NodeId|
            !(#[trigger] touched_nodes(ws).contains(n)) ==> same_node(f, fold_writes(f, ws), n),
    decreases ws.len(),
{
    if ws.len() > 0 {
        let init = ws.drop_last();
        let z = ws.last();
        let g = fold_writes(f, init);
        lemma_untouched(f, init);
        assert forall|k: GraphKey| !(#[trigger] touched_keys(ws).contains(k)) implies same_key(
            f,
            fold_writes(f, ws),
            k,
        ) by {
            assert(!touched_keys(init).contains(k)) by {
                if touched_keys(init).contains(k) {
                    let i = choose|i: int|
                        0 <= i < init.len() && write_key((#[trigger] init[i]).0) == Some(k);
                    assert(ws[i] == init[i]);
                }
            }
            assert(write_key(ws[ws.len() - 1].0) != Some(k));
            assert(same_key(f, g, k));
        }
        assert forall|n: NodeId| !(#[trigger] touched_nodes(ws).contains(n)) implies same_node(
            f,
            fold_writes(f, ws),
            n,
        ) by {
            assert(!touched_nodes(init).contains(n)) by {
                if touched_nodes(init).contains(n) {
                    let i = choose|i: int|
                        0 <= i < init.len() && write_node((#[trigger] init[i]).0) == Some(n);
                    assert(ws[i] == init[i]);
                }
            }
            assert(write_node(ws[ws.len() - 1].0) != Some(n));
            assert(same_node(f, g, n));
        }
    }
}

fn refresh_snapshot(
    base: &Fold,
    keys: &OrdSet<(NodeId, FieldId)>,
    nodes: &OrdSet<NodeId>,
    snap: &mut Snapshot,
)
    ensures
        final(snap)@ == refresh(old(snap)@, base@, keys@, nodes@),
{
    let ghost s0 = snap@;
    let ghost f = base@;
    let ghost mut ks: Set<GraphKey> = Set::empty();
    let ghost mut ns: Set<NodeId> = Set::empty();
    proof {
        lemma_refresh_none(s0, f);
    }
    let n: usize = keys.len();
    let mut i: usize = 0;
    while i < n
        invariant
            i <= n,
            n == keys.items().len(),
            f == base@,
            snap@ == refresh(s0, f, ks, ns),
            ns == Set::<NodeId>::empty(),
            forall|k: GraphKey| #[trigger] ks.contains(k) <==> keys.items().take(i as int).contains(k),
        decreases n - i,
    {
        let k = *keys.at(i);
        base.observe_key_into(&k, snap);
        proof {
            lemma_refresh_key(s0, f, ks, ns, k);
            lemma_take_contains(keys.items(), i as int);
            ks = ks.insert(k);
        }
        i += 1;
    }
    assert(ks =~= keys@) by {
        assert(keys.items().take(n as int) =~= keys.items());
    }
    let m: usize = nodes.len();
    i = 0;
    while i < m
        invariant
            i <= m,
            m == nodes.items().len(),
            f == base@,
            snap@ == refresh(s0, f, ks, ns),
            forall|x: NodeId| #[trigger]
                ns.contains(x) <==> nodes.items().take(i as int).contains(x),
        decreases m - i,
    {
        let node: NodeId = *nodes.at(i);
        base.observe_node_into(node, snap);
        proof {
            lemma_refresh_node(s0, f, ks, ns, node);
            lemma_take_contains(nodes.items(), i as int);
            ns = ns.insert(node);
        }
        i += 1;
    }
    assert(ns =~= nodes@) by {
        assert(nodes.items().take(m as int) =~= nodes.items());
    }
}

impl Engine {
    /// The watermark is the materialized mark of the log, and the cached snapshot is that of the
    /// base.
    pub closed spec fn wf(&self) -> bool {
        &&& self.changelog.wf()
        &&& self.watermark == self.changelog@.base + self.changelog@.materialized
        &&& self.base_snap@ == observed(self.base@)
    }

    /// What well-formedness says of the model: in particular the backlog keeps to its bound.
    pub proof fn lemma_wf(&self)
        requires
            self.wf(),
        ensures
            self@.watermark == self@.log.base + self@.log.materialized,
            self@.log.materialized <= self@.log.records.len(),
            self@.log.synced <= self@.log.records.len(),
            head_of(self@.log) - self@.watermark <= self@.log.limit,
            head_of(self@.log) <= u64::MAX,
    {
        self.changelog.lemma_wf();
    }

    /// An empty in-memory engine; `n_max` bounds its backlog.
    pub fn new(n_max: usize) -> (r: Self)
        ensures
            r.wf(),
            r@.base == empty_fold(),
            r@.watermark == 0,
            r@.log == (ChangelogModel {
                records: Seq::empty(),
                base: 0,
                materialized: 0,
                limit: n_max as nat,
                durable: false,
                synced: 0,
            }),
    {
        proof {
            lemma_observed_empty();
        }
        Engine {
            changelog: Changelog::new(n_max),
            base: Fold::default(),
            base_snap: Arc::new(Snapshot::default()),
            watermark: 0,
        }
    }

    /// A durable engine from the bytes of its write-ahead log and the snapshot beside it, if any:
    /// the records from the covered sequence number on are folded into the snapshot's state, so
    /// that a prefix which the snapshot covers is not folded twice.
    pub fn open(wal: &[u8], snapshot: Option<(u64, Fold)>, n_max: usize) -> (r: Self)
        requires
            recovered(wal@).0 + recovered(wal@).1.len() <= u64::MAX,
            ({
                let log = opened_log(wal@, n_max as nat);
                match snapshot {
                    Some(x) => all_fit(x.1@, writes_from(log, position(log, x.0))),
                    None => all_fit(empty_fold(), writes_from(log, 0)),
                }
            }),
        ensures
            r.wf(),
            r@.log == opened_log(wal@, n_max as nat),
            r@.watermark == head_of(r@.log),
            r@.base == match snapshot {
                Some(x) => fold_writes(x.1@, writes_from(r@.log, position(r@.log, x.0))),
                None => fold_writes(empty_fold(), writes_from(r@.log, 0)),
            },
    {
        let changelog = Changelog::open(wal, n_max);
        let ghost log = changelog@;
        let (covered, start) = match snapshot {
            Some(x) => x,
            None => (0, Fold::default()),
        };
        let mut base = start;
        changelog.replay_range_into(covered, &mut base);
        let base_snap = Arc::new(base.observe());
        let watermark: u64 = changelog.head();
        Engine { changelog, base, base_snap, watermark }
    }

    /// The bytes to append to the write-ahead log so that every write is in it; `None` where there
    /// is nothing to do.
    pub fn sync(&self) -> (r: Option<Vec<u8>>)
        requires
            self.wf(),
        ensures
            r is Some == (self@.log.durable && self@.log.synced < self@.log.records.len()),
            r matches Some(b) ==> b@ == log_bytes(
                self@.log.records.skip(self@.log.synced as int),
            ),
    {
        self.changelog.sync()
    }

    /// The bytes of [`Engine::sync`] are safely stored.
    pub fn synced(&mut self)
        requires
            old(self).wf(),
        ensures
            final(self).wf(),
            final(self)@ == (EngineModel {
                log: ChangelogModel {
                    synced: if old(self)@.log.durable {
                        old(self)@.log.records.len()
                    } else {
                        old(self)@.log.synced
                    },
                    ..old(self)@.log
                },
                ..old(self)@
            }),
    {
        self.changelog.synced();
    }

    /// The sequence number up to which writes are safely stored; 0 for an in-memory engine.
    pub fn durable_head(&self) -> (r: u64)
        requires
            self.wf(),
        ensures
            r == (if self@.log.durable {
                self@.log.base + self@.log.synced
            } else {
                0
            }),
    {
        self.changelog.durable_head()
    }

    /// Append a write: its sequence number, or the refusal where the backlog is full.
    pub fn write(&mut self, source: FieldId, kind: WriteKind) -> (r: Result<u64, Backpressure>)
        requires
            old(self).wf(),
            head_of(old(self)@.log) < u64::MAX,
        ensures
            final(self).wf(),
            r is Ok == room(old(self)@.log, 1),
            ({
                let log = old(self)@.log;
                let backlog = head_of(log) - old(self)@.watermark;
                if backlog >= log.limit {
                    &&& r == Err::<u64, Backpressure>(
                        Backpressure { unmaterialized: backlog as usize, limit: log.limit as usize },
                    )
                    &&& final(self)@ == old(self)@
                } else {
                    &&& r == Ok::<u64, Backpressure>(head_of(log) as u64)
                    &&& final(self)@ == (EngineModel {
                        log: ChangelogModel { records: log.records.push((source, kind@)), ..log },
                        ..old(self)@
                    })
                }
            }),
    {
        self.changelog.append(source, kind)
    }

    /// Append a chunk of writes, all or none: their sequence numbers in order.
    pub fn write_batch(&mut self, writes: Vec<(FieldId, WriteKind)>) -> (r: Result<
        Vec<u64>,
        Backpressure,
    >)
        requires
            old(self).wf(),
            head_of(old(self)@.log) + writes.len() <= u64::MAX,
            old(self)@.log.records.len() + writes.len() <= usize::MAX,
        ensures
            final(self).wf(),
            r is Ok == room(old(self)@.log, writes@.len()),
            ({
                let log = old(self)@.log;
                let wanted = head_of(log) - old(self)@.watermark + writes.len();
                if wanted > log.limit {
                    &&& r == Err::<Vec<u64>, Backpressure>(
                        Backpressure { unmaterialized: wanted as usize, limit: log.limit as usize },
                    )
                    &&& final(self)@ == old(self)@
                } else {
                    &&& r matches Ok(seqnos)
                    &&& seqnos@.len() == writes@.len()
                    &&& forall|i: int|
                        0 <= i < writes@.len() ==> #[trigger] seqnos@[i] == head_of(log) + i
                    &&& final(self)@ == (EngineModel {
                        log: ChangelogModel {
                            records: log.records + record_models(writes@),
                            ..log
                        },
                        ..old(self)@
                    })
                }
            }),
    {
        self.changelog.append_batch(writes)
    }

    /// Retract an edge: append the removal of the tags that are live in the state of everything
    /// written. `None` where the edge has none.
    pub fn retract_edge(
        &mut self,
        source: FieldId,
        subject: NodeId,
        predicate: FieldId,
        object: ObjKey,
    ) -> (r: Result<Option<u64>, Backpressure>)
        requires
            old(self).wf(),
            tail_fits(old(self)@),
            head_of(old(self)@.log) < u64::MAX,
        ensures
            final(self).wf(),
            r is Err ==> !room(old(self)@.log, 1),
            r matches Ok(Some(_)) ==> room(old(self)@.log, 1),
            ({
                let log = old(self)@.log;
                let backlog = head_of(log) - old(self)@.watermark;
                let tags = sorted_items::<OrderKey>(
                    live_add_tags(state_of(old(self)@), (subject, predicate), object@),
                );
                if tags.len() == 0 {
                    &&& r == Ok::<Option<u64>, Backpressure>(None)
                    &&& final(self)@ == old(self)@
                } else if backlog >= log.limit {
                    &&& r == Err::<Option<u64>, Backpressure>(
                        Backpressure { unmaterialized: backlog as usize, limit: log.limit as usize },
                    )
                    &&& final(self)@ == old(self)@
                } else {
                    &&& r == Ok::<Option<u64>, Backpressure>(Some(head_of(log) as u64))
                    &&& final(self)@ == (EngineModel {
                        log: ChangelogModel {
                            records: log.records.push(
                                (
                                    source,
                                    WriteModel::RemoveMany { subject, predicate, observed: tags },
                                ),
                            ),
                            ..log
                        },
                        ..old(self)@
                    })
                }
            }),
    {
        let observed = self.effective_fold().live_tags(subject, predicate, &object);
        if observed.len() == 0 {
            return Ok(None);
        }
        match self.changelog.append(
            source,
            WriteKind::RemoveMany { subject, predicate, observed },
        ) {
            Ok(seqno) => Ok(Some(seqno)),
            Err(e) => Err(e),
        }
    }

    /// Fold the tail into the base, which relieves the backlog.
    pub fn materialize(&mut self)
        requires
            old(self).wf(),
            tail_fits(old(self)@),
        ensures
            final(self).wf(),
            final(self)@ == materialized(old(self)@),
    {
        let _ = self.materialize_tracked();
    }

    /// As [`Engine::materialize`], telling the graph keys that the tail touched.
    pub fn materialize_tracked(&mut self) -> (r: OrdSet<(NodeId, FieldId)>)
        requires
            old(self).wf(),
            tail_fits(old(self)@),
        ensures
            final(self).wf(),
            final(self)@ == materialized(old(self)@),
            r@ == touched_keys(tail_of(old(self)@)),
    {
        let (keys, _) = self.materialize_tracked_with_nodes();
        keys
    }

    /// As [`Engine::materialize`], telling the graph keys that the tail touched, and the nodes whose
    /// attributes it changed.
    pub fn materialize_tracked_with_nodes(&mut self) -> (r: (
        OrdSet<(NodeId, FieldId)>,
        OrdSet<NodeId>,
    ))
        requires
            old(self).wf(),
            tail_fits(old(self)@),
        ensures
            final(self).wf(),
            final(self)@ == materialized(old(self)@),
            r.0@ == touched_keys(tail_of(old(self)@)),
            r.1@ == touched_nodes(tail_of(old(self)@)),
    {
        proof {
            self.changelog.lemma_wf();
        }
        let ghost f0 = self.base@;
        let ghost ws = tail_of(self@);
        let (keys, nodes) = self.changelog.replay_range_into_tracked(
            self.watermark,
            &mut self.base,
        );
        refresh_snapshot(&self.base, &keys, &nodes, writable(&mut self.base_snap));
        proof {
            lemma_untouched(f0, ws);
            law_refresh_is_observe(f0, self.base@, keys@, nodes@);
        }
        self.watermark = self.changelog.head();
        self.changelog.mark_materialized(self.watermark);
        (keys, nodes)
    }

    /// Whether the writes not materialized yet may be folded, each being of the cardinality that it
    /// meets.
    pub fn fits(&self) -> (r: bool)
        requires
            self.wf(),
        ensures
            r == tail_fits(self@),
    {
        self.changelog.fits_from(self.watermark, &self.base)
    }

    fn effective_fold(&self) -> (r: Fold)
        requires
            self.wf(),
            tail_fits(self@),
        ensures
            r@ == state_of(self@),
    {
        let mut eff = self.base.dup();
        self.changelog.replay_range_into(self.watermark, &mut eff);
        eff
    }

    /// The observation of everything written: the base merged with the tail.
    pub fn snapshot(&self) -> (r: Snapshot)
        requires
            self.wf(),
            tail_fits(self@),
        ensures
            r@ == observed(state_of(self@)),
    {
        self.effective_fold().observe()
    }

    /// The cached observation of the base, shared. A holder keeps a stable view.
    pub fn snapshot_arc(&self) -> (r: Arc<Snapshot>)
        requires
            self.wf(),
        ensures
            r@ == observed(self@.base),
    {
        share(&self.base_snap)
    }

    /// The number of writes not materialized yet, never more than the bound.
    pub fn unmerged(&self) -> (r: usize)
        requires
            self.wf(),
        ensures
            r == head_of(self@.log) - self@.watermark,
            r <= self@.log.limit,
    {
        proof {
            self.changelog.lemma_wf();
        }
        (self.changelog.head() - self.watermark) as usize
    }

    /// Fold the tail, drop what the floors dominate, and give what has to be stored so that the log
    /// can be truncated: nothing is dropped from it until [`Engine::compacted`].
    pub fn compact(&mut self) -> (r: Result<Compaction, CompactError>)
        requires
            old(self).wf(),
            tail_fits(old(self)@),
        ensures
            final(self).wf(),
            ({
                let log = materialized(old(self)@).log;
                if !log.durable {
                    &&& r == Err::<Compaction, CompactError>(CompactError::InMemory)
                    &&& final(self)@ == materialized(old(self)@)
                } else if log.synced < log.records.len() {
                    &&& r == Err::<Compaction, CompactError>(CompactError::Unsettled)
                    &&& final(self)@ == materialized(old(self)@)
                } else {
                    let base = gc_fold(state_of(old(self)@));
                    &&& r matches Ok(c)
                    &&& c.upto == head_of(log)
                    &&& c.snapshot@ == snapshot_bytes(base, c.upto)
                    &&& c.wal_start@ == frame(start_payload(c.upto))
                    &&& final(self)@ == (EngineModel { base, ..materialized(old(self)@) })
                }
            }),
    {
        self.materialize();
        proof {
            self.changelog.lemma_wf();
        }
        let (upto, wal_start) = match self.changelog.compact_to() {
            Ok(x) => x,
            Err(e) => {
                return Err(e);
            },
        };
        proof {
            law_gc_preserves_observation(self.base@);
        }
        self.base.gc();
        let snapshot = encode_snapshot(&self.base, upto);
        Ok(Compaction { upto, snapshot, wal_start })
    }

    /// The snapshot and the new write-ahead log of [`Engine::compact`] are safely stored: drop the
    /// covered records.
    pub fn compacted(&mut self)
        requires
            old(self).wf(),
            old(self)@.log.durable,
            old(self)@.log.synced == old(self)@.log.records.len(),
            old(self)@.watermark == head_of(old(self)@.log),
        ensures
            final(self).wf(),
            final(self)@ == (EngineModel {
                log: ChangelogModel {
                    records: Seq::empty(),
                    base: head_of(old(self)@.log) as u64,
                    materialized: 0,
                    synced: 0,
                    ..old(self)@.log
                },
                ..old(self)@
            }),
    {
        self.changelog.compacted();
    }
}

/// The log that a write-ahead log recovers to.
pub open spec fn opened_log(wal: Seq<u8>, n_max: nat) -> ChangelogModel {
    ChangelogModel {
        records: recovered(wal).1,
        base: recovered(wal).0,
        materialized: recovered(wal).1.len(),
        limit: n_max,
        durable: true,
        synced: recovered(wal).1.len(),
    }
}

/// The engine after its tail was folded into its base.
pub open spec fn materialized(e: EngineModel) -> EngineModel {
    EngineModel {
        log: ChangelogModel { materialized: e.log.records.len(), ..e.log },
        base: state_of(e),
        watermark: head_of(e.log) as u64,
    }
}

} // verus!
