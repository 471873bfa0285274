//! Snapshot + truncate compaction: a compacted engine must be OBSERVATIONALLY IDENTICAL to a
//! never-compacted twin fed the same writes — current reads, as-of reads (superseded rows survive
//! the boundary), LWW tie-breaks (order keys serialize verbatim), and seqno continuity — while the
//! WAL shrinks to the tail. Plus the crash window: a committed snapshot next to a not-yet-truncated
//! WAL reconciles by seqno on open.

use stromadb::catalog::Cardinality;
use stromadb::changelog::{read_snapshot, Changelog, CompactError, WriteKind};
use stromadb::engine::Engine;
use stromadb::fold::ObjKey;
use stromadb::query;

/// The files of an engine: its log, its snapshot, the logs that were covered.
#[derive(Default)]
struct Disk {
    wal: Vec<u8>,
    snap: Option<Vec<u8>>,
    archive: Vec<(u64, Vec<u8>)>,
}

impl Disk {
    fn open(&mut self) -> Engine {
        let snapshot = read_snapshot(self.snap.as_deref()).unwrap();
        if let Some((covered, _)) = &snapshot {
            if let Some(start) = Changelog::restart(&self.wal, *covered) {
                self.wal = start;
            }
        }
        Engine::open(&self.wal, snapshot, 1024)
    }

    fn save(&mut self, e: &mut Engine) {
        if let Some(bytes) = e.sync() {
            self.wal.extend(bytes);
        }
        e.synced();
    }

    fn compact(&mut self, e: &mut Engine) -> u64 {
        let c = e.compact().unwrap();
        self.snap = Some(c.snapshot);
        self.archive
            .push((c.upto, std::mem::replace(&mut self.wal, c.wal_start)));
        e.compacted();
        c.upto
    }
}

/// A history-shaped workload phase: supersessions, closes, Many intervals with a revocation, an
/// edge property, node attributes — the shapes whose rows/tie-breaks a snapshot must preserve.
fn phase_one(e: &mut Engine, disk: &mut Disk) {
    let w = |e: &mut Engine, k: WriteKind| {
        e.write(0, k).unwrap();
    };
    w(
        e,
        WriteKind::SetNodeType {
            node: 1,
            type_id: 9,
        },
    );
    w(e, WriteKind::SetNodeLabel { node: 1, label: 2 });
    // One-key supersession chain incl. a retroactive correction (same valid_from tie at 150)
    for (obj, vf) in [(10u64, 100i64), (20, 200), (15, 150)] {
        w(
            e,
            WriteKind::SetOne {
                subject: 1,
                predicate: 0,
                object: ObjKey::Node(obj),
                valid_from: vf,
                valid_to: None,
            },
        );
    }
    // Many grants: 7 added→closed→re-added; 8 bounded [150, 300); 9 added then hard-retracted
    w(
        e,
        WriteKind::AddMany {
            subject: 1,
            predicate: 100,
            object: ObjKey::Node(7),
            valid_from: 100,
            valid_to: None,
        },
    );
    w(
        e,
        WriteKind::CloseMany {
            subject: 1,
            predicate: 100,
            object: ObjKey::Node(7),
            valid_from: 200,
        },
    );
    w(
        e,
        WriteKind::AddMany {
            subject: 1,
            predicate: 100,
            object: ObjKey::Node(7),
            valid_from: 400,
            valid_to: None,
        },
    );
    w(
        e,
        WriteKind::AddMany {
            subject: 1,
            predicate: 100,
            object: ObjKey::Node(8),
            valid_from: 150,
            valid_to: Some(300),
        },
    );
    w(
        e,
        WriteKind::AddMany {
            subject: 1,
            predicate: 100,
            object: ObjKey::Node(9),
            valid_from: 100,
            valid_to: None,
        },
    );
    e.retract_edge(0, 1, 100, ObjKey::Node(9)).unwrap();
    w(
        e,
        WriteKind::SetEdgeProp {
            subject: 1,
            predicate: 100,
            object: ObjKey::Node(7),
            key: "role".into(),
            value: ObjKey::Int(3),
        },
    );
    disk.save(e);
    e.materialize();
}

/// Post-compaction phase: another supersession and a fresh grant, so the boundary is crossed.
fn phase_two(e: &mut Engine, disk: &mut Disk) {
    e.write(
        0,
        WriteKind::SetOne {
            subject: 1,
            predicate: 0,
            object: ObjKey::Node(30),
            valid_from: 300,
            valid_to: None,
        },
    )
    .unwrap();
    e.write(
        0,
        WriteKind::AddMany {
            subject: 1,
            predicate: 100,
            object: ObjKey::Node(11),
            valid_from: 500,
            valid_to: None,
        },
    )
    .unwrap();
    disk.save(e);
    e.materialize();
}

/// Every read class the compaction contract covers, asserted equal between two engines.
fn assert_equivalent(a: &Engine, b: &Engine) {
    let (sa, sb) = (a.snapshot(), b.snapshot());
    assert_eq!(sa, sb, "observed snapshots must be identical");
    for at in [50i64, 100, 120, 150, 180, 220, 250, 320, 450, 550] {
        assert_eq!(
            query::point_one_asof(&sa, 1, 0, at),
            query::point_one_asof(&sb, 1, 0, at),
            "as-of One at {at}"
        );
        assert_eq!(
            query::point_many_asof(&sa, 1, 100, at),
            query::point_many_asof(&sb, 1, 100, at),
            "as-of Many at {at}"
        );
    }
    assert_eq!(a.durable_head(), b.durable_head(), "seqno continuity");
}

#[test]
fn compacted_engine_is_observationally_identical_across_reopen() {
    let mut cp = Disk::default();
    let mut tp = Disk::default();

    // twin: same writes, never compacted
    let mut twin = tp.open();
    phase_one(&mut twin, &mut tp);
    phase_two(&mut twin, &mut tp);

    let mut e = cp.open();
    phase_one(&mut e, &mut cp);
    let wal_before = cp.wal.len();
    let covered = cp.compact(&mut e);
    assert_eq!(covered, e.durable_head(), "compaction covers the full log");
    // the WAL shrank to (nearly) nothing and the covered prefix is archived, snapshot present
    let wal_after = cp.wal.len();
    assert!(
        wal_after < wal_before,
        "WAL must shrink ({wal_before} -> {wal_after})"
    );
    assert!(cp.snap.is_some());
    assert!(cp.archive.iter().any(|(upto, _)| *upto == covered));
    // writes continue across the boundary with continuous seqnos
    phase_two(&mut e, &mut cp);
    assert_equivalent(&e, &twin);

    // cold reopen: snapshot load + tail replay must equal the never-compacted twin
    drop(e);
    let e = cp.open();
    assert_equivalent(&e, &twin);
}

#[test]
fn crash_window_snapshot_committed_but_wal_not_truncated_reconciles() {
    let mut cp = Disk::default();
    let mut tp = Disk::default();

    let mut twin = tp.open();
    phase_one(&mut twin, &mut tp);

    let mut e = cp.open();
    phase_one(&mut e, &mut cp);
    let covered = cp.compact(&mut e);
    drop(e);
    // simulate the crash window: the snapshot committed, but the old WAL was never truncated —
    // restore the archived full log over the fresh tail-only WAL
    cp.wal = cp
        .archive
        .iter()
        .find(|(upto, _)| *upto == covered)
        .unwrap()
        .1
        .clone();
    let e = cp.open();
    // the stale prefix (seqnos below the snapshot) is skipped by seqno, not replayed twice
    assert_equivalent(&e, &twin);
}

#[test]
fn second_compaction_and_empty_compaction_are_sound() {
    let mut cp = Disk::default();
    let mut tp = Disk::default();

    let mut twin = tp.open();
    phase_one(&mut twin, &mut tp);
    phase_two(&mut twin, &mut tp);

    let mut e = cp.open();
    phase_one(&mut e, &mut cp);
    let first = cp.compact(&mut e);
    phase_two(&mut e, &mut cp);
    let second = cp.compact(&mut e);
    assert!(
        second > first,
        "the second compaction covers the newer head"
    );
    // an immediate third compaction over an empty tail is a no-op state-wise
    let third = cp.compact(&mut e);
    assert_eq!(third, second);
    assert_equivalent(&e, &twin);

    drop(e);
    let e = cp.open();
    assert_equivalent(&e, &twin);
}

#[test]
fn a_lost_log_starts_again_where_the_snapshot_ends() {
    let mut cp = Disk::default();
    let mut e = cp.open();
    phase_one(&mut e, &mut cp);
    let covered = cp.compact(&mut e);
    cp.wal = Vec::new();
    let mut e2 = cp.open();
    assert_eq!(e2.snapshot(), e.snapshot());
    assert_eq!(e2.durable_head(), covered);
    // the next write continues the numbers
    let n = e2.write(0, WriteKind::SetNodeLabel { node: 5, label: 1 }).unwrap();
    assert_eq!(n, covered);
}

#[test]
fn compaction_is_refused_where_it_cannot_be() {
    let mut m = Engine::new(16);
    assert_eq!(m.compact().err(), Some(CompactError::InMemory));
    let mut cp = Disk::default();
    let mut e = cp.open();
    e.write(0, WriteKind::SetNodeLabel { node: 5, label: 1 }).unwrap();
    e.materialize();
    assert_eq!(e.compact().err(), Some(CompactError::Unsettled));
    cp.save(&mut e);
    assert!(e.compact().is_ok());
}

#[test]
fn a_compacted_empty_log_survives_a_torn_write() {
    let mut cp = Disk::default();
    let mut e = cp.open();
    // nothing is covered, and the new log names 0 as its start
    assert_eq!(cp.compact(&mut e), 0);
    assert!(!cp.wal.is_empty());
    assert_eq!(e.write(0, WriteKind::SetNodeLabel { node: 5, label: 1 }).unwrap(), 0);
    cp.save(&mut e);
    cp.wal.extend([9, 9, 9]);
    let e2 = cp.open();
    assert_eq!(e2.durable_head(), 1);
    assert_eq!(e2.snapshot(), e.snapshot());
}

#[test]
fn a_second_collection_changes_nothing() {
    let mut cp = Disk::default();
    let mut e = cp.open();
    let set = |object: u64| WriteKind::AddMany {
        subject: 1,
        predicate: 2,
        object: ObjKey::Node(object),
        valid_from: 0,
        valid_to: None,
    };
    e.write(0, set(7)).unwrap();
    let delete = WriteKind::HardDelete { subject: 1, predicate: 2, cardinality: Cardinality::Many };
    e.write(0, delete).unwrap();
    e.write(0, set(8)).unwrap();
    cp.save(&mut e);
    let first = e.compact().unwrap();
    let second = e.compact().unwrap();
    assert_eq!((first.upto, second.upto), (3, 3));
    assert_eq!(first.snapshot, second.snapshot);
}
