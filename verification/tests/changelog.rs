//! The append-only changelog and its snapshots.
use stromadb::changelog::{
    decode_snapshot, encode_snapshot, read_snapshot, Backpressure, Changelog, CompactError,
    CorruptSnapshot, WriteKind,
};
use stromadb::fact::{FieldId, NodeId};
use stromadb::fold::{Fold, ObjKey, OrderKey};
use stromadb::order::Key;
use stromadb::ordmap::OrdSet;

fn set_of<K: Key, const N: usize>(items: [K; N]) -> OrdSet<K> {
    let mut s = OrdSet::new();
    for i in items {
        s.insert(i);
    }
    s
}

fn add(s: NodeId, p: FieldId, o: u64) -> WriteKind {
    WriteKind::AddMany {
        subject: s,
        predicate: p,
        object: ObjKey::Node(o),
        valid_from: 0,
        valid_to: None,
    }
}

#[test]
fn append_assigns_monotonic_seqno() {
    let mut log = Changelog::new(1024);
    assert_eq!(log.append(0, add(1, 100, 2)), Ok(0));
    assert_eq!(log.append(0, add(1, 100, 3)), Ok(1));
    assert_eq!(log.head(), 2);
}

#[test]
fn replay_is_deterministic_and_matches_fold() {
    let mut log = Changelog::new(1024);
    log.append(0, add(1, 100, 2)).unwrap();
    log.append(1, add(1, 100, 3)).unwrap();
    log.append(
        0,
        WriteKind::SetOne {
            subject: 1,
            predicate: 0,
            object: ObjKey::Node(9),
            valid_from: 0,
            valid_to: None,
        },
    )
    .unwrap();
    let a = log.replay().observe();
    let b = log.replay().observe();
    assert_eq!(a, b);
    // many{(1,100)} = {2,3}; one{(1,0)} = 9
    assert_eq!(
        a.many.get(&(1, 100)).unwrap(),
        &set_of([ObjKey::Node(2), ObjKey::Node(3)])
    );
    assert_eq!(a.one.get(&(1, 0)), Some(&Some(ObjKey::Node(9))));
}

/// Bring what is not in the log's bytes yet into them.
fn save(log: &mut Changelog, disk: &mut Vec<u8>) {
    if let Some(bytes) = log.sync() {
        disk.extend(bytes);
    }
    log.synced();
}

fn seed(log: &mut Changelog) {
    log.append(0, add(1, 100, 2)).unwrap();
    log.append(1, add(1, 100, 3)).unwrap();
    log.append(
        0,
        WriteKind::SetOne {
            subject: 1,
            predicate: 0,
            object: ObjKey::Text("v".into()),
            valid_from: 5,
            valid_to: None,
        },
    )
    .unwrap();
    log.append(
        0,
        WriteKind::RemoveMany {
            subject: 1,
            predicate: 100,
            observed: vec![OrderKey {
                tx: 0,
                source: 0,
                seq: 0,
            }],
        },
    )
    .unwrap();
}

#[test]
fn durable_reopen_replays_identical_state() {
    let mut disk: Vec<u8> = Vec::new();
    let expected = {
        let mut log = Changelog::open(&disk, 1024);
        seed(&mut log);
        save(&mut log, &mut disk);
        assert_eq!(log.durable_head(), log.head());
        log.replay().observe()
    };
    // reopen from cold: recovered log must fold to the same state
    let reopened = Changelog::open(&disk, 1024);
    assert_eq!(reopened.head(), 4);
    assert_eq!(reopened.durable_head(), 4);
    assert_eq!(reopened.replay().observe(), expected);
}

#[test]
fn unsynced_tail_is_not_durable() {
    let mut disk: Vec<u8> = Vec::new();
    {
        let mut log = Changelog::open(&disk, 1024);
        log.append(0, add(1, 100, 2)).unwrap();
        save(&mut log, &mut disk); // 1 record durable
        log.append(0, add(1, 100, 3)).unwrap(); // appended, NOT synced
        assert_eq!(log.head(), 2);
        assert_eq!(log.durable_head(), 1);
    }
    // crash before syncing the 2nd append → only the 1st survives
    let reopened = Changelog::open(&disk, 1024);
    assert_eq!(reopened.head(), 1);
}

#[test]
fn torn_tail_frame_is_dropped_on_recovery() {
    let mut disk: Vec<u8> = Vec::new();
    {
        let mut log = Changelog::open(&disk, 1024);
        seed(&mut log);
        save(&mut log, &mut disk);
    }
    // simulate a torn write: chop the last few bytes off the log
    disk.truncate(disk.len() - 3);
    // recovery drops only the torn last record; the committed prefix is intact
    let reopened = Changelog::open(&disk, 1024);
    assert_eq!(reopened.head(), 3);
}

#[test]
fn backpressure_triggers_and_clears() {
    let mut log = Changelog::new(2);
    assert!(log.append(0, add(1, 100, 1)).is_ok());
    assert!(log.append(0, add(1, 100, 2)).is_ok());
    // backlog full (2 unmaterialized, limit 2)
    assert_eq!(
        log.append(0, add(1, 100, 3)),
        Err(Backpressure {
            unmaterialized: 2,
            limit: 2
        })
    );
    // a derived store catches up → backpressure relieved
    log.mark_materialized(2);
    assert_eq!(log.unmaterialized(), 0);
    assert!(log.append(0, add(1, 100, 3)).is_ok());
}

#[test]
fn a_snapshot_reads_back() {
    let mut log = Changelog::new(1024);
    seed(&mut log);
    let f = log.replay();
    let bytes = encode_snapshot(&f, 4);
    let (upto, back) = decode_snapshot(&bytes).unwrap();
    assert_eq!(upto, 4);
    assert_eq!(back.observe(), f.observe());
    assert_eq!(read_snapshot(Some(&bytes)).unwrap().unwrap().0, 4);
    assert!(read_snapshot(None).unwrap().is_none());
}

#[test]
fn a_damaged_snapshot_is_an_error() {
    let bytes = encode_snapshot(&Fold::default(), 9);
    // the covered number, bytes 5 to 12, is under no checksum
    for i in (0..5).chain(13..bytes.len()) {
        let mut bad = bytes.clone();
        bad[i] ^= 0x10;
        assert!(decode_snapshot(&bad).is_none(), "byte {i}");
    }
    assert!(decode_snapshot(&bytes[..bytes.len() - 1]).is_none());
    assert!(matches!(read_snapshot(Some(&bytes[1..])), Err(CorruptSnapshot)));
}

#[test]
fn compaction_of_a_log_waits_until_it_is_settled() {
    assert_eq!(Changelog::new(4).compact_to(), Err(CompactError::InMemory));
    let mut disk: Vec<u8> = Vec::new();
    let mut log = Changelog::open(&disk, 1024);
    seed(&mut log);
    assert_eq!(log.compact_to(), Err(CompactError::Unsettled));
    save(&mut log, &mut disk);
    assert_eq!(log.compact_to(), Err(CompactError::Unsettled));
    log.mark_materialized(log.head());
    let (upto, start) = log.compact_to().unwrap();
    assert_eq!(upto, 4);
    log.compacted();
    assert_eq!((log.base(), log.head(), log.durable_head()), (4, 4, 4));
    let again = Changelog::open(&start, 1024);
    assert_eq!((again.base(), again.head()), (4, 4));
}

#[test]
fn a_log_behind_its_snapshot_starts_again() {
    let mut disk: Vec<u8> = Vec::new();
    let mut log = Changelog::open(&disk, 1024);
    seed(&mut log);
    save(&mut log, &mut disk);
    assert_eq!(Changelog::restart(&disk, 4), None);
    let start = Changelog::restart(&disk, 5).unwrap();
    assert_eq!(Changelog::open(&start, 1024).head(), 5);
}

#[test]
fn a_batch_is_taken_whole_or_not_at_all() {
    let mut log = Changelog::new(2);
    let err = log.append_batch(vec![(0, add(1, 1, 1)), (0, add(1, 1, 2)), (0, add(1, 1, 3))]);
    assert_eq!(err, Err(Backpressure { unmaterialized: 3, limit: 2 }));
    assert_eq!(log.head(), 0);
    assert_eq!(log.append_batch(vec![(0, add(1, 1, 1)), (0, add(1, 1, 2))]), Ok(vec![0, 1]));
}

#[test]
fn the_snapshot_lies_beside_the_log() {
    assert_eq!(Changelog::snapshot_path("/data/x.log"), "/data/x.log.snap");
}

#[test]
fn touched_keys_and_nodes_are_tracked() {
    let mut log = Changelog::new(16);
    log.append(0, add(1, 100, 2)).unwrap();
    log.append(0, WriteKind::SetNodeType { node: 9, type_id: 3 }).unwrap();
    let mut f = Fold::default();
    let (keys, nodes) = log.replay_range_into_tracked(0, &mut f);
    assert_eq!(keys, set_of([(1u64, 100u32)]));
    assert_eq!(nodes, set_of([9u64]));
    let mut g = Fold::default();
    log.replay_range_into(1, &mut g);
    assert!(g.observe().many.is_empty());
}

#[test]
fn a_tail_fits_a_fold_of_the_same_kinds() {
    let mut log = Changelog::new(64);
    log.append(0, add(1, 100, 2)).unwrap();
    log.append(
        0,
        WriteKind::SetOne {
            subject: 1,
            predicate: 100,
            object: ObjKey::Node(9),
            valid_from: 0,
            valid_to: None,
        },
    )
    .unwrap();
    // each alone is taken, not one after the other
    assert!(!log.fits_from(0, &Fold::default()));
    assert!(log.fits_from(1, &Fold::default()));
    assert!(log.fits_from(2, &Fold::default()));
}

#[test]
fn no_part_of_a_snapshot_and_nothing_longer_is_one() {
    let mut log = Changelog::new(16);
    log.append(0, add(1, 100, 2)).unwrap();
    let mut f = Fold::default();
    log.replay_into(&mut f);
    let bytes = encode_snapshot(&f, 1);
    for n in 0..bytes.len() {
        assert!(decode_snapshot(&bytes[..n]).is_none(), "{n}");
    }
    let mut long = bytes.clone();
    long.push(0);
    assert!(decode_snapshot(&long).is_none());
    let mut body = Vec::new();
    f.encode_into(&mut body);
    for n in 0..body.len() {
        assert!(Fold::decode(&body[..n]).is_none(), "{n}");
    }
    assert!(Fold::decode(&body).is_some());
    body.push(0);
    assert!(Fold::decode(&body).is_none());
    // after what the buffer held
    let mut empty = vec![7u8];
    Fold::default().encode_into(&mut empty);
    assert_eq!(empty[0], 7);
    assert_eq!(empty[1..], [0u8; 12]);
}
