//! The engine: writes, reads over the unmaterialized tail, recovery.
use stromadb::changelog::WriteKind;
use stromadb::engine::Engine;
use stromadb::fact::FieldId;
use stromadb::fold::ObjKey;
use stromadb::order::Key;
use stromadb::ordmap::OrdSet;
use stromadb::query;

fn set_of<K: Key, const N: usize>(items: [K; N]) -> OrdSet<K> {
    let mut s = OrdSet::new();
    for i in items {
        s.insert(i);
    }
    s
}

fn add(s: u64, p: FieldId, o: u64) -> WriteKind {
    WriteKind::AddMany {
        subject: s,
        predicate: p,
        object: ObjKey::Node(o),
        valid_from: 0,
        valid_to: None,
    }
}

#[test]
fn read_merge_reflects_unmaterialized_tail() {
    let mut e = Engine::new(64);
    e.write(0, add(1, 100, 20)).unwrap();
    e.write(0, add(1, 100, 21)).unwrap();
    // not materialized yet — read-merge still sees them
    assert_eq!(e.unmerged(), 2);
    assert_eq!(
        query::point_many(&e.snapshot(), 1, 100),
        set_of([ObjKey::Node(20), ObjKey::Node(21)])
    );
    // materialize: same observation, tail drained
    e.materialize();
    assert_eq!(e.unmerged(), 0);
    assert_eq!(
        query::point_many(&e.snapshot(), 1, 100),
        set_of([ObjKey::Node(20), ObjKey::Node(21)])
    );
}

#[test]
fn backpressure_at_n_max_relieved_by_materialize() {
    let mut e = Engine::new(2);
    assert!(e.write(0, add(1, 100, 1)).is_ok());
    assert!(e.write(0, add(1, 100, 2)).is_ok());
    assert!(e.write(0, add(1, 100, 3)).is_err()); // backlog full
    e.materialize();
    assert!(e.write(0, add(1, 100, 3)).is_ok()); // relieved
    assert_eq!(query::point_many(&e.snapshot(), 1, 100).len(), 3);
}

#[test]
fn materialized_and_merged_reads_agree() {
    let mut e = Engine::new(64);
    e.write(
        0,
        WriteKind::SetOne {
            subject: 1,
            predicate: 0,
            object: ObjKey::Node(10),
            valid_from: 0,
            valid_to: None,
        },
    )
    .unwrap();
    let merged = e.snapshot();
    e.materialize();
    assert_eq!(merged, e.snapshot());
    assert_eq!(
        query::point_one(&e.snapshot(), 1, 0),
        Some(ObjKey::Node(10))
    );
}

#[test]
fn write_batch_is_atomic_wrt_backpressure() {
    let mut e = Engine::new(2);
    // a chunk larger than the backlog bound is rejected whole
    assert!(
        e.write_batch(vec![
            (0, add(1, 100, 1)),
            (0, add(1, 100, 2)),
            (0, add(1, 100, 3))
        ])
        .is_err()
    );
    // a fitting chunk lands and returns seqnos
    let seqnos = e
        .write_batch(vec![(0, add(1, 100, 1)), (0, add(1, 100, 2))])
        .unwrap();
    assert_eq!(seqnos, vec![0, 1]);
    assert_eq!(query::point_many(&e.snapshot(), 1, 100).len(), 2);
}

#[test]
fn snapshot_arc_matches_full_snapshot_after_materialize() {
    let mut e = Engine::new(1024);
    // mixed workload incl. supersession and removal so incremental observe hits every path
    e.write(0, add(1, 100, 20)).unwrap();
    e.write(0, add(1, 100, 21)).unwrap();
    e.materialize();
    let held = e.snapshot_arc(); // reader pins a view
    e.write(
        0,
        WriteKind::SetOne {
            subject: 2,
            predicate: 0,
            object: ObjKey::Node(9),
            valid_from: 0,
            valid_to: None,
        },
    )
    .unwrap();
    e.retract_edge(0, 1, 100, ObjKey::Node(20)).unwrap();
    e.write(
        0,
        WriteKind::SetOne {
            subject: 2,
            predicate: 0,
            object: ObjKey::Node(10), // supersedes 9
            valid_from: 1,
            valid_to: None,
        },
    )
    .unwrap();
    e.materialize();
    // incremental refresh ≡ full observe
    assert_eq!(*e.snapshot_arc(), e.snapshot());
    // pinned reader view unchanged (copy-on-write)
    assert_eq!(
        query::point_many(&held, 1, 100),
        set_of([ObjKey::Node(20), ObjKey::Node(21)])
    );
    assert!(query::point_one(&held, 2, 0).is_none());
}

#[test]
fn durable_engine_recovers_state_cold() {
    let mut disk: Vec<u8> = Vec::new();
    let expected = {
        let mut e = Engine::open(&disk, None, 1024);
        e.write_batch(vec![(0, add(1, 100, 20)), (0, add(1, 100, 21))])
            .unwrap();
        e.write(
            0,
            WriteKind::SetOne {
                subject: 1,
                predicate: 0,
                object: ObjKey::Node(9),
                valid_from: 0,
                valid_to: None,
            },
        )
        .unwrap();
        disk.extend(e.sync().unwrap());
        e.synced();
        assert_eq!(e.durable_head(), 3);
        e.snapshot()
    };
    // cold restart: rebuild from the WAL, state must match
    let e2 = Engine::open(&disk, None, 1024);
    assert_eq!(e2.unmerged(), 0);
    assert_eq!(e2.snapshot(), expected);
    assert_eq!(
        query::point_many(&e2.snapshot(), 1, 100),
        set_of([ObjKey::Node(20), ObjKey::Node(21)])
    );
}

#[test]
fn retract_edge_resolves_or_set_tags() {
    let mut e = Engine::new(64);
    e.write(0, add(1, 100, 20)).unwrap();
    e.write(0, add(1, 100, 21)).unwrap();
    // ETL says "remove edge (1, 100, 20)"; the DB resolves the tag(s) and removes it.
    assert!(
        e.retract_edge(0, 1, 100, ObjKey::Node(20))
            .unwrap()
            .is_some()
    );
    assert_eq!(
        query::point_many(&e.snapshot(), 1, 100),
        set_of([ObjKey::Node(21)])
    );
    // retracting an absent edge is a no-op (no observed tags)
    assert!(
        e.retract_edge(0, 1, 100, ObjKey::Node(99))
            .unwrap()
            .is_none()
    );
}

#[test]
fn a_view_that_is_held_does_not_change() {
    let mut e = Engine::new(64);
    e.write(0, add(1, 100, 20)).unwrap();
    e.materialize();
    let held = e.snapshot_arc();
    let same = e.snapshot_arc();
    assert_eq!(*held, *same);
    e.write(0, add(1, 100, 21)).unwrap();
    let keys = e.materialize_tracked();
    assert_eq!(keys, set_of([(1u64, 100u32)]));
    assert_eq!(query::point_many(&held, 1, 100).len(), 1);
    assert_eq!(query::point_many(&e.snapshot_arc(), 1, 100).len(), 2);
}

#[test]
fn node_writes_are_materialized_too() {
    let mut e = Engine::new(64);
    e.write(0, WriteKind::SetNodeType { node: 7, type_id: 3 }).unwrap();
    e.write(0, WriteKind::SetNodeLabel { node: 7, label: 2 }).unwrap();
    let (keys, nodes) = e.materialize_tracked_with_nodes();
    assert!(keys.is_empty());
    assert_eq!(nodes, set_of([7u64]));
    assert_eq!(e.snapshot_arc().node_types.get(&7), Some(&3));
    assert_eq!(e.snapshot_arc().node_labels.get(&7), Some(&2));
}

#[test]
fn an_in_memory_engine_has_nothing_to_sync() {
    let mut e = Engine::new(4);
    e.write(0, add(1, 100, 20)).unwrap();
    assert_eq!(e.sync(), None);
    assert_eq!(e.durable_head(), 0);
}

#[test]
fn a_key_of_one_kind_does_not_take_the_other() {
    let set = WriteKind::SetOne {
        subject: 1,
        predicate: 100,
        object: ObjKey::Int(4),
        valid_from: 0,
        valid_to: None,
    };
    let mut e = Engine::new(64);
    e.write(0, add(1, 100, 20)).unwrap();
    assert!(e.fits());
    e.materialize();
    e.write(0, set).unwrap();
    assert!(!e.fits());
}
