//! Registered queries and the diffs that they push.
use stromadb::changelog::WriteKind;
use stromadb::engine::Engine;
use stromadb::fact::NodeId;
use stromadb::fold::{ObjKey, OrderKey, Snapshot};
use stromadb::live::{AtCapacity, Diff, LiveQueries};
use stromadb::order::Key;
use stromadb::ordmap::OrdSet;
use stromadb::query;

fn set_of<K: Key, const N: usize>(items: [K; N]) -> OrdSet<K> {
    let mut s = OrdSet::new();
    for i in items {
        s.insert(i);
    }
    s
}

fn expand_of(subject: NodeId) -> Box<dyn Fn(&Snapshot) -> OrdSet<NodeId>> {
    Box::new(move |s: &Snapshot| query::expand(s, subject, 100))
}

fn add(s: u64, p: u32, o: u64) -> WriteKind {
    WriteKind::AddMany {
        subject: s,
        predicate: p,
        object: ObjKey::Node(o),
        valid_from: 0,
        valid_to: None,
    }
}

#[test]
fn pushes_added_and_removed_diffs() {
    let mut e = Engine::new(1024);
    e.write(0, add(1, 100, 20)).unwrap();
    let mut live = LiveQueries::new(8);
    // live query: 1-hop expand of subject 1 over predicate 100
    let (_id, initial) = live
        .register(&e.snapshot(), expand_of(1))
        .unwrap();
    assert_eq!(initial.added, set_of([20]));

    // add an edge → diff has it added
    e.write(0, add(1, 100, 21)).unwrap();
    let diffs = live.on_change(&e.snapshot());
    assert_eq!(diffs.len(), 1);
    assert_eq!(diffs[0].1.added, set_of([21]));
    assert!(diffs[0].1.removed.is_empty());

    // no change → no diff pushed
    assert!(live.on_change(&e.snapshot()).is_empty());

    // remove (observed-remove the tag for object 20) → diff has it removed
    // tag for (1,100,20) was the first write, seqno 0.
    e.write(
        0,
        WriteKind::RemoveMany {
            subject: 1,
            predicate: 100,
            observed: vec![OrderKey {
                tx: 0,
                source: 0,
                seq: 0,
            }],
        },
    )
    .unwrap();
    let diffs = live.on_change(&e.snapshot());
    assert_eq!(diffs[0].1.removed, set_of([20]));
}

#[test]
fn capacity_is_bounded() {
    let e = Engine::new(16);
    let mut live = LiveQueries::new(1);
    assert!(
        live.register(&e.snapshot(), expand_of(1))
            .is_ok()
    );
    assert_eq!(
        live.register(&e.snapshot(), expand_of(2))
            .err(),
        Some(AtCapacity)
    );
}

#[test]
fn a_diff_leads_from_one_set_to_the_next() {
    let old = set_of([1u64, 2, 3]);
    let new = set_of([2u64, 4]);
    let d = Diff::between(&old, &new);
    assert_eq!(d.added, set_of([4]));
    assert_eq!(d.removed, set_of([1, 3]));
    assert!(!d.is_empty());
    assert!(Diff::between(&new, &new).is_empty());
    assert!(Diff::default().is_empty());
}

#[test]
fn a_query_that_is_deregistered_pushes_nothing() {
    let mut e = Engine::new(16);
    let mut live = LiveQueries::new(2);
    let (a, _) = live.register(&e.snapshot(), expand_of(1)).unwrap();
    let (b, _) = live.register(&e.snapshot(), expand_of(2)).unwrap();
    assert_ne!(a, b);
    assert_eq!((live.len(), live.is_empty()), (2, false));
    live.deregister(a);
    assert_eq!(live.len(), 1);
    e.write(0, add(1, 100, 20)).unwrap();
    e.write(0, add(2, 100, 21)).unwrap();
    let diffs = live.on_change(&e.snapshot());
    assert_eq!(diffs.len(), 1);
    assert_eq!(diffs[0].0, b);
}

#[test]
fn deregistering_takes_out_one_query_or_none() {
    let e = Engine::new(16);
    let mut live = LiveQueries::new(3);
    let (a, _) = live.register(&e.snapshot(), expand_of(1)).unwrap();
    let (b, _) = live.register(&e.snapshot(), expand_of(1)).unwrap();
    live.deregister(b);
    live.deregister(b);
    assert_eq!(live.len(), 1);
    // an id is not given out again
    let (c, _) = live.register(&e.snapshot(), expand_of(1)).unwrap();
    assert!(c != a && c != b);
}
