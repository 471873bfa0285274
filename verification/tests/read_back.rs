//! What the reads give back of the writes.
use stromadb::catalog::Cardinality;
use stromadb::changelog::{Changelog, WriteKind};
use stromadb::engine::Engine;
use stromadb::fact::FieldId;
use stromadb::fold::{fold, Fold, ObjKey, Op, OrderKey, Snapshot};
use stromadb::ivf::IvfPq;
use stromadb::query::{
    describe, edge_prop, edge_strengths, expand_set, neighbors, point_many, point_many_asof,
    point_one, point_one_asof, point_one_head, undirected_adjacency,
};

fn ok(seq: u64) -> OrderKey {
    OrderKey { tx: seq, source: 0, seq }
}

fn add(s: u64, p: FieldId, o: u64, from: i64, seq: u64) -> Op {
    Op::AddMany {
        subject: s,
        predicate: p,
        object: ObjKey::Node(o),
        valid_from: from,
        valid_to: None,
        ok: ok(seq),
    }
}

fn set(s: u64, p: FieldId, o: u64, from: i64, seq: u64) -> Op {
    Op::SetOne {
        subject: s,
        predicate: p,
        object: ObjKey::Node(o),
        valid_from: from,
        valid_to: None,
        ok: ok(seq),
    }
}

#[test]
fn a_correction_of_the_past_takes_effect_where_nothing_starts_later() {
    let before = fold(&[set(1, 5, 100, 100, 0), set(1, 5, 200, 200, 1)]).observe();
    let after = fold(&[set(1, 5, 100, 100, 0), set(1, 5, 200, 200, 1), set(1, 5, 150, 150, 2)]).observe();
    for at in [50, 100, 149, 200, 300] {
        assert_eq!(point_one_asof(&after, 1, 5, at), point_one_asof(&before, 1, 5, at));
    }
    assert_eq!(point_one_asof(&after, 1, 5, 150), Some(ObjKey::Node(150)));
    assert_eq!(point_one_asof(&after, 1, 5, 199), Some(ObjKey::Node(150)));
    assert_eq!(point_one(&after, 1, 5), Some(ObjKey::Node(150)));
    assert_eq!(point_one_head(&after, 1, 5).unwrap().0, ok(2));
}

#[test]
fn an_element_is_out_between_its_close_and_its_return() {
    let close = Op::CloseMany {
        subject: 1,
        predicate: 5,
        object: ObjKey::Node(7),
        valid_from: 20,
        ok: ok(1),
    };
    let s = fold(&[add(1, 5, 7, 10, 0), close, add(1, 5, 7, 30, 2)]).observe();
    let at = |t: i64| point_many_asof(&s, 1, 5, t).contains(&ObjKey::Node(7));
    assert_eq!([9, 10, 19, 20, 29, 30].map(at), [false, true, true, false, false, true]);
    assert_eq!(point_many(&s, 1, 5).len(), 1);
}

#[test]
fn a_hard_delete_leaves_nothing_of_its_key_alone() {
    let gone = Op::HardDelete {
        subject: 1,
        predicate: 5,
        ok: ok(2),
        cardinality: Cardinality::Many,
    };
    let s = fold(&[add(1, 5, 7, 0, 0), add(1, 6, 8, 0, 1), gone]).observe();
    assert!(!s.many.contains_key(&(1, 5)));
    assert!(!s.many_history.contains_key(&(1, 5)));
    assert!(point_many(&s, 1, 6).contains(&ObjKey::Node(8)));
}

#[test]
fn settings_read_back() {
    let prop = |v: i64, seq: u64| Op::SetEdgeProp {
        subject: 1,
        predicate: 5,
        object: ObjKey::Node(7),
        key: "weight".to_string(),
        value: ObjKey::Int(v),
        ok: ok(seq),
    };
    let f = fold(&[
        prop(3, 0),
        prop(4, 1),
        Op::SetNodeType { node: 1, type_id: 9, ok: ok(2) },
        Op::SetNodeLabel { node: 1, label: 2, ok: ok(3) },
    ]);
    let s = f.observe();
    assert_eq!(edge_prop(&s, 1, 5, &ObjKey::Node(7), "weight"), Some(ObjKey::Int(4)));
    assert_eq!(s.node_types.get(&1), Some(&9));
    assert_eq!(s.node_labels.get(&1), Some(&2));
    // observed piece by piece, the same
    let mut t = Snapshot::default();
    f.observe_key_into(&(1, 5), &mut t);
    assert!(t.node_types.is_empty());
    f.observe_node_into(1, &mut t);
    assert_eq!(t, s);
}

#[test]
fn links_have_no_direction_and_count_their_predicates() {
    // 1 knows 2 (3), 2 reports to 1 (4), 2 knows 3 (3)
    let s = fold(&[add(1, 3, 2, 0, 0), set(2, 4, 1, 0, 1), add(2, 3, 3, 0, 2)]).observe();
    let adj = undirected_adjacency(&s, None);
    assert_eq!(adj.get(&2).unwrap().to_vec(), vec![1, 3]);
    assert_eq!(adj.get(&3).unwrap().to_vec(), vec![2]);
    assert!(!adj.contains_key(&4));
    assert_eq!(undirected_adjacency(&s, Some(4)).len(), 2);
    let w = edge_strengths(&s, None);
    assert_eq!((w.len(), w.get(&(1, 2)), w.get(&(2, 3))), (2, Some(&2), Some(&1)));
    let w = edge_strengths(&s, Some(3));
    assert_eq!((w.get(&(1, 2)), w.get(&(2, 3))), (Some(&1), Some(&1)));
    assert_eq!(neighbors(&s, 2).to_vec(), vec![1, 3]);
    let (ones, manys) = describe(&s, 2);
    assert_eq!(ones, vec![(4, ObjKey::Node(1))]);
    assert_eq!(manys, vec![(3, vec![ObjKey::Node(3)])]);
    assert_eq!(expand_set(&s, &neighbors(&s, 3), 3).len(), 0);
    assert_eq!(expand_set(&s, &neighbors(&s, 2), 3).to_vec(), vec![2]);
}

#[test]
fn a_replay_gives_the_state_of_the_engine() {
    let w = |o: u64| WriteKind::AddMany {
        subject: 1,
        predicate: 5,
        object: ObjKey::Node(o),
        valid_from: 0,
        valid_to: None,
    };
    let mut log = Changelog::new(8);
    let mut e = Engine::new(8);
    for o in [3, 4] {
        log.append(0, w(o)).unwrap();
        e.write(0, w(o)).unwrap();
    }
    let mut f = Fold::default();
    log.replay_into(&mut f);
    assert_eq!(f.observe(), e.snapshot());
}

#[test]
fn a_vector_goes_to_its_nearest_centroid() {
    let dist = |a: &Vec<u32>, b: &Vec<u32>| a[0].abs_diff(b[0]);
    let mut x = IvfPq::new(1, 3, 1);
    x.train(vec![vec![10], vec![20], vec![20]], vec![], 2, dist);
    assert_eq!(x.assign(&vec![17], &dist), (1, 3));
    assert_eq!(x.assign(&vec![12], &dist), (0, 2));
}

#[test]
fn asserting_again_changes_nothing() {
    let before = fold(&[add(1, 5, 7, 10, 0), add(1, 5, 8, 0, 1)]);
    assert!(before.many_live_asserted(1, 5, &ObjKey::Node(7), 0, 10, None));
    let mut after = before.clone();
    after.apply(&add(1, 5, 7, 10, 2));
    let (b, a) = (before.observe(), after.observe());
    assert_eq!(point_many(&b, 1, 5), point_many(&a, 1, 5));
    for at in [0, 9, 10, 11] {
        assert_eq!(point_many_asof(&b, 1, 5, at), point_many_asof(&a, 1, 5, at));
    }
}

#[test]
fn more_probes_keep_what_fewer_find() {
    let dist = |a: &Vec<u32>, b: &Vec<u32>| a[0].abs_diff(b[0]);
    let mut x = IvfPq::new(1, 3, 1);
    x.train(vec![vec![10], vec![20], vec![30]], vec![], 2, dist);
    for (n, e) in [(1u64, 11u32), (2, 19), (3, 31)] {
        x.add(n, 0, vec![e], 0, dist, |_: usize, c: usize| c as u32);
    }
    let hits = |nprobe: usize| -> Vec<u64> {
        x.search(
            |e: &Vec<u32>| e[0].abs_diff(12),
            |_: &Vec<u8>| 0,
            9,
            nprobe,
            None,
            |_: u32| true,
            |_: u64| true,
        )
        .into_iter()
        .map(|h| h.0)
        .collect()
    };
    assert_eq!(hits(1), vec![1]);
    assert_eq!(hits(2), vec![1, 2]);
    assert_eq!(hits(3), vec![1, 2, 3]);
}
