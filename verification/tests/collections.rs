//! The ordered map and set, the hasher, the vector index and the label filter.
use std::hash::Hasher;
use stromadb::access::{nodes_of_type, visible, visible_of_type};
use stromadb::fold::{fold, Op, OrderKey};
use stromadb::hash::FxHasher;
use stromadb::ordmap::{OrdMap, OrdSet};
use stromadb::vector::VectorIndex;

#[test]
fn a_map_keeps_its_keys_in_order() {
    let mut m: OrdMap<String, u64> = OrdMap::new();
    assert!(m.is_empty());
    for (i, k) in ["pear", "apple", "fig", "apple"].iter().enumerate() {
        m.insert(k.to_string(), i as u64);
    }
    assert_eq!(m.len(), 3);
    assert_eq!((m.key_at(0).as_str(), *m.value_at(0)), ("apple", 3));
    assert_eq!(m.key_at(2), "pear");
    assert_eq!(m.get(&"fig".to_string()), Some(&2));
    assert!(!m.contains_key(&"kiwi".to_string()));
    let copy = m.clone();
    m.remove(&"fig".to_string());
    assert_eq!(m.len(), 2);
    assert_ne!(m, copy);
    assert_eq!(OrdMap::<u64, u64>::default(), OrdMap::new());
}

#[test]
fn a_set_keeps_each_item_once() {
    let mut s: OrdSet<(u64, u32)> = OrdSet::new();
    for x in [(2, 1), (1, 9), (2, 0), (1, 9)] {
        s.insert(x);
    }
    assert_eq!(s.to_vec(), vec![(1, 9), (2, 0), (2, 1)]);
    assert_eq!((s.len(), *s.at(1)), (3, (2, 0)));
    s.remove(&(2, 0));
    assert!(!s.contains(&(2, 0)));
    assert_eq!(s.len(), 2);
}

#[test]
fn the_hash_rotates_and_multiplies() {
    let mut h = FxHasher::default();
    h.write_u64(7);
    let one = 7u64.wrapping_mul(0x517c_c1b7_2722_0a95);
    assert_eq!(h.finish(), one);
    h.write_u32(9);
    assert_eq!(
        h.finish(),
        (one.rotate_left(5) ^ 9).wrapping_mul(0x517c_c1b7_2722_0a95)
    );
    let mut a = FxHasher::default();
    a.write(&[7, 9]);
    assert_eq!(a.finish(), h.finish());
}

fn dist(e: &Vec<u32>) -> u32 {
    e[0]
}

#[test]
fn the_nearest_come_first_and_ties_go_by_id() {
    let mut v = VectorIndex::new(1);
    assert_eq!((v.dim(), v.version(), v.watermark(), v.is_empty()), (1, 0, 0, true));
    for (n, s, e) in [(5, 0, 20u32), (3, 1, 10), (4, 2, 10), (9, 3, 5)] {
        v.insert(n, s, vec![e]);
    }
    assert_eq!(v.len(), 4);
    assert_eq!(v.nearest(dist, 3), vec![(9, 5), (3, 10), (4, 10)]);
    assert_eq!(v.nearest_filtered(dist, 3, |n| n != 9), vec![(3, 10), (4, 10), (5, 20)]);
    assert_eq!(v.nearest_scoped(dist, 9, Some(2), |_| true), vec![(3, 10), (5, 20)]);
    v.insert(3, 7, vec![99]);
    assert_eq!(v.get(3), Some(&vec![99]));
    assert_eq!(v.get(1), None);
    v.advance_watermark(4);
    v.advance_watermark(2);
    assert_eq!(v.watermark(), 4);
}

#[test]
fn labels_hide_nodes() {
    let ok = |seq| OrderKey { tx: seq, source: 0, seq };
    let s = fold(&[
        Op::SetNodeType { node: 1, type_id: 7, ok: ok(0) },
        Op::SetNodeType { node: 2, type_id: 7, ok: ok(1) },
        Op::SetNodeType { node: 3, type_id: 8, ok: ok(2) },
        Op::SetNodeLabel { node: 2, label: 31, ok: ok(3) },
    ])
    .observe();
    assert_eq!(nodes_of_type(&s, 7).to_vec(), vec![1, 2]);
    assert!(visible(&s, 1, 0));
    assert!(!visible(&s, 2, 1));
    assert!(visible(&s, 2, 1 << 31));
    assert_eq!(visible_of_type(&s, 7, 1).to_vec(), vec![1]);
}
