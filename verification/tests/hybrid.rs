//! Type-aware search over exact distances.
use stromadb::catalog::{Cardinality, Catalog, Range, RelProps};
use stromadb::fact::NodeId;
use stromadb::hybrid::{plain_ann, search, type_aware};
use stromadb::vector::VectorIndex;
use stromadb::version::{ReadMode, VersionVector};

fn emb(v: f32) -> Vec<u32> {
    [v, 0.0, 0.0, 0.0].iter().map(|x: &f32| x.to_bits()).collect()
}

fn sqdist(a: &[f32], b: &[f32]) -> f32 {
    a.iter().zip(b).map(|(x, y)| (x - y) * (x - y)).sum()
}

fn to(q: &[f32]) -> impl Fn(&Vec<u32>) -> u32 + '_ {
    move |e: &Vec<u32>| {
        let e: Vec<f32> = e.iter().map(|x| f32::from_bits(*x)).collect();
        sqdist(q, &e).to_bits()
    }
}

/// Constructed bench (the CAP-3 failure mode): wrong-type distractors sit closer to the query
/// than the relevant type-T nodes. Plain ANN is fooled; type-aware is not.
#[test]
fn type_aware_beats_plain_ann() {
    let mut c = Catalog::new();
    let person = c.register_type("Person");
    let doc = c.register_type("Document");
    let skill = c.register_type("Skill");
    c.register_predicate(
        "has-skill",
        Cardinality::Many,
        RelProps::default(),
        person,
        Range::Type(skill),
    );

    let mut idx = VectorIndex::new(4);
    let q = [0.0f32; 4];
    for i in 1..=7u64 {
        idx.insert(i, i, emb(0.05 * i as f32)); // distractors closest
        c.set_node_type(i, doc);
    }
    for (j, id) in [11u64, 12, 13].into_iter().enumerate() {
        idx.insert(id, id, emb(0.50 + 0.01 * j as f32)); // relevant
        c.set_node_type(id, person);
    }
    idx.insert(21, 21, emb(2.0)); // far Person (not relevant)
    c.set_node_type(21, person);
    idx.insert(22, 22, emb(2.1));
    c.set_node_type(22, person);

    let k = 5;
    let relevant: std::collections::BTreeSet<NodeId> = [11, 12, 13].into_iter().collect();
    let plain = plain_ann(&idx, to(&q), k);
    let hybrid = type_aware(&idx, &c, to(&q), person, k);
    let recall = |r: &[NodeId]| {
        r.iter().filter(|n| relevant.contains(n)).count() as f64 / relevant.len() as f64
    };
    let type_viol = |r: &[NodeId]| {
        r.iter()
            .filter(|n| c.node_type(**n) != Some(person))
            .count()
    };

    assert_eq!(recall(&plain), 0.0);
    assert_eq!(type_viol(&plain), 5);
    assert_eq!(recall(&hybrid), 1.0);
    assert_eq!(type_viol(&hybrid), 0);
    assert!(recall(&hybrid) > recall(&plain));
}

/// fresh closes the split-brain that strict (indexed-prefix only) leaves open: a freshly-added,
/// not-yet-indexed type-T node closest to the query is found only by fresh.
#[test]
fn fresh_closes_split_brain() {
    let mut c = Catalog::new();
    let person = c.register_type("Person");
    let mut idx = VectorIndex::new(4);
    let q = [0.0f32; 4];

    // indexed prefix (seqno < watermark=5): two Person at moderate distance
    idx.insert(1, 1, emb(1.0));
    idx.insert(2, 2, emb(1.1));
    c.set_node_type(1, person);
    c.set_node_type(2, person);
    // un-indexed tail (seqno >= 5): a Person closest to q
    idx.insert(6, 6, emb(0.1));
    c.set_node_type(6, person);
    idx.advance_watermark(5);

    let vv = VersionVector::new(10, 5);
    assert_eq!(vv.skew(), 5);

    let strict: std::collections::BTreeSet<NodeId> =
        search(&idx, &c, to(&q), person, 3, &vv, ReadMode::Strict)
            .into_iter()
            .collect();
    let fresh: std::collections::BTreeSet<NodeId> =
        search(&idx, &c, to(&q), person, 3, &vv, ReadMode::Fresh)
            .into_iter()
            .collect();

    assert_eq!(strict, [1, 2].into_iter().collect()); // tail node 6 missed
    assert!(fresh.contains(&6)); // brute-force tail found it
    assert!(strict.is_subset(&fresh)); // fresh never loses a strict result
}

#[test]
fn a_strict_hit_is_displaced_only_by_nearer_ones() {
    let mut c = Catalog::new();
    let person = c.register_type("Person");
    let mut idx = VectorIndex::new(4);
    let q = [0.0f32; 4];
    for (n, v) in [(1u64, 1.0f32), (2, 2.0), (6, 0.5), (7, 1.5)] {
        idx.insert(n, n, emb(v));
        c.set_node_type(n, person);
    }
    idx.advance_watermark(5);
    let vv = VersionVector::new(10, 5);
    let strict = search(&idx, &c, to(&q), person, 2, &vv, ReadMode::Strict);
    let fresh = search(&idx, &c, to(&q), person, 2, &vv, ReadMode::Fresh);
    assert_eq!(strict, vec![1, 2]);
    // 2 gives way to two that are nearer
    assert_eq!(fresh, vec![6, 1]);
}
