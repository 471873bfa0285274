//! Composed reads over exact and quantized search.
use stromadb::catalog::{Cardinality, Catalog, Range, RelProps};
use stromadb::fold::{fold, ObjKey, Op, OrderKey, Snapshot};
use stromadb::ir::{
    run, run_from, Kernels, Pipeline, Principal, Source, Transform, Traverser,
};
use stromadb::ivf::IvfPq;
use stromadb::vector::VectorIndex;
use stromadb::version::{ReadMode, VersionVector};

fn bits(v: &[f32]) -> Vec<u32> {
    v.iter().map(|x| x.to_bits()).collect()
}

fn sqdist_bits(a: &[u32], b: &[u32]) -> u32 {
    let d: f32 = a
        .iter()
        .zip(b)
        .map(|(x, y)| {
            let d = f32::from_bits(*x) - f32::from_bits(*y);
            d * d
        })
        .sum();
    d.to_bits()
}

fn relevance(d: u32) -> u32 {
    (1.0 / (1.0 + f32::from_bits(d))).to_bits()
}

fn kernels() -> Kernels<
    impl Fn(&Vec<u32>, &Vec<u32>) -> u32,
    impl Fn(&Vec<u32>, &Vec<u8>) -> u32,
    impl Fn(u32) -> u32,
> {
    Kernels {
        dist: |a: &Vec<u32>, b: &Vec<u32>| sqdist_bits(a, b),
        // every code scores alike: the re-ranking decides
        score: |_: &Vec<u32>, _: &Vec<u8>| 0,
        relevance,
    }
}

fn ok(seq: u64) -> OrderKey {
    OrderKey {
        tx: seq,
        source: 0,
        seq,
    }
}

// Person(1) worked-on Project(10,11); has-skill Skill(20). Person(2) worked-on Project(10).
fn setup() -> (Snapshot, Catalog, VectorIndex) {
    let mut c = Catalog::new();
    let person = c.register_type("Person");
    let project = c.register_type("Project");
    let skill = c.register_type("Skill");
    c.register_predicate(
        "worked-on",
        Cardinality::Many,
        RelProps::default(),
        person,
        Range::Type(project),
    );
    c.register_predicate(
        "has-skill",
        Cardinality::Many,
        RelProps::default(),
        person,
        Range::Type(skill),
    );
    for n in [1u64, 2] {
        c.set_node_type(n, person);
    }
    c.set_node_type(10, project);
    c.set_node_type(11, project);
    c.set_node_type(20, skill);

    let wo = c.field_id("worked-on").unwrap();
    let snap = fold(&[
        Op::AddMany {
            subject: 1,
            predicate: wo,
            object: ObjKey::Node(10),
            valid_from: 0,
            valid_to: None,
            ok: ok(0),
        },
        Op::AddMany {
            subject: 1,
            predicate: wo,
            object: ObjKey::Node(11),
            valid_from: 0,
            valid_to: None,
            ok: ok(1),
        },
        Op::AddMany {
            subject: 2,
            predicate: wo,
            object: ObjKey::Node(10),
            valid_from: 0,
            valid_to: None,
            ok: ok(2),
        },
    ])
    .observe();

    let mut vec = VectorIndex::new(2);
    vec.insert(1, 0, bits(&[0.0, 0.0])); // person 1 near origin
    vec.insert(2, 1, bits(&[0.9, 0.0])); // person 2 farther
    vec.insert(20, 2, bits(&[0.05, 0.0])); // a Skill near origin (wrong type for a Person query)
    (snap, c, vec)
}

fn everyone() -> Principal {
    Principal {
        allowed_labels: u32::MAX,
    }
}

#[test]
fn type_ann_then_expand_pipeline() {
    let (snap, c, vec) = setup();
    let person = c.field_id("Person").unwrap();
    let wo = c.field_id("worked-on").unwrap();
    // find Persons near origin, then expand to their projects
    let pl = Pipeline {
        source: Source::TypeAnn {
            q: bits(&[0.0, 0.0]),
            target_type: person,
            k: 5,
        },
        transforms: vec![Transform::Expand { predicate: wo }],
        max_nodes: 100,
        mode: ReadMode::Fresh,
    };
    let t = run(&snap, &c, &vec, &kernels(), &pl, &everyone(), VersionVector::new(3, 3));
    // Skill(20) is nearer than Person(2) but wrong type → not a source hit; projects {10,11}.
    assert_eq!(
        t.ids
            .iter()
            .copied()
            .collect::<std::collections::BTreeSet<_>>(),
        [10, 11].into_iter().collect()
    );
    assert_eq!(t.as_of, VersionVector::new(3, 3));
}

#[test]
fn authz_scopes_the_source() {
    let (snap, mut c, vec) = setup();
    c.set_node_label(2, 3); // person 2 is sensitive (label 3)
    let person = c.field_id("Person").unwrap();
    let pl = Pipeline {
        source: Source::TypeAnn {
            q: bits(&[0.9, 0.0]),
            target_type: person,
            k: 5,
        },
        transforms: vec![],
        max_nodes: 100,
        mode: ReadMode::Fresh,
    };
    // a principal WITHOUT label 3 never sees person 2 (scoped out at the source)
    let p_no = Principal {
        allowed_labels: 0b1,
    }; // only public (label 0)
    let t = run(&snap, &c, &vec, &kernels(), &pl, &p_no, VersionVector::new(3, 3));
    assert!(!t.ids.contains(&2));
    // a principal WITH label 3 sees it
    let p_yes = Principal {
        allowed_labels: 0b1 | (1 << 3),
    };
    let t2 = run(&snap, &c, &vec, &kernels(), &pl, &p_yes, VersionVector::new(3, 3));
    assert!(t2.ids.contains(&2));
}

// Build an IvfPq backend over the same vectors as `setup`'s VectorIndex. Two cells; a code names the
// vector.
fn ivf_backend() -> IvfPq {
    let vecs = vec![
        (1u64, 0u64, vec![0.0f32, 0.0]),
        (2, 1, vec![0.9, 0.0]),
        (20, 2, vec![0.05, 0.0]),
    ];
    let mut idx = IvfPq::new(2, 2, 2);
    idx.train(
        vec![bits(&[0.0, 0.0]), bits(&[0.9, 0.0])],
        vec![],
        3,
        |a: &Vec<u32>, b: &Vec<u32>| sqdist_bits(a, b),
    );
    for (i, (n, s, v)) in vecs.iter().enumerate() {
        idx.add(
            *n,
            *s,
            bits(v),
            0,
            |a: &Vec<u32>, b: &Vec<u32>| sqdist_bits(a, b),
            |_: usize, c: usize| if c == i { 0 } else { 1 },
        );
    }
    idx
}

#[test]
fn ivfpq_backend_matches_exact_through_ir() {
    let (snap, c, vec) = setup();
    let ivf = ivf_backend();
    let person = c.field_id("Person").unwrap();
    let wo = c.field_id("worked-on").unwrap();
    let pl = Pipeline {
        source: Source::TypeAnn {
            q: bits(&[0.0, 0.0]),
            target_type: person,
            k: 5,
        },
        transforms: vec![Transform::Expand { predicate: wo }],
        max_nodes: 100,
        mode: ReadMode::Fresh,
    };
    // exact oracle vs IVF-PQ+rerank must agree on the id set through the whole pipeline
    let exact = run(&snap, &c, &vec, &kernels(), &pl, &everyone(), VersionVector::new(3, 3));
    let real = run(&snap, &c, &ivf, &kernels(), &pl, &everyone(), VersionVector::new(3, 3));
    let set = |t: &Traverser| {
        t.ids
            .iter()
            .copied()
            .collect::<std::collections::BTreeSet<_>>()
    };
    assert_eq!(set(&exact), set(&real));
    assert_eq!(set(&real), [10, 11].into_iter().collect());
}

#[test]
fn ivfpq_backend_scopes_authz_at_source() {
    let (snap, mut c, _) = setup();
    c.set_node_label(2, 3); // person 2 sensitive
    let ivf = ivf_backend();
    let person = c.field_id("Person").unwrap();
    let pl = Pipeline {
        source: Source::TypeAnn {
            q: bits(&[0.9, 0.0]), // nearest is person 2
            target_type: person,
            k: 5,
        },
        transforms: vec![],
        max_nodes: 100,
        mode: ReadMode::Fresh,
    };
    let p_no = Principal {
        allowed_labels: 0b1,
    };
    assert!(
        !run(&snap, &c, &ivf, &kernels(), &pl, &p_no, VersionVector::new(3, 3))
            .ids
            .contains(&2)
    );
    let p_yes = Principal {
        allowed_labels: 0b1 | (1 << 3),
    };
    assert!(
        run(&snap, &c, &ivf, &kernels(), &pl, &p_yes, VersionVector::new(3, 3))
            .ids
            .contains(&2)
    );
}

#[test]
fn token_budget_bounds_result() {
    let (snap, c, vec) = setup();
    let person = c.field_id("Person").unwrap();
    let pl = Pipeline {
        source: Source::TypeAnn {
            q: bits(&[0.0, 0.0]),
            target_type: person,
            k: 5,
        },
        transforms: vec![],
        max_nodes: 1, // token budget = 1 node
        mode: ReadMode::Fresh,
    };
    let t = run(&snap, &c, &vec, &kernels(), &pl, &everyone(), VersionVector::new(3, 3));
    assert_eq!(t.ids.len(), 1);
    assert_eq!(t.ids[0], 1); // nearest Person to origin
}

#[test]
fn top_k_ranks_by_score_and_the_bound_holds_after_each_step() {
    let (snap, c, vec) = setup();
    let person = c.field_id("Person").unwrap();
    let wo = c.field_id("worked-on").unwrap();
    let pl = Pipeline {
        source: Source::TypeAnn {
            q: bits(&[0.9, 0.0]),
            target_type: person,
            k: 5,
        },
        transforms: vec![Transform::TopK { k: 1 }, Transform::Expand { predicate: wo }],
        max_nodes: 100,
        mode: ReadMode::Fresh,
    };
    let t = run(&snap, &c, &vec, &kernels(), &pl, &everyone(), VersionVector::new(3, 3));
    assert_eq!(t.ids, vec![10]); // person 2 only
    assert_eq!(t.scores, vec![1.0f32.to_bits()]);
    let v = vec![(7, 3), (5, 9), (6, 9), (4, 1)];
    let top = vec![Transform::TopK { k: 3 }];
    let t = run_from(&snap, &c, &everyone(), v, &top, 10, VersionVector::new(3, 3));
    assert_eq!(t.ids, vec![5, 6, 7]);
    assert_eq!(t.scores, vec![9, 9, 3]);
}

#[test]
fn points_are_looked_up_in_order_and_hidden_ones_left_out() {
    let (snap, mut c, vec) = setup();
    c.set_node_label(11, 3);
    let pl = Pipeline {
        source: Source::Point { subjects: vec![2, 11, 1, 2] },
        transforms: vec![],
        max_nodes: 100,
        mode: ReadMode::Strict,
    };
    let p = Principal { allowed_labels: 1 };
    assert!(p.can_see_label(0) && !p.can_see_label(3));
    let t = run(&snap, &c, &vec, &kernels(), &pl, &p, VersionVector::new(3, 3));
    assert_eq!(t.ids, vec![2, 1, 2]);
    // what is expanded to is scoped too
    let wo = c.field_id("worked-on").unwrap();
    let pl = Pipeline {
        source: Source::Point { subjects: vec![1, 2] },
        transforms: vec![Transform::Expand { predicate: wo }],
        max_nodes: 100,
        mode: ReadMode::Strict,
    };
    let t = run(&snap, &c, &vec, &kernels(), &pl, &p, VersionVector::new(3, 3));
    assert_eq!(t.ids, vec![10]);
}

#[test]
fn a_strict_read_sees_what_is_indexed() {
    let (snap, c, vec) = setup();
    let person = c.field_id("Person").unwrap();
    let pl = Pipeline {
        source: Source::TypeAnn { q: bits(&[0.9, 0.0]), target_type: person, k: 5 },
        transforms: vec![],
        max_nodes: 100,
        mode: ReadMode::Strict,
    };
    // person 2 came at seqno 1
    let t = run(&snap, &c, &vec, &kernels(), &pl, &everyone(), VersionVector::new(3, 1));
    assert_eq!(t.ids, vec![1]);
    let t = run(&snap, &c, &ivf_backend(), &kernels(), &pl, &everyone(), VersionVector::new(3, 1));
    assert_eq!(t.ids, vec![1]);
}
