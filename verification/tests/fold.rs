//! The fold and what is observed of it.
use stromadb::catalog::{Cardinality, Catalog, Range, RelProps};
use stromadb::fact::{Fact, FieldId, Object, Provenance, ProvenanceKind, ValidTime};
use stromadb::fold::{fold, ObjKey, Op, OrderKey};

#[test]
fn assert_from_routes_by_cardinality() {
    let mut c = Catalog::new();
    let person = c.register_type("Person");
    let skill = c.register_type("Skill");
    let project = c.register_type("Project");
    c.register_predicate(
        "has-skill",
        Cardinality::Many,
        RelProps::default(),
        person,
        Range::Type(skill),
    );
    c.register_predicate(
        "member-of",
        Cardinality::One,
        RelProps::default(),
        person,
        Range::Type(project),
    );

    let mk = |pred: FieldId, obj: u64| Fact {
        subject: 1,
        predicate: pred,
        object: Object::Node(obj),
        valid_time: ValidTime::from(0),
        transaction_time: 1,
        provenance: Provenance {
            kind: ProvenanceKind::Asserted,
            source: 0,
        },
        confidence: 1.0f32.to_bits(),
    };
    let hs = c.field_id("has-skill").unwrap();
    let mo = c.field_id("member-of").unwrap();
    assert!(matches!(
        Op::assert_from(&c, &mk(hs, 2), 0),
        Some(Op::AddMany { .. })
    ));
    assert!(matches!(
        Op::assert_from(&c, &mk(mo, 3), 1),
        Some(Op::SetOne { .. })
    ));
    assert!(Op::assert_from(&c, &mk(999, 4), 2).is_none());
}

fn ok(tx: u64, src: FieldId, seq: u64) -> OrderKey {
    OrderKey {
        tx,
        source: src,
        seq,
    }
}

#[test]
fn lww_tiebreak_is_total_order() {
    let s = 0u64;
    let p = 0u32;
    let a = Op::SetOne {
        subject: s,
        predicate: p,
        object: ObjKey::Node(10),
        valid_from: 0,
        valid_to: None,
        ok: ok(1, 0, 0),
    };
    let b = Op::SetOne {
        subject: s,
        predicate: p,
        object: ObjKey::Node(20),
        valid_from: 0,
        valid_to: None,
        ok: ok(1, 2, 1),
    };
    let s1 = fold(&[a.clone(), b.clone()]).observe();
    let s2 = fold(&[b, a]).observe();
    assert_eq!(s1, s2);
    assert_eq!(s1.one.get(&(s, p)), Some(&Some(ObjKey::Node(20))));
}

#[test]
fn hard_delete_purges_then_allows_reassert() {
    let s = 0u64;
    let p = 100u32;
    let ops = vec![
        Op::AddMany {
            subject: s,
            predicate: p,
            object: ObjKey::Node(1),
            valid_from: 0,
            valid_to: None,
            ok: ok(1, 0, 0),
        },
        Op::HardDelete {
            subject: s,
            predicate: p,
            ok: ok(5, 0, 1),
            cardinality: Cardinality::Many,
        },
        Op::AddMany {
            subject: s,
            predicate: p,
            object: ObjKey::Node(2),
            valid_from: 0,
            valid_to: None,
            ok: ok(9, 0, 2),
        },
    ];
    let snap = fold(&ops).observe();
    let present = snap.many.get(&(s, p)).cloned().unwrap_or_default();
    assert!(!present.contains(&ObjKey::Node(1)));
    assert!(present.contains(&ObjKey::Node(2)));
    let mut rev = ops.clone();
    rev.reverse();
    assert_eq!(snap, fold(&rev).observe());
}

#[test]
fn or_set_concurrent_add_survives_remove() {
    let s = 0u64;
    let p = 100u32;
    let tag_a = ok(1, 0, 0);
    let tag_b = ok(1, 1, 1);
    let ops = vec![
        Op::AddMany {
            subject: s,
            predicate: p,
            object: ObjKey::Node(7),
            valid_from: 0,
            valid_to: None,
            ok: tag_a,
        },
        Op::AddMany {
            subject: s,
            predicate: p,
            object: ObjKey::Node(7),
            valid_from: 0,
            valid_to: None,
            ok: tag_b,
        },
        Op::RemoveMany {
            subject: s,
            predicate: p,
            observed: vec![tag_a],
        },
    ];
    assert!(
        fold(&ops)
            .observe()
            .many
            .get(&(s, p))
            .unwrap()
            .contains(&ObjKey::Node(7))
    );
}

fn add_at(s: u64, p: u32, o: u64, vf: i64, okey: OrderKey) -> Op {
    Op::AddMany {
        subject: s,
        predicate: p,
        object: ObjKey::Node(o),
        valid_from: vf,
        valid_to: None,
        ok: okey,
    }
}

fn close_at(s: u64, p: u32, o: u64, vf: i64, okey: OrderKey) -> Op {
    Op::CloseMany {
        subject: s,
        predicate: p,
        object: ObjKey::Node(o),
        valid_from: vf,
        ok: okey,
    }
}

#[test]
fn close_many_removes_from_present_set_but_keeps_history() {
    let (s, p) = (0u64, 100u32);
    let snap = fold(&[
        add_at(s, p, 7, 100, ok(1, 0, 0)),
        close_at(s, p, 7, 200, ok(2, 0, 1)),
    ])
    .observe();
    // the winning row is the close → the element leaves the CURRENT set…
    assert!(!snap.many.contains_key(&(s, p)));
    // …but both rows stay sliceable in the element's history
    let rows = snap.many_history.get(&(s, p)).unwrap().get(&ObjKey::Node(7)).unwrap().clone();
    assert_eq!(rows.len(), 2);
    assert_eq!(rows[0].1, Some(ObjKey::Node(7))); // the add
    assert_eq!(rows[1].1, None); // the close
}

#[test]
fn close_many_then_readd_restores_presence_order_free() {
    let (s, p) = (0u64, 100u32);
    let ops = vec![
        add_at(s, p, 7, 100, ok(1, 0, 0)),
        close_at(s, p, 7, 200, ok(2, 0, 1)),
        add_at(s, p, 7, 300, ok(3, 0, 2)),
    ];
    let snap = fold(&ops).observe();
    assert!(snap.many.get(&(s, p)).unwrap().contains(&ObjKey::Node(7)));
    // any arrival order converges to the same observation (join-semilattice)
    let mut rev = ops.clone();
    rev.reverse();
    assert_eq!(snap, fold(&rev).observe());
}

#[test]
fn retract_after_close_leaves_element_absent_and_close_unobservable_by_tags() {
    let (s, p) = (0u64, 100u32);
    let f = fold(&[
        add_at(s, p, 7, 100, ok(1, 0, 0)),
        close_at(s, p, 7, 200, ok(2, 0, 1)),
    ]);
    // live_tags exposes ADD rows only — a retraction never observes the close row
    assert_eq!(f.live_tags(s, p, &ObjKey::Node(7)), vec![ok(1, 0, 0)]);
    let mut f2 = f.clone();
    f2.apply(&Op::RemoveMany {
        subject: s,
        predicate: p,
        observed: vec![ok(1, 0, 0)],
    });
    let snap = f2.observe();
    assert!(!snap.many.contains_key(&(s, p)));
    // only the close row survives in history
    assert_eq!(snap.many_history.get(&(s, p)).unwrap().get(&ObjKey::Node(7)).unwrap().len(), 1);
}

#[test]
fn many_live_asserted_probe_tracks_presence_and_interval() {
    let (s, p) = (0u64, 100u32);
    let o = ObjKey::Node(7);
    let mut f = fold(&[add_at(s, p, 7, 100, ok(1, 3, 0))]);
    assert!(f.many_live_asserted(s, p, &o, 3, 100, None)); // identical re-assertion → suppress
    assert!(!f.many_live_asserted(s, p, &o, 4, 100, None)); // different source → corroborate
    assert!(!f.many_live_asserted(s, p, &o, 3, 150, None)); // corrected interval → append
    f.apply(&close_at(s, p, 7, 200, ok(2, 3, 1)));
    // closed → not present → a re-grant must append even with the original interval
    assert!(!f.many_live_asserted(s, p, &o, 3, 100, None));
}

#[test]
fn a_fold_says_what_it_takes() {
    let set = Op::SetOne {
        subject: 1,
        predicate: 7,
        object: ObjKey::Int(4),
        valid_from: 0,
        valid_to: None,
        ok: ok(1, 0, 1),
    };
    let add = |p: FieldId| Op::AddMany {
        subject: 1,
        predicate: p,
        object: ObjKey::Int(4),
        valid_from: 0,
        valid_to: None,
        ok: ok(2, 0, 2),
    };
    let f = fold(&[set]);
    assert!(f.accepts(&add(8)));
    assert!(!f.accepts(&add(7)));
}
