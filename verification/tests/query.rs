//! Point, as-of, confidence, edge-property and graph reads.
use stromadb::catalog::{Cardinality, Catalog, Range, RelProps};
use stromadb::fact::{FieldId, NodeId};
use stromadb::fold::{fold, ObjKey, Op, OrderKey, Snapshot};
use stromadb::order::Key;
use stromadb::ordmap::OrdSet;
use stromadb::query::{
    confidence_signals, edge_prop, edge_props, expand, expand_asof, expand_rel, expand_rel_asof,
    many_closed_from, point_many, point_many_asof, point_one, point_one_asof,
    point_one_closed_from, point_one_source, point_one_valid_from, two_hop, Tier,
};

fn set_of<K: Key, const N: usize>(items: [K; N]) -> OrdSet<K> {
    let mut s = OrdSet::new();
    for i in items {
        s.insert(i);
    }
    s
}

fn ok(seq: u64) -> OrderKey {
    OrderKey {
        tx: seq,
        source: 0,
        seq,
    }
}

// Person(1) member-of(pred 0, One) Project(10); has-skill(pred 100, Many) Skill(20,21).
// Project(10) needs-skill(pred 101, Many) Skill(20,22).
fn snap() -> Snapshot {
    let ops = vec![
        Op::SetOne {
            subject: 1,
            predicate: 0,
            object: ObjKey::Node(10),
            valid_from: 0,
            valid_to: None,
            ok: ok(0),
        },
        Op::AddMany {
            subject: 1,
            predicate: 100,
            object: ObjKey::Node(20),
            valid_from: 0,
            valid_to: None,
            ok: ok(1),
        },
        Op::AddMany {
            subject: 1,
            predicate: 100,
            object: ObjKey::Node(21),
            valid_from: 0,
            valid_to: None,
            ok: ok(2),
        },
        Op::AddMany {
            subject: 10,
            predicate: 101,
            object: ObjKey::Node(20),
            valid_from: 0,
            valid_to: None,
            ok: ok(3),
        },
        Op::AddMany {
            subject: 10,
            predicate: 101,
            object: ObjKey::Node(22),
            valid_from: 0,
            valid_to: None,
            ok: ok(4),
        },
    ];
    fold(&ops).observe()
}

#[test]
fn valid_time_as_of() {
    // One-predicate (1, 5) history incl. a retroactive correction (written last, mid valid_from).
    let ops = vec![
        Op::SetOne {
            subject: 1,
            predicate: 5,
            object: ObjKey::Node(100),
            valid_from: 100,
            valid_to: None,
            ok: ok(0),
        },
        Op::SetOne {
            subject: 1,
            predicate: 5,
            object: ObjKey::Node(200),
            valid_from: 200,
            valid_to: None,
            ok: ok(1),
        },
        Op::SetOne {
            subject: 1,
            predicate: 5,
            object: ObjKey::Node(150),
            valid_from: 150,
            valid_to: None,
            ok: ok(2),
        },
    ];
    let s = fold(&ops).observe();
    assert_eq!(point_one_asof(&s, 1, 5, 50), None); // nothing valid yet
    assert_eq!(point_one_asof(&s, 1, 5, 120), Some(ObjKey::Node(100)));
    assert_eq!(point_one_asof(&s, 1, 5, 160), Some(ObjKey::Node(150))); // retroactive correction wins
    assert_eq!(point_one_asof(&s, 1, 5, 250), Some(ObjKey::Node(200)));
    // "now" (current functional value) = latest-written = the retroactive 150.
    assert_eq!(point_one(&s, 1, 5), Some(ObjKey::Node(150)));
}

#[test]
fn valid_time_bounded_interval() {
    // A single closed interval [100, 200): valid at 150, not before 100, not at/after 200.
    let ops = vec![Op::SetOne {
        subject: 7,
        predicate: 5,
        object: ObjKey::Node(42),
        valid_from: 100,
        valid_to: Some(200),
        ok: ok(0),
    }];
    let s = fold(&ops).observe();
    assert_eq!(point_one_asof(&s, 7, 5, 50), None); // before the interval
    assert_eq!(point_one_asof(&s, 7, 5, 100), Some(ObjKey::Node(42))); // lower bound inclusive
    assert_eq!(point_one_asof(&s, 7, 5, 150), Some(ObjKey::Node(42))); // inside
    assert_eq!(point_one_asof(&s, 7, 5, 200), None); // upper bound exclusive (ended)
    assert_eq!(point_one_asof(&s, 7, 5, 250), None); // after the interval
    // current functional value ignores wall-clock: the asserted value is still present.
    assert_eq!(point_one(&s, 7, 5), Some(ObjKey::Node(42)));
}

fn add_many_at(s: u64, p: u32, o: u64, vf: i64, vt: Option<i64>, seq: u64) -> Op {
    Op::AddMany {
        subject: s,
        predicate: p,
        object: ObjKey::Node(o),
        valid_from: vf,
        valid_to: vt,
        ok: ok(seq),
    }
}

fn close_many_at(s: u64, p: u32, o: u64, vf: i64, seq: u64) -> Op {
    Op::CloseMany {
        subject: s,
        predicate: p,
        object: ObjKey::Node(o),
        valid_from: vf,
        ok: ok(seq),
    }
}

#[test]
fn many_valid_time_as_of() {
    // grant(20) at 100 closed at 200 then re-granted at 300; grant(21) bounded [150, 250)
    let s = fold(&[
        add_many_at(1, 100, 20, 100, None, 0),
        close_many_at(1, 100, 20, 200, 1),
        add_many_at(1, 100, 20, 300, None, 2),
        add_many_at(1, 100, 21, 150, Some(250), 3),
    ])
    .observe();
    let set = |at: i64| point_many_asof(&s, 1, 100, at);
    assert_eq!(set(50), OrdSet::new()); // nothing in effect yet
    assert_eq!(set(120), set_of([ObjKey::Node(20)]));
    assert_eq!(
        set(180),
        set_of([ObjKey::Node(20), ObjKey::Node(21)])
    );
    assert_eq!(set(220), set_of([ObjKey::Node(21)])); // 20 closed at 200
    assert_eq!(set(260), OrdSet::new()); // 21's bound passed, 20 not yet re-granted
    assert_eq!(set(350), set_of([ObjKey::Node(20)])); // re-grant back in effect
    // the CURRENT set follows the winning rows: 20 present (re-add wins), 21 present
    // (valid_to is read-time only, exactly like the One-cardinality current read)
    assert_eq!(
        point_many(&s, 1, 100),
        set_of([ObjKey::Node(20), ObjKey::Node(21)])
    );
}

#[test]
fn many_closed_from_distinguishes_ended_from_never_written() {
    let s = fold(&[
        add_many_at(1, 100, 20, 100, None, 0),
        close_many_at(1, 100, 20, 200, 1),
    ])
    .observe();
    assert_eq!(many_closed_from(&s, 1, 100, &ObjKey::Node(20)), Some(200));
    assert_eq!(many_closed_from(&s, 1, 100, &ObjKey::Node(99)), None); // never written
    let s2 = fold(&[add_many_at(1, 100, 20, 100, None, 0)]).observe();
    assert_eq!(many_closed_from(&s2, 1, 100, &ObjKey::Node(20)), None); // live winner
}

#[test]
fn expand_asof_slices_both_cardinalities() {
    // One edge (1 -0-> 10) superseded at 200 by (1 -0-> 11); Many edge (1 -100-> 20) closed at 150
    let s = fold(&[
        Op::SetOne {
            subject: 1,
            predicate: 0,
            object: ObjKey::Node(10),
            valid_from: 100,
            valid_to: None,
            ok: ok(0),
        },
        Op::SetOne {
            subject: 1,
            predicate: 0,
            object: ObjKey::Node(11),
            valid_from: 200,
            valid_to: None,
            ok: ok(1),
        },
        add_many_at(1, 100, 20, 100, None, 2),
        close_many_at(1, 100, 20, 150, 3),
    ])
    .observe();
    assert_eq!(expand_asof(&s, 1, 0, 120), set_of([10]));
    assert_eq!(expand_asof(&s, 1, 0, 250), set_of([11]));
    assert_eq!(expand_asof(&s, 1, 100, 120), set_of([20]));
    assert_eq!(expand_asof(&s, 1, 100, 180), OrdSet::new());
}

#[test]
fn expand_rel_asof_honours_symmetric_reverse_edges_in_their_era() {
    // symmetric predicate: 2 -sym-> 1 granted at 100, closed at 200 — the REVERSE hop from 1
    // must appear inside the era and vanish after it
    let mut c = Catalog::new();
    let t = c.register_type("Node");
    let sym = c.register_predicate(
        "sym",
        Cardinality::Many,
        RelProps {
            symmetric: true,
            ..Default::default()
        },
        t,
        Range::Type(t),
    );
    let s = fold(&[
        add_many_at(2, sym, 1, 100, None, 0),
        close_many_at(2, sym, 1, 200, 1),
    ])
    .observe();
    assert_eq!(
        expand_rel_asof(&s, &c, 1, sym, 16, 150),
        set_of([2])
    );
    assert_eq!(expand_rel_asof(&s, &c, 1, sym, 16, 250), OrdSet::new());
}

#[test]
fn edge_props_lww_and_read() {
    // Edge (1, has-skill=100, Skill 20): set level=3 then level=5 (later ok wins), plus role.
    let ops = vec![
        Op::AddMany {
            subject: 1,
            predicate: 100,
            object: ObjKey::Node(20),
            valid_from: 0,
            valid_to: None,
            ok: ok(0),
        },
        Op::SetEdgeProp {
            subject: 1,
            predicate: 100,
            object: ObjKey::Node(20),
            key: "level".into(),
            value: ObjKey::Int(3),
            ok: ok(1),
        },
        Op::SetEdgeProp {
            subject: 1,
            predicate: 100,
            object: ObjKey::Node(20),
            key: "level".into(),
            value: ObjKey::Int(5),
            ok: ok(2), // greater order key → wins
        },
        Op::SetEdgeProp {
            subject: 1,
            predicate: 100,
            object: ObjKey::Node(20),
            key: "role".into(),
            value: ObjKey::Text("lead".into()),
            ok: ok(3),
        },
    ];
    let s = fold(&ops).observe();
    assert_eq!(
        edge_prop(&s, 1, 100, &ObjKey::Node(20), "level"),
        Some(ObjKey::Int(5))
    );
    assert_eq!(
        edge_prop(&s, 1, 100, &ObjKey::Node(20), "role"),
        Some(ObjKey::Text("lead".into()))
    );
    assert_eq!(edge_prop(&s, 1, 100, &ObjKey::Node(20), "missing"), None);
    // a different edge object has no properties
    assert_eq!(edge_props(&s, 1, 100, &ObjKey::Node(21)), None);
}

#[test]
fn point_one_and_many() {
    let s = snap();
    assert_eq!(point_one(&s, 1, 0), Some(ObjKey::Node(10)));
    assert_eq!(point_one(&s, 1, 999), None);
    assert_eq!(
        point_many(&s, 1, 100),
        set_of([ObjKey::Node(20), ObjKey::Node(21)])
    );
}

#[test]
fn point_one_source_is_the_winner() {
    // Two competing SetOne on (1, 5) from different sources, different valid_from. The current
    // functional value is the greatest-OrderKey write (source 9), so its source is the provenance.
    let ops = vec![
        Op::SetOne {
            subject: 1,
            predicate: 5,
            object: ObjKey::Node(100),
            valid_from: 10,
            valid_to: None,
            ok: OrderKey {
                tx: 1,
                source: 7,
                seq: 0,
            },
        },
        Op::SetOne {
            subject: 1,
            predicate: 5,
            object: ObjKey::Node(200),
            valid_from: 20,
            valid_to: None,
            ok: OrderKey {
                tx: 2,
                source: 9,
                seq: 1,
            },
        },
    ];
    let s = fold(&ops).observe();
    assert_eq!(point_one(&s, 1, 5), Some(ObjKey::Node(200)));
    assert_eq!(point_one_source(&s, 1, 5), Some(9));
}

#[test]
fn point_one_source_unset_and_absent() {
    // A write with no source carries the 0 sentinel; an absent key has no source at all.
    let ops = vec![Op::SetOne {
        subject: 1,
        predicate: 5,
        object: ObjKey::Node(1),
        valid_from: 0,
        valid_to: None,
        ok: OrderKey {
            tx: 1,
            source: 0,
            seq: 0,
        },
    }];
    let s = fold(&ops).observe();
    assert_eq!(point_one_source(&s, 1, 5), Some(0)); // 0 = unset sentinel
    assert_eq!(point_one_source(&s, 1, 999), None); // absent key
}

#[test]
fn point_one_closed_from_reports_a_close_winner_only() {
    // (1, 5): fact then close — the close wins, so its valid_from is reported.
    let ops = vec![
        Op::SetOne {
            subject: 1,
            predicate: 5,
            object: ObjKey::Node(100),
            valid_from: 100,
            valid_to: None,
            ok: ok(0),
        },
        Op::CloseOne {
            subject: 1,
            predicate: 5,
            valid_from: 200,
            ok: ok(1),
        },
    ];
    let s = fold(&ops).observe();
    assert_eq!(point_one(&s, 1, 5), None); // closed → no current value
    assert_eq!(point_one_closed_from(&s, 1, 5), Some(200));
    assert_eq!(point_one_closed_from(&s, 1, 999), None); // never written

    // A live winner (fact written after the close) is not a close.
    let mut ops = ops;
    ops.push(Op::SetOne {
        subject: 1,
        predicate: 5,
        object: ObjKey::Node(300),
        valid_from: 300,
        valid_to: None,
        ok: ok(2),
    });
    let s = fold(&ops).observe();
    assert_eq!(point_one(&s, 1, 5), Some(ObjKey::Node(300)));
    assert_eq!(point_one_closed_from(&s, 1, 5), None);
}

#[test]
fn one_hop_expand() {
    let s = snap();
    assert_eq!(expand(&s, 1, 100), set_of([20, 21]));
    assert_eq!(expand(&s, 1, 0), set_of([10]));
}

#[test]
fn two_hop_expand() {
    // person 1 -member-of-> project 10 -needs-skill-> {20, 22}
    let s = snap();
    assert_eq!(two_hop(&s, 1, 0, 101), set_of([20, 22]));
}

// ---- property-aware expand (expand_rel) ----


/// A Many-cardinality graph from `(subject, predicate, object)` edges (all node-valued).
fn many_edges(edges: &[(NodeId, FieldId, NodeId)]) -> Snapshot {
    let ops: Vec<Op> = edges
        .iter()
        .enumerate()
        .map(|(i, &(subject, predicate, object))| Op::AddMany {
            subject,
            predicate,
            object: ObjKey::Node(object),
            valid_from: 0,
            valid_to: None,
            ok: ok(i as u64),
        })
        .collect();
    fold(&ops).observe()
}

#[test]
fn expand_rel_default_props_equals_plain_expand() {
    let mut c = Catalog::new();
    let t = c.register_type("T");
    let p = c.register_predicate(
        "p",
        Cardinality::Many,
        RelProps::default(),
        t,
        Range::Type(t),
    );
    let s = many_edges(&[(1, p, 2), (1, p, 3)]);
    assert_eq!(expand_rel(&s, &c, 1, p, 16), expand(&s, 1, p));
    assert_eq!(expand_rel(&s, &c, 1, p, 16), set_of([2, 3]));
}

#[test]
fn expand_rel_symmetric_is_undirected() {
    let mut c = Catalog::new();
    let t = c.register_type("T");
    let knows = c.register_predicate(
        "knows",
        Cardinality::Many,
        RelProps {
            symmetric: true,
            transitive: false,
            inverse: None,
        },
        t,
        Range::Type(t),
    );
    // 1 knows 2 (forward); 3 knows 1 (reverse — reachable from 1 only because knows is symmetric).
    let s = many_edges(&[(1, knows, 2), (3, knows, 1)]);
    assert_eq!(
        expand_rel(&s, &c, 1, knows, 16),
        set_of([2, 3])
    );
    // plain (direction-respecting) expand sees only the forward edge
    assert_eq!(expand(&s, 1, knows), set_of([2]));
}

#[test]
fn expand_rel_inverse_reads_reverse_of_named_predicate() {
    let mut c = Catalog::new();
    let t = c.register_type("T");
    let parent = c.register_predicate(
        "parent-of",
        Cardinality::Many,
        RelProps::default(),
        t,
        Range::Type(t),
    );
    let child = c.register_predicate(
        "child-of",
        Cardinality::Many,
        RelProps {
            symmetric: false,
            transitive: false,
            inverse: Some(parent),
        },
        t,
        Range::Type(t),
    );
    // 1 parent-of {2, 3}; child-of stores no edges of its own.
    let s = many_edges(&[(1, parent, 2), (1, parent, 3)]);
    // expanding the inverse (child-of) on 2 yields 2's parents = {1}
    assert_eq!(expand_rel(&s, &c, 2, child, 16), set_of([1]));
    assert_eq!(expand_rel(&s, &c, 3, child, 16), set_of([1]));
    // 1 has no parent → child-of on 1 is empty
    assert!(expand_rel(&s, &c, 1, child, 16).is_empty());
    // parent-of still expands directly (forward)
    assert_eq!(
        expand_rel(&s, &c, 1, parent, 16),
        set_of([2, 3])
    );
}

#[test]
fn expand_rel_transitive_closure_and_depth_bound() {
    let mut c = Catalog::new();
    let t = c.register_type("T");
    let reaches = c.register_predicate(
        "reaches",
        Cardinality::Many,
        RelProps {
            symmetric: false,
            transitive: true,
            inverse: None,
        },
        t,
        Range::Type(t),
    );
    // chain 1 → 2 → 3 → 4
    let s = many_edges(&[(1, reaches, 2), (2, reaches, 3), (3, reaches, 4)]);
    assert_eq!(
        expand_rel(&s, &c, 1, reaches, 16),
        set_of([2, 3, 4])
    );
    // depth bound respected
    assert_eq!(
        expand_rel(&s, &c, 1, reaches, 2),
        set_of([2, 3])
    );
    assert_eq!(expand_rel(&s, &c, 1, reaches, 1), set_of([2]));
}

#[test]
fn expand_rel_transitive_cycle_terminates() {
    let mut c = Catalog::new();
    let t = c.register_type("T");
    let reaches = c.register_predicate(
        "reaches",
        Cardinality::Many,
        RelProps {
            symmetric: false,
            transitive: true,
            inverse: None,
        },
        t,
        Range::Type(t),
    );
    // cycle 1 → 2 → 3 → 1: the visited-set must terminate the BFS. 1 is re-reached at 3 hops, so
    // the whole cycle is in the 1..=16-hop reachable set.
    let s = many_edges(&[(1, reaches, 2), (2, reaches, 3), (3, reaches, 1)]);
    assert_eq!(
        expand_rel(&s, &c, 1, reaches, 16),
        set_of([1, 2, 3])
    );
}

// ---- coarse confidence signals (confidence_signals) ----

fn ok_src(seq: u64, source: FieldId) -> OrderKey {
    OrderKey {
        tx: seq,
        source,
        seq,
    }
}

/// A single One value at `(1, 5)` = Node(100), asserted `valid_from` at `vf` by each of `sources`
/// in order (later writes win). A `source` of `0` is the unset sentinel.
fn one_value(sources: &[(FieldId, i64)]) -> Snapshot {
    let ops: Vec<Op> = sources
        .iter()
        .enumerate()
        .map(|(i, &(source, vf))| Op::SetOne {
            subject: 1,
            predicate: 5,
            object: ObjKey::Node(100),
            valid_from: vf,
            valid_to: None,
            ok: ok_src(i as u64, source),
        })
        .collect();
    fold(&ops).observe()
}

#[test]
fn confidence_two_distinct_sources_is_high() {
    // Same value from two distinct sources (7, 9) → corroborated, sourced, fresh → high.
    let s = one_value(&[(7, 10), (9, 20)]);
    let c = confidence_signals(&s, 1, 5, None, None);
    assert_eq!(c.corroboration, 2);
    assert!(c.has_source);
    assert_eq!(c.age, None);
    assert_eq!(c.tier, Tier::High);
    assert_eq!(c.tier.as_str(), "high");
}

#[test]
fn confidence_single_source_is_medium() {
    let s = one_value(&[(7, 10)]);
    let c = confidence_signals(&s, 1, 5, None, None);
    assert_eq!(c.corroboration, 1);
    assert!(c.has_source);
    assert_eq!(c.tier, Tier::Medium);
    assert_eq!(c.tier.as_str(), "medium");
}

#[test]
fn confidence_sourceless_is_low() {
    // The winning value carries the 0 unset sentinel → no source → low; 0 is not corroboration.
    let s = one_value(&[(0, 10)]);
    let c = confidence_signals(&s, 1, 5, None, None);
    assert_eq!(c.corroboration, 0);
    assert!(!c.has_source);
    assert_eq!(c.tier, Tier::Low);
    assert_eq!(c.tier.as_str(), "low");
}

#[test]
fn confidence_stale_overrides_corroboration_to_low() {
    // Corroborated + sourced, but old relative to now/max_age → stale → low.
    let s = one_value(&[(7, 100), (9, 100)]);
    let c = confidence_signals(&s, 1, 5, Some(1000), Some(100));
    assert_eq!(c.corroboration, 2);
    assert_eq!(c.age, Some(900)); // 1000 - valid_from(100)
    assert_eq!(c.tier, Tier::Low);
    // within max_age → fresh again → back to high (corroborated).
    let c2 = confidence_signals(&s, 1, 5, Some(150), Some(100));
    assert_eq!(c2.age, Some(50));
    assert_eq!(c2.tier, Tier::High);
}

#[test]
fn confidence_now_without_max_age_is_never_stale() {
    // `now` alone yields an age but no staleness (max_age is required to judge stale).
    let s = one_value(&[(7, 0)]);
    let c = confidence_signals(&s, 1, 5, Some(10_000), None);
    assert_eq!(c.age, Some(10_000));
    assert_eq!(c.tier, Tier::Medium);
}

#[test]
fn confidence_absent_value_is_low() {
    let s = one_value(&[(7, 10)]);
    // an unasserted key: no winner → no source, no corroboration, unknown age → low.
    let c = confidence_signals(&s, 1, 999, Some(100), Some(1));
    assert_eq!(c.corroboration, 0);
    assert!(!c.has_source);
    assert_eq!(c.age, None);
    assert_eq!(c.tier, Tier::Low);
}

#[test]
fn expand_rel_symmetric_transitive_reaches_component() {
    let mut c = Catalog::new();
    let t = c.register_type("T");
    let linked = c.register_predicate(
        "linked",
        Cardinality::Many,
        RelProps {
            symmetric: true,
            transitive: true,
            inverse: None,
        },
        t,
        Range::Type(t),
    );
    // stored one-directionally: 1-2, 2-3, 4-3 → undirected + transitive spans component {1,2,3,4}.
    let s = many_edges(&[(1, linked, 2), (2, linked, 3), (4, linked, 3)]);
    assert_eq!(
        expand_rel(&s, &c, 1, linked, 16),
        set_of([1, 2, 3, 4])
    );
}

#[test]
fn the_last_write_gives_the_start_of_validity() {
    let set = |from: i64, seq: u64| Op::SetOne {
        subject: 1,
        predicate: 5,
        object: ObjKey::Node(9),
        valid_from: from,
        valid_to: None,
        ok: ok(seq),
    };
    let s = fold(&[set(200, 1), set(150, 2)]).observe();
    assert_eq!(point_one_valid_from(&s, 1, 5), Some(150));
    assert_eq!(point_one_valid_from(&s, 1, 6), None);
    assert_eq!(point_one_closed_from(&s, 1, 5), None);
    let s = fold(&[
        set(200, 1),
        Op::CloseOne {
            subject: 1,
            predicate: 5,
            valid_from: 300,
            ok: ok(2),
        },
    ])
    .observe();
    assert_eq!(point_one_valid_from(&s, 1, 5), Some(300));
    assert_eq!(point_one_closed_from(&s, 1, 5), Some(300));
}
