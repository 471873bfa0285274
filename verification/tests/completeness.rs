//! Required predicates that are absent.
use stromadb::catalog::{Cardinality, Catalog, Range, RelProps, ValueType};
use stromadb::completeness::{evaluate, unresolved_names, Incomplete};
use stromadb::fact::{FieldId, NodeId};
use stromadb::fold::{fold, ObjKey, Op, OrderKey, Snapshot};

fn ok(seq: u64) -> OrderKey {
    OrderKey {
        tx: seq,
        source: 0,
        seq,
    }
}

fn set_one(
    ops: &mut Vec<Op>,
    seq: &mut u64,
    subject: NodeId,
    predicate: FieldId,
    object: ObjKey,
) {
    ops.push(Op::SetOne {
        subject,
        predicate,
        object,
        valid_from: 0,
        valid_to: None,
        ok: ok(*seq),
    });
    *seq += 1;
}

fn add_many(
    ops: &mut Vec<Op>,
    seq: &mut u64,
    subject: NodeId,
    predicate: FieldId,
    object: ObjKey,
) {
    ops.push(Op::AddMany {
        subject,
        predicate,
        object,
        valid_from: 0,
        valid_to: None,
        ok: ok(*seq),
    });
    *seq += 1;
}

fn set_type(ops: &mut Vec<Op>, seq: &mut u64, node: NodeId, type_id: FieldId) {
    ops.push(Op::SetNodeType {
        node,
        type_id,
        ok: ok(*seq),
    });
    *seq += 1;
}

fn text(s: &str) -> ObjKey {
    ObjKey::Text(s.to_string())
}

struct Fixture {
    snap: Snapshot,
    cat: Catalog,
    required: Vec<String>,
}

// Issues with three required predicates:
//   status      (One, Text)   — a one-cardinality value
//   assigned-to (One, Person) — a one-cardinality node ref
//   watchers   (Many, Person)— a many-cardinality node ref
// Issue 1: all three present            → complete (omitted)
// Issue 2: status only                  → missing assigned-to, watchers
// Issue 3: assigned-to + watchers only  → missing status
// Issue 4: nothing                       → missing all three (in request order)
fn fixture() -> Fixture {
    let mut cat = Catalog::new();
    let issue = cat.register_type("Issue");
    let person = cat.register_type("Person");
    let d = RelProps::default();
    let status = cat.register_predicate(
        "status",
        Cardinality::One,
        d,
        issue,
        Range::Value(ValueType::Text),
    );
    let assigned_to = cat.register_predicate(
        "assigned-to",
        Cardinality::One,
        d,
        issue,
        Range::Type(person),
    );
    let watchers = cat.register_predicate(
        "watchers",
        Cardinality::Many,
        d,
        issue,
        Range::Type(person),
    );

    let mut ops: Vec<Op> = Vec::new();
    let mut seq = 0u64;

    set_type(&mut ops, &mut seq, 10, person);
    set_type(&mut ops, &mut seq, 11, person);
    for id in 1..=4u64 {
        set_type(&mut ops, &mut seq, id, issue);
    }

    // Issue 1 — complete.
    set_one(&mut ops, &mut seq, 1, status, text("open"));
    set_one(&mut ops, &mut seq, 1, assigned_to, ObjKey::Node(10));
    add_many(&mut ops, &mut seq, 1, watchers, ObjKey::Node(11));

    // Issue 2 — only status.
    set_one(&mut ops, &mut seq, 2, status, text("open"));

    // Issue 3 — assigned-to + watchers, no status.
    set_one(&mut ops, &mut seq, 3, assigned_to, ObjKey::Node(10));
    add_many(&mut ops, &mut seq, 3, watchers, ObjKey::Node(10));
    add_many(&mut ops, &mut seq, 3, watchers, ObjKey::Node(11));

    // Issue 4 — nothing.

    Fixture {
        snap: fold(&ops).observe(),
        cat,
        required: vec!["status".into(), "assigned-to".into(), "watchers".into()],
    }
}

#[test]
fn reports_absent_required_predicates() {
    let f = fixture();
    let out = evaluate(&f.snap, &f.cat, "Issue", &f.required, u32::MAX);
    // sorted by node id; complete node (1) omitted.
    assert_eq!(
        out,
        vec![
            Incomplete {
                node: 2,
                missing: vec!["assigned-to".into(), "watchers".into()],
            },
            Incomplete {
                node: 3,
                missing: vec!["status".into()],
            },
            Incomplete {
                node: 4,
                missing: vec!["status".into(), "assigned-to".into(), "watchers".into()],
            },
        ]
    );
}

#[test]
fn unknown_type_yields_nothing() {
    let f = fixture();
    assert!(evaluate(&f.snap, &f.cat, "Nope", &f.required, u32::MAX).is_empty());
}

#[test]
fn post_authz_skips_hidden_nodes() {
    let mut f = fixture();
    // hide issue 4 behind sensitivity label 1.
    f.snap.node_labels.insert(4, 1);
    // a principal allowed only label 0 must not see issue 4.
    let out = evaluate(&f.snap, &f.cat, "Issue", &f.required, 0b1);
    assert!(out.iter().all(|i| i.node != 4));
    // with all labels allowed, it reappears.
    let out_all = evaluate(&f.snap, &f.cat, "Issue", &f.required, u32::MAX);
    assert!(out_all.iter().any(|i| i.node == 4));
}

#[test]
fn unresolved_names_reported() {
    let f = fixture();
    let req = vec!["status".to_string(), "nope".to_string()];
    assert_eq!(
        unresolved_names("Issue", &req, &f.cat),
        vec!["nope".to_string()]
    );
    assert!(unresolved_names("Bad", &req, &f.cat).contains(&"Bad".to_string()));
    assert!(unresolved_names("Issue", &f.required, &f.cat).is_empty());
}
