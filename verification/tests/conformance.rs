//! Derived-value conformance.
use std::collections::BTreeMap;
use stromadb::catalog::{Cardinality, Catalog, Range, RelProps, ValueType};
use stromadb::conformance::{
    evaluate, unresolved_names, Cond, Hop, MismatchKind, Outcome, Rule, Verdict,
};
use stromadb::fact::{FieldId, NodeId};
use stromadb::fold::{fold, ObjKey, Op, OrderKey, Snapshot};

fn ok(seq: u64) -> OrderKey {
    OrderKey {
        tx: seq,
        source: 0,
        seq,
    }
}

fn set_one(
    ops: &mut Vec<Op>,
    seq: &mut u64,
    subject: NodeId,
    predicate: FieldId,
    object: ObjKey,
    valid_from: i64,
) {
    ops.push(Op::SetOne {
        subject,
        predicate,
        object,
        valid_from,
        valid_to: None,
        ok: ok(*seq),
    });
    *seq += 1;
}

fn set_type(ops: &mut Vec<Op>, seq: &mut u64, node: NodeId, type_id: FieldId) {
    ops.push(Op::SetNodeType {
        node,
        type_id,
        ok: ok(*seq),
    });
    *seq += 1;
}

fn text(s: &str) -> ObjKey {
    ObjKey::Text(s.to_string())
}

fn rule() -> Rule {
    Rule {
        subject_type: "Issue".into(),
        scope: Some(Cond {
            predicate: "issue-type".into(),
            equals: text("release"),
        }),
        required: vec![
            Hop {
                predicate: "assigned-to".into(),
                as_of: None,
            },
            Hop {
                predicate: "member-of".into(),
                as_of: None,
            },
            Hop {
                predicate: "manager-of".into(),
                as_of: Some("approved-at".into()),
            },
        ],
        actual: "approved-by".into(),
        absent_when: Some(Cond {
            predicate: "status".into(),
            equals: text("released"),
        }),
    }
}

// An approval-conformance graph exercising every verdict + the as-of hop. A Platform department
// (100) whose manager changes at valid-time 5000: Alice(10) → Carol(12). Non-manager Dave(20).
// Assignees 201/202 are members of the department.
struct Fixture {
    snap: Snapshot,
    cat: Catalog,
}

fn fixture() -> Fixture {
    let mut cat = Catalog::new();
    let issue = cat.register_type("Issue");
    let person = cat.register_type("Person");
    let dept = cat.register_type("Department");
    let d = RelProps::default();
    let issue_type = cat.register_predicate(
        "issue-type",
        Cardinality::One,
        d,
        issue,
        Range::Value(ValueType::Text),
    );
    let assigned_to = cat.register_predicate(
        "assigned-to",
        Cardinality::One,
        d,
        issue,
        Range::Type(person),
    );
    let member_of =
        cat.register_predicate("member-of", Cardinality::One, d, person, Range::Type(dept));
    let manager_of =
        cat.register_predicate("manager-of", Cardinality::One, d, dept, Range::Type(person));
    let approved_by = cat.register_predicate(
        "approved-by",
        Cardinality::One,
        d,
        issue,
        Range::Type(person),
    );
    let approved_at = cat.register_predicate(
        "approved-at",
        Cardinality::One,
        d,
        issue,
        Range::Value(ValueType::Int),
    );
    let status = cat.register_predicate(
        "status",
        Cardinality::One,
        d,
        issue,
        Range::Value(ValueType::Text),
    );

    let mut ops: Vec<Op> = Vec::new();
    let mut seq = 0u64;

    set_type(&mut ops, &mut seq, 100, dept);
    set_type(&mut ops, &mut seq, 10, person);
    set_type(&mut ops, &mut seq, 12, person);
    set_type(&mut ops, &mut seq, 20, person);
    set_type(&mut ops, &mut seq, 201, person);
    set_type(&mut ops, &mut seq, 202, person);
    for id in 1..=6u64 {
        set_type(&mut ops, &mut seq, id, issue);
    }

    // dept 100 manager-of: Alice(10) from 1000, Carol(12) from 5000 (a valid-time transfer).
    set_one(&mut ops, &mut seq, 100, manager_of, ObjKey::Node(10), 1000);
    set_one(&mut ops, &mut seq, 100, manager_of, ObjKey::Node(12), 5000);
    set_one(&mut ops, &mut seq, 201, member_of, ObjKey::Node(100), 1000);
    set_one(&mut ops, &mut seq, 202, member_of, ObjKey::Node(100), 1000);

    // Issue 1 — OK: approved by the manager as-of approval time.
    set_one(&mut ops, &mut seq, 1, issue_type, text("release"), 0);
    set_one(&mut ops, &mut seq, 1, assigned_to, ObjKey::Node(201), 0);
    set_one(&mut ops, &mut seq, 1, approved_at, ObjKey::Int(1200), 0);
    set_one(&mut ops, &mut seq, 1, approved_by, ObjKey::Node(10), 0);
    set_one(&mut ops, &mut seq, 1, status, text("released"), 0);

    // Issue 2 — ABSENT: released with no approval.
    set_one(&mut ops, &mut seq, 2, issue_type, text("release"), 0);
    set_one(&mut ops, &mut seq, 2, assigned_to, ObjKey::Node(201), 0);
    set_one(&mut ops, &mut seq, 2, status, text("released"), 0);

    // Issue 3 — MISMATCH: approved by a non-manager (Dave).
    set_one(&mut ops, &mut seq, 3, issue_type, text("release"), 0);
    set_one(&mut ops, &mut seq, 3, assigned_to, ObjKey::Node(201), 0);
    set_one(&mut ops, &mut seq, 3, approved_at, ObjKey::Int(1200), 0);
    set_one(&mut ops, &mut seq, 3, approved_by, ObjKey::Node(20), 0);
    set_one(&mut ops, &mut seq, 3, status, text("released"), 0);

    // Issue 4 — NOT_APPLICABLE: not a release.
    set_one(&mut ops, &mut seq, 4, issue_type, text("task"), 0);
    set_one(&mut ops, &mut seq, 4, assigned_to, ObjKey::Node(201), 0);
    set_one(&mut ops, &mut seq, 4, status, text("released"), 0);

    // Issue 5 — OK (as-of before the transfer): Alice approved at 1200, still manager then.
    set_one(&mut ops, &mut seq, 5, issue_type, text("release"), 0);
    set_one(&mut ops, &mut seq, 5, assigned_to, ObjKey::Node(202), 0);
    set_one(&mut ops, &mut seq, 5, approved_at, ObjKey::Int(1200), 0);
    set_one(&mut ops, &mut seq, 5, approved_by, ObjKey::Node(10), 0);
    set_one(&mut ops, &mut seq, 5, status, text("released"), 0);

    // Issue 6 — MISMATCH (as-of after the transfer): Alice approved at 6000, but as-of 6000 the
    // manager is Carol(12), so Alice is stale authority.
    set_one(&mut ops, &mut seq, 6, issue_type, text("release"), 0);
    set_one(&mut ops, &mut seq, 6, assigned_to, ObjKey::Node(202), 0);
    set_one(&mut ops, &mut seq, 6, approved_at, ObjKey::Int(6000), 0);
    set_one(&mut ops, &mut seq, 6, approved_by, ObjKey::Node(10), 0);
    set_one(&mut ops, &mut seq, 6, status, text("released"), 0);

    Fixture {
        snap: fold(&ops).observe(),
        cat,
    }
}

fn verdicts_by_subject(vs: &[Verdict]) -> BTreeMap<NodeId, &Verdict> {
    vs.iter().map(|v| (v.subject, v)).collect()
}

#[test]
fn every_verdict_and_asof_hop() {
    let f = fixture();
    let vs = evaluate(&f.snap, &f.cat, &rule(), u32::MAX);
    // deterministic, one verdict per issue, sorted by subject id
    assert_eq!(
        vs.iter().map(|v| v.subject).collect::<Vec<_>>(),
        vec![1, 2, 3, 4, 5, 6]
    );
    let by = verdicts_by_subject(&vs);
    assert_eq!(by[&1].verdict, Outcome::Okay);
    assert_eq!(by[&2].verdict, Outcome::Absent);
    assert_eq!(by[&3].verdict, Outcome::Mismatch);
    assert_eq!(by[&4].verdict, Outcome::NotApplicable);
    assert_eq!(by[&5].verdict, Outcome::Okay);
    assert_eq!(by[&6].verdict, Outcome::Mismatch);

    // Issue 1: derived required = manager-of(dept)@1200 = Alice(10); actual = Alice(10).
    assert_eq!(by[&1].required, Some(ObjKey::Node(10)));
    assert_eq!(by[&1].actual, Some(ObjKey::Node(10)));
    assert_eq!(by[&1].as_of, Some(1200));

    // Issue 2: no actual; absence condition (status == released) holds.
    assert_eq!(by[&2].actual, None);

    // Issue 4: out of scope — nothing derived.
    assert_eq!(by[&4].required, None);
    assert_eq!(by[&4].actual, None);
    assert_eq!(by[&4].as_of, None);

    // Issue 5 vs 6 = the as-of hop: same approver (Alice), different approval time flips the
    // required manager across the 5000 transfer.
    assert_eq!(by[&5].required, Some(ObjKey::Node(10)));
    assert_eq!(by[&5].as_of, Some(1200));
    assert_eq!(by[&6].required, Some(ObjKey::Node(12)));
    assert_eq!(by[&6].actual, Some(ObjKey::Node(10)));
    assert_eq!(by[&6].as_of, Some(6000));

    // mismatch sub-classification via valid-time history probe:
    //   Issue 3 = Dave(20), never a manager of the dept → wrong.
    //   Issue 6 = Alice(10), was the dept manager before the 5000 transfer but not at 6000 → stale.
    assert_eq!(by[&3].mismatch_kind, Some(MismatchKind::Wrong));
    assert_eq!(by[&6].mismatch_kind, Some(MismatchKind::Stale));
    // non-mismatch verdicts carry no kind.
    assert_eq!(by[&1].mismatch_kind, None);
    assert_eq!(by[&2].mismatch_kind, None);
    assert_eq!(by[&4].mismatch_kind, None);
}

#[test]
fn post_authz_skips_hidden_subjects() {
    let mut f = fixture();
    // hide issue 3 behind sensitivity label 1.
    f.snap.node_labels.insert(3, 1);
    // a principal allowed only label 0 must not see issue 3's verdict.
    let vs = evaluate(&f.snap, &f.cat, &rule(), 0b1);
    assert!(
        vs.iter().all(|v| v.subject != 3),
        "label-1 subject must be hidden from a label-0 principal"
    );
    // with all labels allowed, it reappears.
    let vs_all = evaluate(&f.snap, &f.cat, &rule(), u32::MAX);
    assert!(vs_all.iter().any(|v| v.subject == 3));
}

#[test]
fn unknown_names_are_reported() {
    let f = fixture();
    let mut r = rule();
    r.actual = "does-not-exist".into();
    assert_eq!(
        unresolved_names(&r, &f.cat),
        vec!["does-not-exist".to_string()]
    );
    assert!(unresolved_names(&rule(), &f.cat).is_empty());
}

// Issue 1, approved by person 10 at 50: its team 30, and the team's lead.
fn lead_verdict(hops: Vec<Hop>, lead_rows: &[(u64, i64)], team: bool) -> Verdict {
    let mut cat = Catalog::new();
    let issue = cat.register_type("Issue");
    let person = cat.register_type("Person");
    let d = RelProps::default();
    let team_of = cat.register_predicate("team", Cardinality::One, d, issue, Range::Type(person));
    let lead = cat.register_predicate("lead", Cardinality::One, d, person, Range::Type(person));
    let by = cat.register_predicate("by", Cardinality::One, d, issue, Range::Type(person));
    let when = cat.register_predicate("when", Cardinality::One, d, issue, Range::Value(ValueType::Int));
    let (mut ops, mut seq) = (Vec::new(), 0);
    set_type(&mut ops, &mut seq, 1, issue);
    if team {
        set_one(&mut ops, &mut seq, 1, team_of, ObjKey::Node(30), 0);
    } else {
        // 10 held it, and the team was unset before the approval
        set_one(&mut ops, &mut seq, 1, team_of, ObjKey::Node(10), 0);
        ops.push(Op::CloseOne { subject: 1, predicate: team_of, valid_from: 20, ok: ok(seq) });
        seq += 1;
    }
    for (p, from) in lead_rows {
        set_one(&mut ops, &mut seq, 30, lead, ObjKey::Node(*p), *from);
    }
    set_one(&mut ops, &mut seq, 1, by, ObjKey::Node(10), 0);
    set_one(&mut ops, &mut seq, 1, when, ObjKey::Int(50), 0);
    let rule = Rule {
        subject_type: "Issue".into(),
        scope: None,
        required: hops,
        actual: "by".into(),
        absent_when: None,
    };
    evaluate(&fold(&ops).observe(), &cat, &rule, u32::MAX).remove(0)
}

fn hop(predicate: &str, as_of: Option<&str>) -> Hop {
    Hop { predicate: predicate.into(), as_of: as_of.map(String::from) }
}

#[test]
fn a_mismatch_is_stale_only_where_the_role_was_held_before() {
    let hops = || vec![hop("team", None), hop("lead", Some("when"))];
    let held = lead_verdict(hops(), &[(10, 0), (11, 40)], true);
    assert_eq!(held.mismatch_kind, Some(MismatchKind::Stale));
    assert_eq!(held.as_of, Some(50));
    // 10 leads only from 60 on
    let later = lead_verdict(hops(), &[(11, 0), (10, 60)], true);
    assert_eq!(later.mismatch_kind, Some(MismatchKind::Wrong));
    let never = lead_verdict(hops(), &[(11, 0)], true);
    assert_eq!(never.mismatch_kind, Some(MismatchKind::Wrong));
}

#[test]
fn a_mismatch_on_a_timeless_last_hop_is_wrong() {
    // the path breaks at the anchored first hop, which held 10 before
    let broken = lead_verdict(vec![hop("team", Some("when")), hop("lead", None)], &[], false);
    assert_eq!(broken.verdict, Outcome::Mismatch);
    assert_eq!((broken.required, broken.as_of), (None, Some(50)));
    assert_eq!(broken.mismatch_kind, Some(MismatchKind::Wrong));
    // with the anchored hop last it is stale
    let last = lead_verdict(vec![hop("team", Some("when"))], &[], false);
    assert_eq!(last.mismatch_kind, Some(MismatchKind::Stale));
}
