//! Verdicts and gaps kept up to date, against full recomputation.
use stromadb::catalog::{Cardinality, Catalog, Range, RelProps, ValueType};
use stromadb::changelog::WriteKind;
use stromadb::conformance::{evaluate, Cond, Hop, Rule, Verdict};
use stromadb::engine::Engine;
use stromadb::fact::{FieldId, NodeId};
use stromadb::fold::{ObjKey, Snapshot};
use stromadb::incremental::{CompletenessRule, Maintained, MaintainedConformance};
use stromadb::ordmap::{OrdMap, OrdSet};
use stromadb::query;

// Toy rule over subjects 1..=20: gap iff amount > 10 and no `approved` edge. A change to a
// subject's amount or approved edge flips only that subject.
struct Toy {
    amount: FieldId,
    approved: FieldId,
    subjects: Vec<NodeId>,
}

impl CompletenessRule for Toy {
    fn seed(&self, snap: &Snapshot) -> OrdSet<NodeId> {
        let mut out = OrdSet::new();
        for &s in &self.subjects {
            if self.holds(snap, s) {
                out.insert(s);
            }
        }
        out
    }
    fn candidates(&self, _snap: &Snapshot, changed: (NodeId, FieldId)) -> Vec<NodeId> {
        let (s, _p) = changed;
        if self.subjects.contains(&s) {
            vec![s]
        } else {
            vec![]
        }
    }
    fn holds(&self, snap: &Snapshot, s: NodeId) -> bool {
        let amt = match query::point_one(snap, s, self.amount) {
            Some(ObjKey::Int(n)) => n,
            _ => 0,
        };
        amt > 10 && query::expand(snap, s, self.approved).is_empty()
    }
}

fn splitmix(state: &mut u64) -> u64 {
    *state = state.wrapping_add(0x9E37_79B9_7F4A_7C15);
    let mut z = *state;
    z = (z ^ (z >> 30)).wrapping_mul(0xBF58_476D_1CE4_E5B9);
    z = (z ^ (z >> 27)).wrapping_mul(0x94D0_49BB_1331_11EB);
    z ^ (z >> 31)
}

#[test]
fn incremental_equals_full_recompute_over_random_stream() {
    let amount = 1u32;
    let approved = 2u32;
    let subjects: Vec<NodeId> = (1..=20).collect();

    let mut eng = Engine::new(1 << 20);
    eng.materialize();
    let mut maintained = Maintained::new(
        Toy {
            amount,
            approved,
            subjects: subjects.clone(),
        },
        &eng.snapshot(),
    );
    let oracle = Toy {
        amount,
        approved,
        subjects: subjects.clone(),
    };

    let mut rng = 0x1234_5678_9abc_def0u64;
    for _ in 0..3000 {
        let s = 1 + (splitmix(&mut rng) % 20);
        match splitmix(&mut rng) % 3 {
            0 => {
                let v = (splitmix(&mut rng) % 20) as i64;
                eng.write(
                    0,
                    WriteKind::SetOne {
                        subject: s,
                        predicate: amount,
                        object: ObjKey::Int(v),
                        valid_from: 0,
                        valid_to: None,
                    },
                )
                .unwrap();
            }
            1 => {
                eng.write(
                    0,
                    WriteKind::AddMany {
                        subject: s,
                        predicate: approved,
                        object: ObjKey::Node(100),
                        valid_from: 0,
                        valid_to: None,
                    },
                )
                .unwrap();
            }
            _ => {
                // the engine resolves observed OR-Set tags itself (diff-reflection resolver)
                let _ = eng.retract_edge(0, s, approved, ObjKey::Node(100)).unwrap();
            }
        }
        let touched = eng.materialize_tracked();
        let snap = eng.snapshot();
        maintained.apply(&snap, &touched);
        // the invariant: keyed-incremental maintenance == full recompute, after every event
        assert_eq!(maintained.gaps(), &oracle.seed(&snap));
    }
}

#[test]
fn conformance_maintenance_equals_full_eval_over_random_stream() {
    // The full approval-shaped rule (scope + 3-hop as-of required path +
    // absent_when) over a churning graph: assignments and approvals flip, departments and
    // managers transfer with valid-time (late-arriving corrections included), approvals get
    // closed, statuses change, and fresh nodes enter the subject type mid-stream.
    let mut cat = Catalog::new();
    let issue = cat.register_type("Issue");
    let person = cat.register_type("Person");
    let dept = cat.register_type("Department");
    let d = RelProps::default();
    let issue_type = cat.register_predicate(
        "issue-type",
        Cardinality::One,
        d,
        issue,
        Range::Value(ValueType::Text),
    );
    let assigned_to = cat.register_predicate(
        "assigned-to",
        Cardinality::One,
        d,
        issue,
        Range::Type(person),
    );
    let member_of =
        cat.register_predicate("member-of", Cardinality::One, d, person, Range::Type(dept));
    let manager_of =
        cat.register_predicate("manager-of", Cardinality::One, d, dept, Range::Type(person));
    let approved_by = cat.register_predicate(
        "approved-by",
        Cardinality::One,
        d,
        issue,
        Range::Type(person),
    );
    let approved_at = cat.register_predicate(
        "approved-at",
        Cardinality::One,
        d,
        issue,
        Range::Value(ValueType::Int),
    );
    let status = cat.register_predicate(
        "status",
        Cardinality::One,
        d,
        issue,
        Range::Value(ValueType::Text),
    );
    let text = |s: &str| ObjKey::Text(s.to_string());
    let rule = Rule {
        subject_type: "Issue".into(),
        scope: Some(Cond {
            predicate: "issue-type".into(),
            equals: text("release"),
        }),
        required: vec![
            Hop {
                predicate: "assigned-to".into(),
                as_of: None,
            },
            Hop {
                predicate: "member-of".into(),
                as_of: None,
            },
            Hop {
                predicate: "manager-of".into(),
                as_of: Some("approved-at".into()),
            },
        ],
        actual: "approved-by".into(),
        absent_when: Some(Cond {
            predicate: "status".into(),
            equals: text("released"),
        }),
    };

    let persons: Vec<NodeId> = (1..=6).collect();
    let depts = [100u64, 101];
    let issues: Vec<NodeId> = (1000..1012).collect();

    let mut eng = Engine::new(1 << 20);
    for &p in &persons {
        eng.write(
            0,
            WriteKind::SetNodeType {
                node: p,
                type_id: person,
            },
        )
        .unwrap();
    }
    for &dp in &depts {
        eng.write(
            0,
            WriteKind::SetNodeType {
                node: dp,
                type_id: dept,
            },
        )
        .unwrap();
    }
    // half the issues exist up front; the rest enter the subject type mid-stream
    for &i in &issues[..6] {
        eng.write(
            0,
            WriteKind::SetNodeType {
                node: i,
                type_id: issue,
            },
        )
        .unwrap();
    }
    eng.materialize();
    let mut maintained = MaintainedConformance::new(rule.clone(), &eng.snapshot(), &cat);

    let full = |snap: &Snapshot| -> OrdMap<NodeId, Verdict> {
        let mut out = OrdMap::new();
        for v in evaluate(snap, &cat, &rule, u32::MAX) {
            out.insert(v.subject, v);
        }
        out
    };

    let set_one = |s: NodeId, p: FieldId, o: ObjKey, vf: i64| WriteKind::SetOne {
        subject: s,
        predicate: p,
        object: o,
        valid_from: vf,
        valid_to: None,
    };
    let mut rng = 0xfeed_beef_dead_c0deu64;
    for step in 0..2500u64 {
        let pick = |r: u64, xs: &[u64]| xs[(r % xs.len() as u64) as usize];
        let i = pick(splitmix(&mut rng), &issues);
        let p = pick(splitmix(&mut rng), &persons);
        let dp = pick(splitmix(&mut rng), &depts);
        let vf = (splitmix(&mut rng) % 10_000) as i64; // late arrivals: earlier vf, later write
        let kind = match splitmix(&mut rng) % 9 {
            0 => set_one(
                i,
                issue_type,
                text(if splitmix(&mut rng).is_multiple_of(2) {
                    "release"
                } else {
                    "task"
                }),
                0,
            ),
            1 => set_one(i, assigned_to, ObjKey::Node(p), 0),
            2 => set_one(i, approved_by, ObjKey::Node(p), vf),
            3 => set_one(i, approved_at, ObjKey::Int(vf), 0),
            4 => set_one(
                i,
                status,
                text(if splitmix(&mut rng).is_multiple_of(2) {
                    "released"
                } else {
                    "open"
                }),
                0,
            ),
            5 => set_one(p, member_of, ObjKey::Node(dp), vf),
            6 => set_one(dp, manager_of, ObjKey::Node(p), vf),
            7 => WriteKind::CloseOne {
                subject: i,
                predicate: approved_by,
                valid_from: vf,
            },
            _ => WriteKind::SetNodeType {
                node: pick(splitmix(&mut rng), &issues[6..]),
                type_id: issue,
            },
        };
        eng.write(0, kind).unwrap();
        let (keys, nodes) = eng.materialize_tracked_with_nodes();
        let snap = eng.snapshot();
        let diffs = maintained.apply(&snap, &cat, &keys, &nodes);
        // the invariant: keyed-incremental maintenance == full evaluation, after every event
        assert_eq!(
            maintained.verdicts(),
            &full(&snap),
            "diverged at step {step} (diffs that round: {diffs:?})"
        );
    }
}

#[test]
fn the_diffs_are_the_subjects_whose_verdict_changed() {
    let mut cat = Catalog::new();
    let doc = cat.register_type("Doc");
    let person = cat.register_type("Person");
    let d = RelProps::default();
    let owner = cat.register_predicate("owner", Cardinality::One, d, doc, Range::Type(person));
    let by = cat.register_predicate("by", Cardinality::One, d, doc, Range::Type(person));
    let rule = Rule {
        subject_type: "Doc".into(),
        scope: None,
        required: vec![Hop { predicate: "owner".into(), as_of: None }],
        actual: "by".into(),
        absent_when: None,
    };
    let set = |s: NodeId, p: FieldId, o: NodeId| WriteKind::SetOne {
        subject: s,
        predicate: p,
        object: ObjKey::Node(o),
        valid_from: 0,
        valid_to: None,
    };
    let mut eng = Engine::new(1 << 10);
    for n in 1..=3 {
        eng.write(0, WriteKind::SetNodeType { node: n, type_id: doc }).unwrap();
        eng.write(0, set(n, owner, 10)).unwrap();
        eng.write(0, set(n, by, 10)).unwrap();
    }
    eng.materialize();
    let old_full = evaluate(&eng.snapshot(), &cat, &rule, u32::MAX);
    let mut m = MaintainedConformance::new(rule.clone(), &eng.snapshot(), &cat);
    // 3 and 1 change, 2 is written the same again, 4 enters
    eng.write(0, set(3, by, 11)).unwrap();
    eng.write(0, set(1, owner, 12)).unwrap();
    eng.write(0, set(2, by, 10)).unwrap();
    eng.write(0, WriteKind::SetNodeType { node: 4, type_id: doc }).unwrap();
    let (keys, nodes) = eng.materialize_tracked_with_nodes();
    let diffs = m.apply(&eng.snapshot(), &cat, &keys, &nodes);
    let new_full = evaluate(&eng.snapshot(), &cat, &rule, u32::MAX);
    let at = |vs: &[Verdict], s: NodeId| vs.iter().find(|v| v.subject == s).cloned();
    let subjects: Vec<NodeId> = diffs.iter().map(|x| x.subject).collect();
    assert_eq!(subjects, vec![1, 3, 4]);
    for x in &diffs {
        assert_eq!(x.old, at(&old_full, x.subject));
        assert_eq!(x.new, at(&new_full, x.subject));
        assert_ne!(x.old, x.new);
    }
    assert_eq!(at(&old_full, 2), at(&new_full, 2));
    // a type that has no name has no verdicts
    let mut other = rule;
    other.subject_type = "Memo".into();
    assert!(evaluate(&eng.snapshot(), &cat, &other, u32::MAX).is_empty());
    let mut none = MaintainedConformance::new(other, &eng.snapshot(), &cat);
    assert!(none.verdicts().is_empty());
    assert!(none.apply(&eng.snapshot(), &cat, &keys, &nodes).is_empty());
    assert!(none.verdicts().is_empty());
}
