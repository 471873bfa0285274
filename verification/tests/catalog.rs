//! The ontology and its constraints.
use stromadb::catalog::{Cardinality, Catalog, ConstraintError, Range, RelProps};
use stromadb::fact::{Fact, FieldId, Object, Provenance, ProvenanceKind, ValidTime, Value};

fn fact(subject: u64, predicate: FieldId, object: Object) -> Fact {
    Fact {
        subject,
        predicate,
        object,
        valid_time: ValidTime::from(0),
        transaction_time: 0,
        provenance: Provenance {
            kind: ProvenanceKind::Asserted,
            source: 0,
        },
        confidence: 1.0f32.to_bits(),
    }
}

fn reference_catalog() -> (Catalog, FieldId, FieldId, FieldId) {
    let mut c = Catalog::new();
    let person = c.register_type("Person");
    let skill = c.register_type("Skill");
    let project = c.register_type("Project");
    // has-skill: Person -> Skill (many); member-of: Person -> Project (one)
    c.register_predicate(
        "has-skill",
        Cardinality::Many,
        RelProps::default(),
        person,
        Range::Type(skill),
    );
    c.register_predicate(
        "member-of",
        Cardinality::One,
        RelProps::default(),
        person,
        Range::Type(project),
    );
    (c, person, skill, project)
}

#[test]
fn intern_is_stable() {
    let mut c = Catalog::new();
    let a = c.register_type("Person");
    let b = c.register_type("Person");
    assert_eq!(a, b);
    assert_eq!(c.field_id("Person"), Some(a));
    assert_eq!(c.name(a), Some("Person"));
}

#[test]
fn predicate_registration_carries_cardinality() {
    let (c, _, _, _) = reference_catalog();
    let hs = c.field_id("has-skill").unwrap();
    assert_eq!(c.predicate(hs).unwrap().cardinality, Cardinality::Many);
    let mo = c.field_id("member-of").unwrap();
    assert_eq!(c.predicate(mo).unwrap().cardinality, Cardinality::One);
}

#[test]
fn valid_fact_passes() {
    let (mut c, person, skill, _) = reference_catalog();
    let alice = 1u64;
    let rust = 2u64;
    c.set_node_type(alice, person);
    c.set_node_type(rust, skill);
    let hs = c.field_id("has-skill").unwrap();
    assert_eq!(c.validate(&fact(alice, hs, Object::Node(rust))), Ok(()));
}

#[test]
fn unknown_predicate_rejected() {
    let (c, _, _, _) = reference_catalog();
    assert_eq!(
        c.validate(&fact(1, 999, Object::Node(2))),
        Err(ConstraintError::UnknownPredicate(999))
    );
}

#[test]
fn domain_mismatch_rejected() {
    let (mut c, _person, skill, _) = reference_catalog();
    let n = 1u64;
    c.set_node_type(n, skill); // subject typed Skill, but has-skill domain is Person
    let hs = c.field_id("has-skill").unwrap();
    let person = c.field_id("Person").unwrap();
    assert_eq!(
        c.validate(&fact(n, hs, Object::Node(2))),
        Err(ConstraintError::DomainMismatch {
            expected: person,
            got: skill
        })
    );
}

#[test]
fn range_type_mismatch_rejected() {
    let (mut c, person, _skill, project) = reference_catalog();
    let alice = 1u64;
    let proj = 2u64;
    c.set_node_type(alice, person);
    c.set_node_type(proj, project); // object is a Project, but has-skill range is Skill
    let hs = c.field_id("has-skill").unwrap();
    let skill = c.field_id("Skill").unwrap();
    assert_eq!(
        c.validate(&fact(alice, hs, Object::Node(proj))),
        Err(ConstraintError::RangeTypeMismatch {
            expected: skill,
            got: project
        })
    );
}

#[test]
fn value_object_for_type_range_rejected() {
    let (mut c, person, _, _) = reference_catalog();
    let alice = 1u64;
    c.set_node_type(alice, person);
    let hs = c.field_id("has-skill").unwrap();
    assert_eq!(
        c.validate(&fact(alice, hs, Object::Value(Value::Int(3)))),
        Err(ConstraintError::ExpectedNodeObject)
    );
}

#[test]
fn nodes_labels_and_display_are_kept() {
    let (mut c, person, skill, _) = reference_catalog();
    let hs = c.field_id("has-skill").unwrap();
    assert!(!c.predicate(hs).unwrap().display);
    c.set_display(hs, true);
    assert!(c.predicate(hs).unwrap().display);
    c.set_node_type(5, person);
    c.set_node_type(2, skill);
    c.set_node_label(9, 4);
    c.set_node_label(2, 1);
    assert_eq!(c.node_ids(), vec![2, 5, 9]);
    assert_eq!(c.labels_in_use(), vec![1, 4]);
    assert_eq!((c.node_type(5), c.node_type(9)), (Some(person), None));
    assert_eq!((c.node_label(9), c.node_label(5)), (Some(4), None));
    assert_eq!(c.types_len(), 3);
    assert_eq!(c.predicates().len(), 2);
    let id = c.intern_ref("nickname");
    assert_eq!(c.name(id), Some("nickname"));
    assert_eq!(c.name(9999), None);
}

#[test]
fn a_value_range_takes_values_of_its_type() {
    let (mut c, person, _, _) = reference_catalog();
    let age = c.register_predicate(
        "age",
        Cardinality::One,
        RelProps::default(),
        person,
        Range::Value(stromadb::catalog::ValueType::Int),
    );
    c.set_node_type(1, person);
    assert_eq!(c.validate(&fact(1, age, Object::Value(Value::Int(3)))), Ok(()));
    assert!(c.validate(&fact(1, age, Object::Value(Value::Bool(true)))).is_err());
    assert!(c.validate(&fact(1, age, Object::Node(2))).is_err());
}
