//! Facts: a subject, a predicate and an object, with valid time and provenance.
use vstd::prelude::*;

verus! {

/// The id of an interned name: a predicate, an entity type or a provenance source.
pub type FieldId = u32;

/// A node's id.
pub type NodeId = u64;

/// What a fact points at: another node, or a value.
#[derive(Clone, Debug, PartialEq)]
pub enum Object {
    /// Another node.
    Node(NodeId),
    /// A literal value.
    Value(Value),
}

/// A literal value. A floating-point value is held as its IEEE 754 bits.
#[derive(Clone, Debug, PartialEq)]
pub enum Value {
    Int(i64),
    Float(u64),
    Text(String),
    Bool(bool),
}

/// The interval `[from, to)` in which a fact holds; `to = None` leaves it open.
#[derive(Clone, Copy, Debug, PartialEq, Eq, Structural)]
pub struct ValidTime {
    pub from: i64,
    pub to: Option<i64>,
}

impl ValidTime {
    /// The interval that starts at `t` and has no end.
    pub fn from(t: i64) -> (r: Self)
        ensures
            r.from == t,
            r.to is None,
    {
        ValidTime { from: t, to: None }
    }
}

/// Whether a fact is a primary assertion or a derived value.
#[derive(Clone, Copy, Debug, PartialEq, Eq, Structural)]
pub enum ProvenanceKind {
    Asserted,
    Derived,
}

/// Who asserted a fact, and how.
#[derive(Clone, Copy, Debug, PartialEq, Eq, Structural)]
pub struct Provenance {
    pub kind: ProvenanceKind,
    pub source: FieldId,
}

/// A fact. `transaction_time` is 0 until the changelog assigns it on append. The confidence is held as its IEEE 754 single-precision bits.
#[derive(Clone, Debug, PartialEq)]
pub struct Fact {
    pub subject: NodeId,
    pub predicate: FieldId,
    pub object: Object,
    pub valid_time: ValidTime,
    pub transaction_time: u64,
    pub provenance: Provenance,
    pub confidence: u32,
}

} // verus!
