//! Object identities and write order keys, both totally ordered.
use crate::fact::{FieldId, Object, Value};
use crate::order::{text_before, Dup, Key};
use vstd::prelude::*;

verus! {

/// The identity of an object: the value or edge target that an operation refers to. A float is its
/// raw bits, so that the order is total.
#[derive(Clone, Debug, PartialEq, Eq, PartialOrd, Ord, Hash)]
pub enum ObjKey {
    Node(u64),
    Int(i64),
    Float(u64),
    Text(String),
    Bool(bool),
}

/// The model of an [`ObjKey`]: a text is its characters.
pub enum ObjModel {
    Node(u64),
    Int(i64),
    Float(u64),
    Text(Seq<char>),
    Bool(bool),
}

impl DeepView for ObjKey {
    type V = ObjModel;

    open spec fn deep_view(&self) -> ObjModel {
        match self {
            ObjKey::Node(n) => ObjModel::Node(*n),
            ObjKey::Int(i) => ObjModel::Int(*i),
            ObjKey::Float(b) => ObjModel::Float(*b),
            ObjKey::Text(t) => ObjModel::Text(t@),
            ObjKey::Bool(b) => ObjModel::Bool(*b),
        }
    }
}

impl View for ObjKey {
    type V = ObjModel;

    open spec fn view(&self) -> ObjModel {
        self.deep_view()
    }
}

/// The identity of a fact's object.
pub open spec fn object_model(o: Object) -> ObjModel {
    match o {
        Object::Node(n) => ObjModel::Node(n),
        Object::Value(Value::Int(i)) => ObjModel::Int(i),
        Object::Value(Value::Float(b)) => ObjModel::Float(b),
        Object::Value(Value::Text(t)) => ObjModel::Text(t@),
        Object::Value(Value::Bool(b)) => ObjModel::Bool(b),
    }
}

impl ObjKey {
    /// The identity of `o`.
    pub fn of(o: &Object) -> (r: Self)
        ensures
            r@ == object_model(*o),
    {
        match o {
            Object::Node(n) => ObjKey::Node(*n),
            Object::Value(Value::Int(i)) => ObjKey::Int(*i),
            Object::Value(Value::Float(b)) => ObjKey::Float(*b),
            Object::Value(Value::Text(t)) => ObjKey::Text(t.clone()),
            Object::Value(Value::Bool(b)) => ObjKey::Bool(*b),
        }
    }
}

/// The place of a variant in the order: nodes, integers, floats, texts, then booleans.
pub open spec fn obj_rank(o: ObjModel) -> int {
    match o {
        ObjModel::Node(_) => 0,
        ObjModel::Int(_) => 1,
        ObjModel::Float(_) => 2,
        ObjModel::Text(_) => 3,
        ObjModel::Bool(_) => 4,
    }
}

impl Dup for ObjKey {
    fn dup(&self) -> (r: Self) {
        match self {
            ObjKey::Node(n) => ObjKey::Node(*n),
            ObjKey::Int(i) => ObjKey::Int(*i),
            ObjKey::Float(b) => ObjKey::Float(*b),
            ObjKey::Text(t) => ObjKey::Text(t.clone()),
            ObjKey::Bool(b) => ObjKey::Bool(*b),
        }
    }
}

fn rank_of(o: &ObjKey) -> (r: u8)
    ensures
        r == obj_rank(o@),
{
    match o {
        ObjKey::Node(_) => 0,
        ObjKey::Int(_) => 1,
        ObjKey::Float(_) => 2,
        ObjKey::Text(_) => 3,
        ObjKey::Bool(_) => 4,
    }
}

/// Objects are ordered by variant, then by content.
impl Key for ObjKey {
    open spec fn before(a: ObjModel, b: ObjModel) -> bool {
        match (a, b) {
            (ObjModel::Node(x), ObjModel::Node(y)) => x < y,
            (ObjModel::Int(x), ObjModel::Int(y)) => x < y,
            (ObjModel::Float(x), ObjModel::Float(y)) => x < y,
            (ObjModel::Text(x), ObjModel::Text(y)) => text_before(x, y),
            (ObjModel::Bool(x), ObjModel::Bool(y)) => !x && y,
            _ => obj_rank(a) < obj_rank(b),
        }
    }

    proof fn before_irreflexive(a: ObjModel) {
        if let ObjModel::Text(x) = a {
            String::before_irreflexive(x);
        }
    }

    proof fn before_transitive(a: ObjModel, b: ObjModel, c: ObjModel) {
        if let (ObjModel::Text(x), ObjModel::Text(y), ObjModel::Text(z)) = (a, b, c) {
            String::before_transitive(x, y, z);
        }
    }

    proof fn before_total(a: ObjModel, b: ObjModel) {
        if let (ObjModel::Text(x), ObjModel::Text(y)) = (a, b) {
            String::before_total(x, y);
        }
    }

    fn precedes(&self, other: &Self) -> (r: bool) {
        match (self, other) {
            (ObjKey::Node(x), ObjKey::Node(y)) => *x < *y,
            (ObjKey::Int(x), ObjKey::Int(y)) => *x < *y,
            (ObjKey::Float(x), ObjKey::Float(y)) => *x < *y,
            (ObjKey::Text(x), ObjKey::Text(y)) => x.precedes(y),
            (ObjKey::Bool(x), ObjKey::Bool(y)) => !*x && *y,
            _ => rank_of(self) < rank_of(other),
        }
    }

    fn same(&self, other: &Self) -> (r: bool) {
        match (self, other) {
            (ObjKey::Node(x), ObjKey::Node(y)) => *x == *y,
            (ObjKey::Int(x), ObjKey::Int(y)) => *x == *y,
            (ObjKey::Float(x), ObjKey::Float(y)) => *x == *y,
            (ObjKey::Text(x), ObjKey::Text(y)) => x.same(y),
            (ObjKey::Bool(x), ObjKey::Bool(y)) => *x == *y,
            _ => false,
        }
    }
}

/// The total order over competing writes: transaction time, then source, then sequence number.
/// `(source, seq)` must be unique per write, else the winner among equal keys is ambiguous.
#[derive(Clone, Copy, PartialEq, Eq, Structural, PartialOrd, Ord, Hash, Debug)]
pub struct OrderKey {
    pub tx: u64,
    pub source: FieldId,
    pub seq: u64,
}

impl DeepView for OrderKey {
    type V = OrderKey;

    open spec fn deep_view(&self) -> OrderKey {
        *self
    }
}

/// `a` is strictly older than `b`.
pub open spec fn older(a: OrderKey, b: OrderKey) -> bool {
    a.tx < b.tx || (a.tx == b.tx && (a.source < b.source || (a.source == b.source && a.seq
        < b.seq)))
}

impl Dup for OrderKey {
    fn dup(&self) -> (r: Self) {
        *self
    }
}

impl Key for OrderKey {
    open spec fn before(a: OrderKey, b: OrderKey) -> bool {
        older(a, b)
    }

    proof fn before_irreflexive(a: OrderKey) {
    }

    proof fn before_transitive(a: OrderKey, b: OrderKey, c: OrderKey) {
    }

    proof fn before_total(a: OrderKey, b: OrderKey) {
    }

    fn precedes(&self, other: &Self) -> (r: bool) {
        self.tx < other.tx || (self.tx == other.tx && (self.source < other.source || (self.source
            == other.source && self.seq < other.seq)))
    }

    fn same(&self, other: &Self) -> (r: bool) {
        *self == *other
    }
}

/// Writes are ordered by transaction first, then by source, then by sequence number.
pub proof fn law_write_order(a: OrderKey, b: OrderKey)
    ensures
        a.tx < b.tx ==> older(a, b),
        a.tx == b.tx && a.source < b.source ==> older(a, b),
        a.tx == b.tx && a.source == b.source && a.seq < b.seq ==> older(a, b),
        older(a, b) ==> !older(b, a) && a != b,
        a != b ==> older(a, b) || older(b, a),
{
}

/// Objects are ordered by what they are: nodes, then integers, floats, texts and booleans; within each
/// by content, false before true.
pub proof fn law_object_order(n: u64, m: u64, i: i64, j: i64, f: u64, g: u64, t: Seq<char>, b: bool)
    ensures
        ObjKey::before(ObjModel::Node(n), ObjModel::Int(i)),
        ObjKey::before(ObjModel::Int(i), ObjModel::Float(f)),
        ObjKey::before(ObjModel::Float(f), ObjModel::Text(t)),
        ObjKey::before(ObjModel::Text(t), ObjModel::Bool(b)),
        ObjKey::before(ObjModel::Node(n), ObjModel::Node(m)) <==> n < m,
        ObjKey::before(ObjModel::Int(i), ObjModel::Int(j)) <==> i < j,
        ObjKey::before(ObjModel::Float(f), ObjModel::Float(g)) <==> f < g,
        ObjKey::before(ObjModel::Bool(false), ObjModel::Bool(true)),
{
}

/// The identity of a fact's object tells apart what it is: a node from a number of the same value, and
/// a text, an integer, a float and a boolean from each other.
pub proof fn law_object_identity(o: Object)
    ensures
        object_model(o) is Node <==> o is Node,
        object_model(o) is Node ==> object_model(o)->Node_0 == o->Node_0,
        object_model(o) is Int <==> o is Value && o->Value_0 is Int,
        object_model(o) is Float <==> o is Value && o->Value_0 is Float,
        object_model(o) is Text <==> o is Value && o->Value_0 is Text,
        object_model(o) is Bool <==> o is Value && o->Value_0 is Bool,
        object_model(o) is Int ==> object_model(o)->Int_0 == (o->Value_0)->Int_0,
        object_model(o) is Float ==> object_model(o)->Float_0 == (o->Value_0)->Float_0,
        object_model(o) is Text ==> object_model(o)->Text_0 == (o->Value_0)->Text_0@,
        object_model(o) is Bool ==> object_model(o)->Bool_0 == (o->Value_0)->Bool_0,
{
}

} // verus!
