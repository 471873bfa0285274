//! The type catalog: interned names, predicate and type definitions, node types and labels, and
//! the minimal validation of a fact at the ingest boundary.
use crate::fact::{Fact, FieldId, NodeId, Object, Value};
use crate::order::Dup;
use crate::ordmap::{lemma_key_row, lemma_row, row_of, sorted_items, sorted_rows, OrdMap, OrdSet};
use vstd::prelude::*;

verus! {

/// How many objects a predicate has per subject: `One` supersedes, `Many` accumulates.
#[derive(Clone, Copy, Debug, PartialEq, Eq, Structural)]
pub enum Cardinality {
    One,
    Many,
}

/// Relationship properties, expanded at query time.
#[derive(Clone, Copy, Debug, PartialEq, Eq, Structural)]
pub struct RelProps {
    pub symmetric: bool,
    pub transitive: bool,
    pub inverse: Option<FieldId>,
}

impl Default for RelProps {
    fn default() -> (r: Self)
        ensures
            r == (RelProps { symmetric: false, transitive: false, inverse: None }),
    {
        RelProps { symmetric: false, transitive: false, inverse: None }
    }
}

/// The type of a literal value.
#[derive(Clone, Copy, Debug, PartialEq, Eq, Structural)]
pub enum ValueType {
    Int,
    Float,
    Text,
    Bool,
}

/// What a predicate points at: nodes of an entity type, or literal values.
#[derive(Clone, Copy, Debug, PartialEq, Eq, Structural)]
pub enum Range {
    Type(FieldId),
    Value(ValueType),
}

/// A registered predicate.
#[derive(Clone, Copy, Debug, PartialEq, Eq, Structural)]
pub struct PredicateDef {
    pub id: FieldId,
    pub cardinality: Cardinality,
    pub props: RelProps,
    /// The entity type of the subject.
    pub domain: FieldId,
    pub range: Range,
    /// Whether the predicate's text labels its subject in graph views.
    pub display: bool,
}

impl DeepView for PredicateDef {
    type V = PredicateDef;

    open spec fn deep_view(&self) -> PredicateDef {
        *self
    }
}

impl Dup for PredicateDef {
    fn dup(&self) -> (r: Self) {
        *self
    }
}

/// Why a fact was refused.
#[derive(Clone, Copy, Debug, PartialEq, Eq, Structural)]
pub enum ConstraintError {
    UnknownPredicate(FieldId),
    DomainMismatch { expected: FieldId, got: FieldId },
    RangeTypeMismatch { expected: FieldId, got: FieldId },
    RangeValueMismatch { expected: ValueType, got: ValueType },
    ExpectedNodeObject,
    ExpectedValueObject,
}

/// Names are distinct and their ids are their positions.
pub open spec fn interns(by_name: Map<Seq<char>, u32>, names: Seq<Seq<char>>) -> bool {
    &&& names.len() <= 0x1_0000_0000
    &&& forall|n: Seq<char>| #[trigger]
        by_name.contains_key(n) ==> by_name[n] < names.len() && names[by_name[n] as int] == n
    &&& forall|i: int|
        0 <= i < names.len() ==> by_name.contains_key(#[trigger] names[i]) && by_name[names[i]] == i
}

/// Interned names.
#[derive(Clone)]
struct Interner {
    by_name: OrdMap<String, FieldId>,
    names: Vec<String>,
}

impl Interner {
    spec fn ok(&self) -> bool {
        interns(self.by_name@, self.names.deep_view())
    }

    fn intern(&mut self, name: &str) -> (id: FieldId)
        requires
            old(self).ok(),
            old(self).names.deep_view().contains(name@) || old(self).names.len() <= u32::MAX,
        ensures
            final(self).ok(),
            final(self).names.deep_view() == interned(old(self).names.deep_view(), name@),
            id == name_id(old(self).names.deep_view(), name@),
    {
        let key = name.to_owned();
        let ghost names = self.names.deep_view();
        if let Some(id) = self.by_name.get(&key) {
            proof {
                lemma_name_id(self.by_name@, names, name@);
            }
            return *id;
        }
        proof {
            if names.contains(name@) {
                let i = choose|i: int| 0 <= i < names.len() && names[i] == name@;
                assert(self.by_name@.contains_key(names[i]));
            }
        }
        let id: FieldId = self.names.len() as FieldId;
        let ghost by0 = self.by_name@;
        self.names.push(name.to_owned());
        self.by_name.insert(key, id);
        proof {
            let after = self.names.deep_view();
            assert(after =~= names.push(name@));
            let by = self.by_name@;
            assert forall|n: Seq<char>| #[trigger] by.contains_key(n) implies by[n] < after.len()
                && after[by[n] as int] == n by {
                if n != name@ {
                    assert(by0.contains_key(n));
                }
            }
            assert forall|i: int| 0 <= i < after.len() implies by.contains_key(
                #[trigger] after[i],
            ) && by[after[i]] == i by {
                if i < names.len() {
                    assert(by0.contains_key(names[i]));
                    assert(names[i] != name@);
                }
            }
        }
        id
    }

    fn get(&self, name: &str) -> (r: Option<FieldId>)
        requires
            self.ok(),
        ensures
            r == lookup(self.names.deep_view(), name@),
    {
        let key = name.to_owned();
        match self.by_name.get(&key) {
            Some(id) => {
                proof {
                    lemma_name_id(self.by_name@, self.names.deep_view(), name@);
                }
                Some(*id)
            },
            None => {
                proof {
                    let names = self.names.deep_view();
                    if names.contains(name@) {
                        let i = choose|i: int| 0 <= i < names.len() && names[i] == name@;
                        assert(self.by_name@.contains_key(names[i]));
                    }
                }
                None
            },
        }
    }
}

/// Distinct names have distinct ids, so a name's id is its position.
proof fn lemma_name_id(by_name: Map<Seq<char>, u32>, names: Seq<Seq<char>>, name: Seq<char>)
    requires
        interns(by_name, names),
        by_name.contains_key(name),
    ensures
        names.contains(name),
        name_id(names, name) == by_name[name],
        interned(names, name) == names,
{
    let i = by_name[name] as int;
    assert(names[i] == name);
    assert(names.contains(name));
    let j = names.index_of(name);
    assert(0 <= j < names.len() && names[j] == name);
    assert(by_name[names[j]] == j);
}

/// The names after interning `name`: a known name changes nothing, a new one is appended.
pub open spec fn interned(names: Seq<Seq<char>>, name: Seq<char>) -> Seq<Seq<char>> {
    if names.contains(name) {
        names
    } else {
        names.push(name)
    }
}

/// The id that interning `name` gives.
pub open spec fn name_id(names: Seq<Seq<char>>, name: Seq<char>) -> int {
    if names.contains(name) {
        names.index_of(name)
    } else {
        names.len() as int
    }
}

/// The id of an interned name.
pub open spec fn lookup(names: Seq<Seq<char>>, name: Seq<char>) -> Option<u32> {
    if names.contains(name) {
        Some(names.index_of(name) as u32)
    } else {
        None
    }
}

/// The model of a [`Catalog`].
pub struct CatalogModel {
    /// The interned names; a name's id is its position.
    pub names: Seq<Seq<char>>,
    pub types: Set<FieldId>,
    pub predicates: Map<FieldId, PredicateDef>,
    pub node_types: Map<NodeId, FieldId>,
    pub node_labels: Map<NodeId, u8>,
}

/// The value type of a literal.
pub open spec fn value_type_of(v: Value) -> ValueType {
    match v {
        Value::Int(_) => ValueType::Int,
        Value::Float(_) => ValueType::Float,
        Value::Text(_) => ValueType::Text,
        Value::Bool(_) => ValueType::Bool,
    }
}

fn value_type(v: &Value) -> (r: ValueType)
    ensures
        r == value_type_of(*v),
{
    match v {
        Value::Int(_) => ValueType::Int,
        Value::Float(_) => ValueType::Float,
        Value::Text(_) => ValueType::Text,
        Value::Bool(_) => ValueType::Bool,
    }
}

/// The verdict on a fact: the predicate must exist, a typed subject must be of its domain, and the
/// object must fit its range, a typed node by its type.
pub open spec fn verdict(c: CatalogModel, f: Fact) -> Result<(), ConstraintError> {
    if !c.predicates.contains_key(f.predicate) {
        Err(ConstraintError::UnknownPredicate(f.predicate))
    } else {
        let p = c.predicates[f.predicate];
        if c.node_types.contains_key(f.subject) && c.node_types[f.subject] != p.domain {
            Err(
                ConstraintError::DomainMismatch {
                    expected: p.domain,
                    got: c.node_types[f.subject],
                },
            )
        } else {
            match (p.range, f.object) {
                (Range::Type(t), Object::Node(n)) => if c.node_types.contains_key(n)
                    && c.node_types[n] != t {
                    Err(ConstraintError::RangeTypeMismatch { expected: t, got: c.node_types[n] })
                } else {
                    Ok(())
                },
                (Range::Type(_), Object::Value(_)) => Err(ConstraintError::ExpectedNodeObject),
                (Range::Value(t), Object::Value(v)) => if value_type_of(v) != t {
                    Err(
                        ConstraintError::RangeValueMismatch { expected: t, got: value_type_of(v) },
                    )
                } else {
                    Ok(())
                },
                (Range::Value(_), Object::Node(_)) => Err(ConstraintError::ExpectedValueObject),
            }
        }
    }
}

/// The type catalog.
#[derive(Clone)]
pub struct Catalog {
    interner: Interner,
    types: OrdSet<FieldId>,
    predicates: OrdMap<FieldId, PredicateDef>,
    node_types: OrdMap<NodeId, FieldId>,
    node_labels: OrdMap<NodeId, u8>,
}

impl View for Catalog {
    type V = CatalogModel;

    closed spec fn view(&self) -> CatalogModel {
        CatalogModel {
            names: self.interner.names.deep_view(),
            types: self.types@,
            predicates: self.predicates@,
            node_types: self.node_types@,
            node_labels: self.node_labels@,
        }
    }
}

impl Default for Catalog {
    fn default() -> (r: Self)
        ensures
            r.wf(),
            r@.names == Seq::<Seq<char>>::empty(),
            r@.types == Set::<FieldId>::empty(),
            r@.predicates == Map::<FieldId, PredicateDef>::empty(),
            r@.node_types == Map::<NodeId, FieldId>::empty(),
            r@.node_labels == Map::<NodeId, u8>::empty(),
    {
        Catalog::new()
    }
}

impl Catalog {
    /// The names are interned consistently.
    pub closed spec fn wf(&self) -> bool {
        self.interner.ok()
    }

    /// No name is interned twice.
    pub proof fn law_names_distinct(&self)
        requires
            self.wf(),
        ensures
            self@.names.no_duplicates(),
    {
        let names = self.interner.names.deep_view();
        let by = self.interner.by_name@;
        assert forall|i: int, j: int|
            0 <= i < names.len() && 0 <= j < names.len() && i != j implies names[i]
            != names[j] by {
            assert(by[names[i]] == i);
            assert(by[names[j]] == j);
        }
    }

    /// The empty catalog.
    pub fn new() -> (r: Self)
        ensures
            r.wf(),
            r@.names == Seq::<Seq<char>>::empty(),
            r@.types == Set::<FieldId>::empty(),
            r@.predicates == Map::<FieldId, PredicateDef>::empty(),
            r@.node_types == Map::<NodeId, FieldId>::empty(),
            r@.node_labels == Map::<NodeId, u8>::empty(),
    {
        let r = Catalog {
            interner: Interner { by_name: OrdMap::new(), names: Vec::new() },
            types: OrdSet::new(),
            predicates: OrdMap::new(),
            node_types: OrdMap::new(),
            node_labels: OrdMap::new(),
        };
        assert(r@.names =~= Seq::<Seq<char>>::empty());
        r
    }

    /// Register an entity type, or look it up, by name.
    pub fn register_type(&mut self, name: &str) -> (id: FieldId)
        requires
            old(self).wf(),
            old(self)@.names.contains(name@) || old(self)@.names.len() <= u32::MAX,
        ensures
            final(self).wf(),
            id == name_id(old(self)@.names, name@),
            final(self)@ == (CatalogModel {
                names: interned(old(self)@.names, name@),
                types: old(self)@.types.insert(id),
                ..old(self)@
            }),
    {
        let id: FieldId = self.interner.intern(name);
        self.types.insert(id);
        id
    }

    /// Register a predicate, replacing any earlier definition of that name; it is not a display
    /// name until marked as one.
    pub fn register_predicate(
        &mut self,
        name: &str,
        cardinality: Cardinality,
        props: RelProps,
        domain: FieldId,
        range: Range,
    ) -> (id: FieldId)
        requires
            old(self).wf(),
            old(self)@.names.contains(name@) || old(self)@.names.len() <= u32::MAX,
        ensures
            final(self).wf(),
            id == name_id(old(self)@.names, name@),
            final(self)@ == (CatalogModel {
                names: interned(old(self)@.names, name@),
                predicates: old(self)@.predicates.insert(
                    id,
                    PredicateDef { id, cardinality, props, domain, range, display: false },
                ),
                ..old(self)@
            }),
    {
        let id: FieldId = self.interner.intern(name);
        self.predicates.insert(
            id,
            PredicateDef { id, cardinality, props, domain, range, display: false },
        );
        id
    }

    /// Mark, or unmark, a predicate as its subject's display name. Unknown ids change nothing.
    pub fn set_display(&mut self, pred: FieldId, display: bool)
        requires
            old(self).wf(),
        ensures
            final(self).wf(),
            final(self)@ == (CatalogModel {
                predicates: if old(self)@.predicates.contains_key(pred) {
                    old(self)@.predicates.insert(
                        pred,
                        PredicateDef { display, ..old(self)@.predicates[pred] },
                    )
                } else {
                    old(self)@.predicates
                },
                ..old(self)@
            }),
    {
        let changed = match self.predicates.get(&pred) {
            Some(def) => Some(
                PredicateDef {
                    id: def.id,
                    cardinality: def.cardinality,
                    props: def.props,
                    domain: def.domain,
                    range: def.range,
                    display,
                },
            ),
            None => None,
        };
        if let Some(def) = changed {
            self.predicates.insert(pred, def);
        }
    }

    /// Assign an entity type to a node.
    pub fn set_node_type(&mut self, node: NodeId, type_id: FieldId)
        requires
            old(self).wf(),
        ensures
            final(self).wf(),
            final(self)@ == (CatalogModel {
                node_types: old(self)@.node_types.insert(node, type_id),
                ..old(self)@
            }),
    {
        self.node_types.insert(node, type_id);
    }

    /// The entity type of a node.
    pub fn node_type(&self, node: NodeId) -> (r: Option<FieldId>)
        ensures
            r == (if self@.node_types.contains_key(node) {
                Some(self@.node_types[node])
            } else {
                None
            }),
    {
        match self.node_types.get(&node) {
            Some(t) => Some(*t),
            None => None,
        }
    }

    /// The typed or labelled nodes, ascending.
    pub fn node_ids(&self) -> (r: Vec<NodeId>)
        ensures
            r@ == sorted_items::<NodeId>(self@.node_types.dom().union(self@.node_labels.dom())),
    {
        let mut s: OrdSet<NodeId> = OrdSet::new();
        let n: usize = self.node_types.len();
        let mut i: usize = 0;
        while i < n
            invariant
                i <= n,
                n == self.node_types.rows().len(),
                forall|k: u64| #[trigger]
                    s@.contains(k) <==> exists|j: int|
                        0 <= j < i && (#[trigger] self.node_types.rows()[j]).0 == k,
            decreases n - i,
        {
            let k: NodeId = *self.node_types.key_at(i);
            s.insert(k);
            i += 1;
        }
        proof {
            lemma_keys_seen(self.node_types.rows(), s@);
        }
        let ghost s0 = s@;
        let m: usize = self.node_labels.len();
        i = 0;
        while i < m
            invariant
                i <= m,
                m == self.node_labels.rows().len(),
                forall|k: u64| #[trigger]
                    s@.contains(k) <==> s0.contains(k) || exists|j: int|
                        0 <= j < i && (#[trigger] self.node_labels.rows()[j]).0 == k,
            decreases m - i,
        {
            let k: NodeId = *self.node_labels.key_at(i);
            s.insert(k);
            i += 1;
        }
        proof {
            assert forall|k: u64| #[trigger] s@.contains(k) == self@.node_types.dom().union(
                self@.node_labels.dom(),
            ).contains(k) by {
                if self@.node_labels.contains_key(k) {
                    lemma_key_row::<NodeId, u8>(self.node_labels.rows(), k);
                }
            }
            assert(s@ =~= self@.node_types.dom().union(self@.node_labels.dom()));
        }
        let r = s.to_vec();
        assert(r@ =~= r.deep_view());
        r
    }

    /// The definitions of the registered predicates, ascending by id.
    pub fn predicates(&self) -> (r: Vec<&PredicateDef>)
        ensures
            r@.len() == sorted_rows::<FieldId, PredicateDef>(self@.predicates).len(),
            forall|i: int|
                0 <= i < r@.len() ==> *(#[trigger] r@[i]) == sorted_rows::<FieldId, PredicateDef>(
                    self@.predicates,
                )[i].1,
    {
        let n: usize = self.predicates.len();
        let mut out: Vec<&PredicateDef> = Vec::new();
        let mut i: usize = 0;
        while i < n
            invariant
                i <= n,
                n == self.predicates.rows().len(),
                out.len() == i,
                forall|j: int| 0 <= j < i ==> *(#[trigger] out@[j]) == self.predicates.rows()[j].1,
            decreases n - i,
        {
            out.push(self.predicates.value_at(i));
            i += 1;
        }
        out
    }

    /// The number of registered entity types.
    pub fn types_len(&self) -> (n: usize)
        ensures
            n == self@.types.len(),
    {
        self.types.len()
    }

    /// The distinct labels that nodes have, ascending.
    pub fn labels_in_use(&self) -> (r: Vec<u8>)
        ensures
            r@ == sorted_items::<u8>(self@.node_labels.values()),
    {
        let mut s: OrdSet<u8> = OrdSet::new();
        let n: usize = self.node_labels.len();
        let mut i: usize = 0;
        while i < n
            invariant
                i <= n,
                n == self.node_labels.rows().len(),
                forall|b: u8| #[trigger]
                    s@.contains(b) <==> exists|j: int|
                        0 <= j < i && (#[trigger] self.node_labels.rows()[j]).1 == b,
            decreases n - i,
        {
            let b: u8 = *self.node_labels.value_at(i);
            s.insert(b);
            i += 1;
        }
        proof {
            let rows = self.node_labels.rows();
            let m = self@.node_labels;
            assert forall|b: u8| #[trigger] s@.contains(b) == m.values().contains(b) by {
                if s@.contains(b) {
                    let j = choose|j: int| 0 <= j < n && (#[trigger] rows[j]).1 == b;
                    lemma_row::<NodeId, u8>(rows, j);
                    assert(m.contains_key(rows[j].0));
                    assert(m[rows[j].0] == b);
                }
                if m.values().contains(b) {
                    let k = choose|k: u64| #[trigger] m.contains_key(k) && m[k] == b;
                    lemma_key_row::<NodeId, u8>(rows, k);
                    assert(rows[row_of(rows, k)].1 == b);
                }
            }
            assert(s@ =~= m.values());
        }
        let r = s.to_vec();
        assert(r@ =~= r.deep_view());
        r
    }

    /// Assign a sensitivity label to a node.
    pub fn set_node_label(&mut self, node: NodeId, label: u8)
        requires
            old(self).wf(),
        ensures
            final(self).wf(),
            final(self)@ == (CatalogModel {
                node_labels: old(self)@.node_labels.insert(node, label),
                ..old(self)@
            }),
    {
        self.node_labels.insert(node, label);
    }

    /// The sensitivity label of a node; an unlabelled node is public.
    pub fn node_label(&self, node: NodeId) -> (r: Option<u8>)
        ensures
            r == (if self@.node_labels.contains_key(node) {
                Some(self@.node_labels[node])
            } else {
                None
            }),
    {
        match self.node_labels.get(&node) {
            Some(t) => Some(*t),
            None => None,
        }
    }

    /// The id of an interned name.
    pub fn field_id(&self, name: &str) -> (r: Option<FieldId>)
        requires
            self.wf(),
        ensures
            r == lookup(self@.names, name@),
    {
        self.interner.get(name)
    }

    /// Intern a name and define nothing: a reference to a predicate that is registered later.
    pub fn intern_ref(&mut self, name: &str) -> (id: FieldId)
        requires
            old(self).wf(),
            old(self)@.names.contains(name@) || old(self)@.names.len() <= u32::MAX,
        ensures
            final(self).wf(),
            id == name_id(old(self)@.names, name@),
            final(self)@ == (CatalogModel {
                names: interned(old(self)@.names, name@),
                ..old(self)@
            }),
    {
        self.interner.intern(name)
    }

    /// The name that has id `id`.
    pub fn name(&self, id: FieldId) -> (r: Option<&str>)
        ensures
            r is Some == (id < self@.names.len()),
            r matches Some(n) ==> n@ == self@.names[id as int],
    {
        let i: usize = id as usize;
        if i < self.interner.names.len() {
            Some(self.interner.names[i].as_str())
        } else {
            None
        }
    }

    /// The definition of a predicate.
    pub fn predicate(&self, id: FieldId) -> (r: Option<&PredicateDef>)
        ensures
            r is Some == self@.predicates.contains_key(id),
            r matches Some(d) ==> *d == self@.predicates[id],
    {
        self.predicates.get(&id)
    }

    /// Validate a fact at the ingest boundary.
    pub fn validate(&self, f: &Fact) -> (r: Result<(), ConstraintError>)
        ensures
            r == verdict(self@, *f),
    {
        let pred = match self.predicates.get(&f.predicate) {
            Some(p) => p,
            None => {
                return Err(ConstraintError::UnknownPredicate(f.predicate));
            },
        };
        if let Some(subject_type) = self.node_types.get(&f.subject) {
            if *subject_type != pred.domain {
                return Err(
                    ConstraintError::DomainMismatch { expected: pred.domain, got: *subject_type },
                );
            }
        }
        match (&pred.range, &f.object) {
            (Range::Type(t), Object::Node(n)) => {
                if let Some(object_type) = self.node_types.get(n) {
                    if *object_type != *t {
                        return Err(
                            ConstraintError::RangeTypeMismatch { expected: *t, got: *object_type },
                        );
                    }
                }
                Ok(())
            },
            (Range::Type(_), Object::Value(_)) => Err(ConstraintError::ExpectedNodeObject),
            (Range::Value(vt), Object::Value(v)) => {
                let got = value_type(v);
                if got != *vt {
                    Err(ConstraintError::RangeValueMismatch { expected: *vt, got })
                } else {
                    Ok(())
                }
            },
            (Range::Value(_), Object::Node(_)) => Err(ConstraintError::ExpectedValueObject),
        }
    }
}

proof fn lemma_keys_seen<T>(rows: Seq<(u64, T)>, seen: Set<u64>)
    requires
        forall|k: u64| #[trigger]
            seen.contains(k) <==> exists|j: int|
                0 <= j < rows.len() && (#[trigger] rows[j]).0 == k,
    ensures
        forall|k: u64| #[trigger]
            seen.contains(k) <==> crate::ordmap::rows_map(rows).contains_key(k),
{
    assert forall|k: u64| #[trigger] seen.contains(k) == crate::ordmap::has_row(rows, k) by {
    }
}

/// Interning is stable: a name keeps its id whatever is interned later, so a forward reference and
/// the registration that follows it agree; the id leads back to the name; distinct names get
/// distinct ids.
pub proof fn law_intern_stable(names: Seq<Seq<char>>, name: Seq<char>, other: Seq<char>)
    requires
        names.no_duplicates(),
    ensures
        interned(names, name).no_duplicates(),
        interned(names, name)[name_id(names, name)] == name,
        name_id(interned(interned(names, name), other), name) == name_id(names, name),
        other != name ==> name_id(interned(names, name), other) != name_id(names, name),
{
    let once = interned(names, name);
    let i = name_id(names, name);
    assert(0 <= i < once.len() && once[i] == name);
    assert(once.no_duplicates());
    let twice = interned(once, other);
    assert(twice[i] == name);
    assert(twice.contains(name));
    let j = twice.index_of(name);
    assert(0 <= j < twice.len() && twice[j] == name);
    if once.contains(other) {
        let k = once.index_of(other);
        assert(0 <= k < once.len() && once[k] == other);
    } else {
        assert(once.contains(name));
    }
}

/// Whether a literal is of a value type.
pub open spec fn literal_of(v: Value, t: ValueType) -> bool {
    match t {
        ValueType::Int => v is Int,
        ValueType::Float => v is Float,
        ValueType::Text => v is Text,
        ValueType::Bool => v is Bool,
    }
}

/// Whether a node may stand where type `t` is asked for: it has no type yet, or has that one.
pub open spec fn may_stand_for(c: CatalogModel, n: NodeId, t: FieldId) -> bool {
    c.node_types.contains_key(n) ==> c.node_types[n] == t
}

/// A fact is accepted exactly where its predicate is registered, its subject may stand for the domain,
/// and its object is what the range asks for: a node that may stand for the type, or a literal of the
/// value type. What is refused is told by the first of these that fails.
pub proof fn law_validation(c: CatalogModel, f: Fact)
    ensures
        ({
            let known = c.predicates.contains_key(f.predicate);
            let p = c.predicates[f.predicate];
            let subject = may_stand_for(c, f.subject, p.domain);
            let v = verdict(c, f);
            &&& v is Ok <==> known && subject && match p.range {
                Range::Type(t) => f.object is Node && may_stand_for(c, f.object->Node_0, t),
                Range::Value(t) => f.object is Value && literal_of(f.object->Value_0, t),
            }
            &&& v == Err::<(), ConstraintError>(ConstraintError::UnknownPredicate(f.predicate))
                <==> !known
            &&& known && !subject <==> v is Err && v->Err_0 is DomainMismatch
            &&& v is Err && v->Err_0 is DomainMismatch ==> v->Err_0 == (
            ConstraintError::DomainMismatch { expected: p.domain, got: c.node_types[f.subject] })
            &&& known && subject ==> {
                &&& v == Err::<(), ConstraintError>(ConstraintError::ExpectedNodeObject) <==> p.range
                    is Type && f.object is Value
                &&& v == Err::<(), ConstraintError>(ConstraintError::ExpectedValueObject) <==> p.range
                    is Value && f.object is Node
                &&& v is Err && v->Err_0 is RangeTypeMismatch <==> p.range is Type && f.object is Node
                    && !may_stand_for(c, f.object->Node_0, p.range->Type_0)
                &&& v is Err && v->Err_0 is RangeValueMismatch <==> p.range is Value && f.object
                    is Value && !literal_of(f.object->Value_0, p.range->Value_0)
                &&& v is Err && v->Err_0 is RangeTypeMismatch ==> v->Err_0 == (
                ConstraintError::RangeTypeMismatch {
                    expected: p.range->Type_0,
                    got: c.node_types[f.object->Node_0],
                })
                &&& v is Err && v->Err_0 is RangeValueMismatch ==> (
                v->Err_0)->RangeValueMismatch_expected == p.range->Value_0 && literal_of(
                    f.object->Value_0,
                    (v->Err_0)->RangeValueMismatch_got,
                )
            }
        }),
{
}

} // verus!
