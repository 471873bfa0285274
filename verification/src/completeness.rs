//! Completeness: per node of a type, the required predicates that have no value.
use crate::access::{labels_fit, law_typed_nodes, typed_visible, visible_of_type};
use crate::catalog::{lookup, Catalog};
use crate::conformance::laws::{is_named, law_names_resolve, told_apart};
use crate::fact::{FieldId, NodeId};
use crate::fold::model::SnapshotModel;
use crate::fold::Snapshot;
use crate::ordmap::sorted_items;
use crate::query::graph::{edge, expand};
use crate::query::stored::holds_edge;
use crate::query::{current_one, point_one};
use vstd::prelude::*;

verus! {

/// A node with the required predicates that it lacks, in the order asked.
#[derive(Clone, Debug, PartialEq, Eq)]
pub struct Incomplete {
    pub node: NodeId,
    pub missing: Vec<String>,
}

impl DeepView for Incomplete {
    type V = (NodeId, Seq<Seq<char>>);

    open spec fn deep_view(&self) -> (NodeId, Seq<Seq<char>>) {
        (self.node, self.missing.deep_view())
    }
}

/// The names of a list that are not interned, in order.
pub open spec fn unknown_names(names: Seq<Seq<char>>, list: Seq<Seq<char>>) -> Seq<Seq<char>>
    decreases list.len(),
{
    if list.len() == 0 {
        Seq::empty()
    } else {
        let init = unknown_names(names, list.drop_last());
        if names.contains(list.last()) {
            init
        } else {
            init.push(list.last())
        }
    }
}

/// The names of `list` that the catalog does not know, appended to `out`.
pub(crate) fn push_unknown(cat: &Catalog, name: &str, out: &mut Vec<String>)
    requires
        cat.wf(),
    ensures
        final(out).deep_view() == (if cat@.names.contains(name@) {
            old(out).deep_view()
        } else {
            old(out).deep_view().push(name@)
        }),
{
    if cat.field_id(name).is_none() {
        out.push(name.to_owned());
        assert(out.deep_view() =~= old(out).deep_view().push(name@));
    }
}

/// The names in a request that the catalog does not know: the type, then the predicates in order.
pub fn unresolved_names(entity_type: &str, required: &[String], cat: &Catalog) -> (r: Vec<String>)
    requires
        cat.wf(),
    ensures
        r.deep_view() == unknown_names(cat@.names, seq![entity_type@] + required.deep_view()),
{
    let mut out: Vec<String> = Vec::new();
    let ghost list = seq![entity_type@] + required.deep_view();
    assert(out.deep_view() =~= Seq::<Seq<char>>::empty());
    push_unknown(cat, entity_type, &mut out);
    proof {
        reveal_with_fuel(unknown_names, 2);
        let one = list.take(1);
        assert(one.drop_last() =~= Seq::<Seq<char>>::empty());
        assert(one.last() == entity_type@);
    }
    let mut i: usize = 0;
    while i < required.len()
        invariant
            i <= required.len(),
            cat.wf(),
            list == seq![entity_type@] + required.deep_view(),
            out.deep_view() == unknown_names(cat@.names, list.take(i + 1)),
        decreases required.len() - i,
    {
        push_unknown(cat, required[i].as_str(), &mut out);
        proof {
            let t = list.take(i + 2);
            assert(t.drop_last() =~= list.take(i + 1));
            assert(t.last() == required@[i as int]@);
        }
        i += 1;
    }
    assert(list.take(i + 1) =~= list);
    out
}

/// Whether a node has a value of a predicate: a current value, or a node that it leads to. An
/// unknown predicate has none.
pub open spec fn has_value(s: SnapshotModel, n: NodeId, p: Option<FieldId>) -> bool {
    match p {
        None => false,
        Some(p) => current_one(s, (n, p)) is Some || exists|b: NodeId| edge(s, None, n, p, b),
    }
}

fn present(snap: &Snapshot, node: NodeId, pid: Option<FieldId>) -> (r: bool)
    ensures
        r == has_value(snap@, node, pid),
{
    match pid {
        None => false,
        Some(p) => {
            if point_one(snap, node, p).is_some() {
                return true;
            }
            let out = expand(snap, node, p);
            let none = out.is_empty();
            proof {
                if none {
                    assert forall|b: NodeId| !edge(snap@, None, node, p, b) by {
                        assert(!out@.contains(b));
                    }
                } else {
                    assert(exists|b: NodeId| out@.contains(b)) by {
                        if forall|b: NodeId| !out@.contains(b) {
                            assert(out@ =~= Set::<NodeId>::empty());
                        }
                    }
                    let b = choose|b: NodeId| out@.contains(b);
                    assert(edge(snap@, None, node, p, b));
                }
            }
            !none
        },
    }
}

/// The required names that a node has no value of, in order.
pub open spec fn missing_of(
    s: SnapshotModel,
    names: Seq<Seq<char>>,
    required: Seq<Seq<char>>,
    n: NodeId,
) -> Seq<Seq<char>>
    decreases required.len(),
{
    if required.len() == 0 {
        Seq::empty()
    } else {
        let init = missing_of(s, names, required.drop_last(), n);
        if has_value(s, n, lookup(names, required.last())) {
            init
        } else {
            init.push(required.last())
        }
    }
}

/// The nodes of a list that lack something, with what they lack.
pub open spec fn incomplete_of(
    s: SnapshotModel,
    names: Seq<Seq<char>>,
    required: Seq<Seq<char>>,
    nodes: Seq<NodeId>,
) -> Seq<(NodeId, Seq<Seq<char>>)>
    decreases nodes.len(),
{
    if nodes.len() == 0 {
        Seq::empty()
    } else {
        let init = incomplete_of(s, names, required, nodes.drop_last());
        let missing = missing_of(s, names, required, nodes.last());
        if missing.len() == 0 {
            init
        } else {
            init.push((nodes.last(), missing))
        }
    }
}

fn lacking(snap: &Snapshot, cat: &Catalog, required: &[String], node: NodeId) -> (r: Vec<String>)
    requires
        cat.wf(),
    ensures
        r.deep_view() == missing_of(snap@, cat@.names, required.deep_view(), node),
{
    let mut out: Vec<String> = Vec::new();
    let ghost list = required.deep_view();
    let mut i: usize = 0;
    assert(out.deep_view() =~= Seq::<Seq<char>>::empty());
    assert(list.take(0) =~= Seq::<Seq<char>>::empty());
    while i < required.len()
        invariant
            i <= required.len(),
            cat.wf(),
            list == required.deep_view(),
            out.deep_view() == missing_of(snap@, cat@.names, list.take(i as int), node),
        decreases required.len() - i,
    {
        let name = &required[i];
        let pid = cat.field_id(name.as_str());
        let ghost before = out.deep_view();
        if !present(snap, node, pid) {
            out.push(name.clone());
            assert(out.deep_view() =~= before.push(name@));
        }
        proof {
            let t = list.take(i + 1);
            assert(t.drop_last() =~= list.take(i as int));
            assert(t.last() == name@);
        }
        i += 1;
    }
    assert(list.take(i as int) =~= list);
    out
}

/// The visible nodes of a named type that lack something, ascending, with what they lack.
pub open spec fn gaps_of(
    s: SnapshotModel,
    names: Seq<Seq<char>>,
    entity_type: Seq<char>,
    required: Seq<Seq<char>>,
    labels: u32,
) -> Seq<(NodeId, Seq<Seq<char>>)> {
    match lookup(names, entity_type) {
        None => Seq::empty(),
        Some(ty) => incomplete_of(
            s,
            names,
            required,
            sorted_items::<NodeId>(typed_visible(s, ty, labels)),
        ),
    }
}

/// The visible nodes of a type that lack a required predicate, ascending, each with what it lacks.
/// An unknown type has no nodes; an unknown predicate is lacking everywhere.
pub fn evaluate(
    snap: &Snapshot,
    cat: &Catalog,
    entity_type: &str,
    required: &[String],
    principal_labels: u32,
) -> (r: Vec<Incomplete>)
    requires
        cat.wf(),
        labels_fit(snap@),
    ensures
        r.deep_view() == gaps_of(
            snap@,
            cat@.names,
            entity_type@,
            required.deep_view(),
            principal_labels,
        ),
{
    let mut out: Vec<Incomplete> = Vec::new();
    assert(out.deep_view() =~= Seq::<(NodeId, Seq<Seq<char>>)>::empty());
    let ty: FieldId = match cat.field_id(entity_type) {
        Some(t) => t,
        None => {
            return out;
        },
    };
    let nodes = visible_of_type(snap, ty, principal_labels);
    let ghost items = nodes.items();
    let n: usize = nodes.len();
    let mut i: usize = 0;
    assert(items.take(0) =~= Seq::<NodeId>::empty());
    while i < n
        invariant
            i <= n,
            n == items.len(),
            items == nodes.items(),
            cat.wf(),
            out.deep_view() == incomplete_of(
                snap@,
                cat@.names,
                required.deep_view(),
                items.take(i as int),
            ),
        decreases n - i,
    {
        let node: NodeId = *nodes.at(i);
        let missing = lacking(snap, cat, required, node);
        let ghost before = out.deep_view();
        if missing.len() > 0 {
            let ghost m = missing.deep_view();
            out.push(Incomplete { node, missing });
            assert(out.deep_view() =~= before.push((node, m)));
        }
        proof {
            let t = items.take(i + 1);
            assert(t.drop_last() =~= items.take(i as int));
            assert(t.last() == node);
        }
        i += 1;
    }
    assert(items.take(i as int) =~= items);
    out
}

/// Whether a node has nothing under a name: no register of that name holds a value, and no edge of
/// that name leads to a node.
pub open spec fn lacks(s: SnapshotModel, names: Seq<Seq<char>>, n: NodeId, name: Seq<char>) -> bool {
    forall|p: FieldId|
        is_named(names, p, name) ==> !(s.one.contains_key((n, p)) && s.one[(n, p)] is Some) && forall|
            b: NodeId,
        |
            !#[trigger] holds_edge(s, n, p, b)
}

/// What a node is missing are the required names that it lacks, in their order and as often as they
/// are required; a name that nothing has is lacking everywhere.
pub proof fn law_missing_is_what_lacks(
    s: SnapshotModel,
    names: Seq<Seq<char>>,
    a: Seq<Seq<char>>,
    x: Seq<char>,
    b: Seq<Seq<char>>,
    n: NodeId,
)
    requires
        told_apart(names),
    ensures
        missing_of(s, names, Seq::empty(), n) == Seq::<Seq<char>>::empty(),
        lacks(s, names, n, x) ==> missing_of(s, names, seq![x], n) == seq![x],
        !lacks(s, names, n, x) ==> missing_of(s, names, seq![x], n) == Seq::<Seq<char>>::empty(),
        !names.contains(x) ==> lacks(s, names, n, x),
        missing_of(s, names, a + b, n) == missing_of(s, names, a, n) + missing_of(s, names, b, n),
    decreases b.len(),
{
    lemma_lacks(s, names, n, x);
    assert(seq![x].drop_last() =~= Seq::empty());
    assert(missing_of(s, names, Seq::empty(), n) =~= Seq::<Seq<char>>::empty());
    if lacks(s, names, n, x) {
        assert(missing_of(s, names, seq![x], n) =~= seq![x]);
    }
    if !names.contains(x) {
        assert forall|p: FieldId| !is_named(names, p, x) by {
            if is_named(names, p, x) {
                assert(names.contains(names[p as int]));
            }
        }
    }
    if b.len() == 0 {
        assert(a + b =~= a);
        assert(missing_of(s, names, a, n) + missing_of(s, names, b, n) =~= missing_of(
            s,
            names,
            a,
            n,
        ));
    } else {
        law_missing_is_what_lacks(s, names, a, x, b.drop_last(), n);
        assert((a + b).drop_last() =~= a + b.drop_last());
        assert((a + b).last() == b.last());
        assert(missing_of(s, names, a + b, n) =~= missing_of(s, names, a, n) + missing_of(
            s,
            names,
            b,
            n,
        ));
    }
}

proof fn lemma_lacks(s: SnapshotModel, names: Seq<Seq<char>>, n: NodeId, name: Seq<char>)
    requires
        told_apart(names),
    ensures
        has_value(s, n, lookup(names, name)) == !lacks(s, names, n, name),
{
    match lookup(names, name) {
        Some(p) => {
            law_names_resolve(names, name, p);
            if has_value(s, n, Some(p)) {
                if exists|b: NodeId| edge(s, None, n, p, b) {
                    let b = choose|b: NodeId| edge(s, None, n, p, b);
                    assert(holds_edge(s, n, p, b));
                }
            } else {
                assert forall|q: FieldId| is_named(names, q, name) implies !(s.one.contains_key((n, q))
                    && s.one[(n, q)] is Some) && forall|b: NodeId| !#[trigger] holds_edge(s, n, q, b) by {
                    law_names_resolve(names, name, q);
                    assert forall|b: NodeId| !#[trigger] holds_edge(s, n, q, b) by {
                        assert(!edge(s, None, n, p, b));
                    }
                }
            }
        },
        None => {
            assert forall|p: FieldId| !is_named(names, p, name) by {
                law_names_resolve(names, name, p);
            }
        },
    }
}

/// The incomplete nodes are exactly the nodes of the type that the labels let see and that lack some
/// required name, once each and ascending, each with what it is missing. A type without a name has
/// none.
pub proof fn law_incomplete_nodes(
    s: SnapshotModel,
    names: Seq<Seq<char>>,
    entity: Seq<char>,
    required: Seq<Seq<char>>,
    mask: u32,
    ty: FieldId,
    n: NodeId,
)
    requires
        told_apart(names),
        labels_fit(s),
        s.node_types.dom().finite(),
    ensures
        ({
            let r = gaps_of(s, names, entity, required, mask);
            &&& forall|i: int|
                0 <= i < r.len() ==> (#[trigger] r[i]).1 == missing_of(s, names, required, r[i].0)
            &&& forall|i: int, j: int|
                0 <= i < j < r.len() ==> (#[trigger] r[i]).0 < (#[trigger] r[j]).0
            &&& is_named(names, ty, entity) ==> ((exists|i: int|
                0 <= i < r.len() && (#[trigger] r[i]).0 == n) <==> (s.node_types.contains_key(n)
                && s.node_types[n] == ty && (s.node_labels.contains_key(n) ==> mask & (1u32 << (
            s.node_labels[n] as u32)) != 0) && exists|q: int|
                0 <= q < required.len() && lacks(s, names, n, #[trigger] required[q])))
            &&& !names.contains(entity) ==> r.len() == 0
        }),
{
    law_names_resolve(names, entity, ty);
    if let Some(id) = lookup(names, entity) {
        let set = typed_visible(s, id, mask);
        assert(set.subset_of(s.node_types.dom()));
        vstd::set_lib::lemma_set_subset_finite(s.node_types.dom(), set);
        crate::ordmap::lemma_sorted_items::<NodeId>(set);
        let items = sorted_items::<NodeId>(set);
        law_typed_nodes(s, id, id, n, mask);
        lemma_incomplete(s, names, required, items, n);
        lemma_missing_some(s, names, required, n);
        assert(items.contains(n) == items.to_set().contains(n));
    }
}

proof fn lemma_missing_some(
    s: SnapshotModel,
    names: Seq<Seq<char>>,
    required: Seq<Seq<char>>,
    n: NodeId,
)
    requires
        told_apart(names),
    ensures
        missing_of(s, names, required, n).len() > 0 <==> exists|q: int|
            0 <= q < required.len() && lacks(s, names, n, #[trigger] required[q]),
    decreases required.len(),
{
    if required.len() > 0 {
        let init = required.drop_last();
        lemma_missing_some(s, names, init, n);
        lemma_lacks(s, names, n, required.last());
        assert(required[required.len() - 1] == required.last());
        if missing_of(s, names, init, n).len() > 0 {
            let q = choose|q: int| 0 <= q < init.len() && lacks(s, names, n, #[trigger] init[q]);
            assert(required[q] == init[q]);
        }
        if exists|q: int| 0 <= q < required.len() && lacks(s, names, n, #[trigger] required[q]) {
            let q = choose|q: int|
                0 <= q < required.len() && lacks(s, names, n, #[trigger] required[q]);
            if q < init.len() {
                assert(init[q] == required[q]);
            }
        }
    }
}

proof fn lemma_incomplete(
    s: SnapshotModel,
    names: Seq<Seq<char>>,
    required: Seq<Seq<char>>,
    nodes: Seq<NodeId>,
    n: NodeId,
)
    requires
        forall|i: int, j: int| 0 <= i < j < nodes.len() ==> #[trigger] nodes[i] < #[trigger] nodes[j],
    ensures
        ({
            let r = incomplete_of(s, names, required, nodes);
            &&& forall|i: int|
                0 <= i < r.len() ==> (#[trigger] r[i]).1 == missing_of(s, names, required, r[i].0)
                    && nodes.contains(r[i].0)
            &&& forall|i: int, j: int|
                0 <= i < j < r.len() ==> (#[trigger] r[i]).0 < (#[trigger] r[j]).0
            &&& (exists|i: int| 0 <= i < r.len() && (#[trigger] r[i]).0 == n) <==> (nodes.contains(n)
                && missing_of(s, names, required, n).len() > 0)
        }),
    decreases nodes.len(),
{
    let r = incomplete_of(s, names, required, nodes);
    if nodes.len() > 0 {
        let init = nodes.drop_last();
        let x = nodes.last();
        assert forall|i: int, j: int| 0 <= i < j < init.len() implies #[trigger] init[i]
            < #[trigger] init[j] by {
            assert(nodes[i] < nodes[j]);
        }
        lemma_incomplete(s, names, required, init, n);
        let q = incomplete_of(s, names, required, init);
        assert(nodes.contains(n) == (init.contains(n) || n == x)) by {
            if nodes.contains(n) && n != x {
                let i = choose|i: int| 0 <= i < nodes.len() && nodes[i] == n;
                assert(init[i] == n);
            }
            if init.contains(n) {
                let i = choose|i: int| 0 <= i < init.len() && init[i] == n;
                assert(nodes[i] == n);
            }
            assert(nodes[nodes.len() - 1] == x);
        }
        assert forall|i: int| 0 <= i < q.len() implies nodes.contains((#[trigger] q[i]).0) && q[i].0
            < x by {
            assert(init.contains(q[i].0));
            let a = choose|a: int| 0 <= a < init.len() && init[a] == q[i].0;
            assert(nodes[a] == q[i].0);
            assert(nodes[a] < nodes[nodes.len() - 1]);
        }
        let missing = missing_of(s, names, required, x);
        if missing.len() > 0 {
            assert(r == q.push((x, missing)));
            assert(r[q.len() as int] == (x, missing));
            assert(nodes[nodes.len() - 1] == x);
            if exists|i: int| 0 <= i < q.len() && (#[trigger] q[i]).0 == n {
                let i = choose|i: int| 0 <= i < q.len() && (#[trigger] q[i]).0 == n;
                assert(r[i] == q[i]);
            }
            if exists|i: int| 0 <= i < r.len() && (#[trigger] r[i]).0 == n {
                let i = choose|i: int| 0 <= i < r.len() && (#[trigger] r[i]).0 == n;
                if i < q.len() {
                    assert(q[i] == r[i]);
                }
            }
        } else {
            assert(r == q);
        }
    }
}

} // verus!
