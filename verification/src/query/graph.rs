//! Expansion along edges: one hop, and the bounded closure that a predicate's properties call for.
use crate::catalog::{Catalog, CatalogModel, RelProps};
use crate::fact::{FieldId, NodeId};
use crate::fold::model::SnapshotModel;
use crate::fold::{ObjKey, Snapshot};
use crate::objkey::ObjModel;
use crate::order::Dup;
use crate::codec::count32;
use crate::ordmap::{
    ascending, lemma_key_row, lemma_row, lemma_take_contains, row_of, sorted_items, sorted_rows,
    OrdMap, OrdSet,
};
use crate::query::{
    current_many, current_one, many_at, one_at, point_many_asof, point_one, point_one_asof,
};
use vstd::prelude::*;

verus! {

/// Whether there is an edge `a --p--> b`: at present, or in effect at an instant.
pub open spec fn edge(s: SnapshotModel, at: Option<i64>, a: NodeId, p: FieldId, b: NodeId) -> bool {
    match at {
        None => current_one(s, (a, p)) == Some(ObjModel::Node(b)) || current_many(
            s,
            (a, p),
        ).contains(ObjModel::Node(b)),
        Some(t) => one_at(s, (a, p), t) == Some(ObjModel::Node(b)) || many_at(
            s,
            (a, p),
            t,
        ).contains(ObjModel::Node(b)),
    }
}

/// The nodes that the edges `a --p-->` lead to.
pub open spec fn targets(s: SnapshotModel, at: Option<i64>, a: NodeId, p: FieldId) -> Set<NodeId> {
    Set::new(|b: NodeId| edge(s, at, a, p, b))
}

/// Add the nodes among some objects.
fn add_nodes(out: &mut OrdSet<NodeId>, objs: &OrdSet<ObjKey>)
    ensures
        forall|b: NodeId| #[trigger]
            final(out)@.contains(b) <==> old(out)@.contains(b) || objs@.contains(
                ObjModel::Node(b),
            ),
{
    let n: usize = objs.len();
    let mut i: usize = 0;
    while i < n
        invariant
            i <= n,
            n == objs.items().len(),
            forall|b: NodeId| #[trigger]
                out@.contains(b) <==> old(out)@.contains(b) || exists|j: int|
                    0 <= j < i && #[trigger] objs.items()[j] == ObjModel::Node(b),
        decreases n - i,
    {
        if let ObjKey::Node(b) = objs.at(i) {
            out.insert(*b);
        }
        i += 1;
    }
    proof {
        assert forall|b: NodeId| #[trigger] out@.contains(b) == (old(out)@.contains(b)
            || objs@.contains(ObjModel::Node(b))) by {
            let o = ObjModel::Node(b);
            if objs@.contains(o) {
                assert(objs.items().contains(o));
                let j = choose|j: int| 0 <= j < objs.items().len() && objs.items()[j] == o;
                assert(objs.items()[j] == o);
            }
            if exists|j: int| 0 <= j < n && #[trigger] objs.items()[j] == o {
                let j = choose|j: int| 0 <= j < n && #[trigger] objs.items()[j] == o;
                assert(objs.items().contains(objs.items()[j]));
            }
        }
    }
}

/// One hop: the nodes that the current value and the present elements are.
pub fn expand(snap: &Snapshot, subject: NodeId, predicate: FieldId) -> (r: OrdSet<NodeId>)
    ensures
        r@ == targets(snap@, None, subject, predicate),
{
    let mut out: OrdSet<NodeId> = OrdSet::new();
    if let Some(ObjKey::Node(n)) = point_one(snap, subject, predicate) {
        out.insert(n);
    }
    if let Some(objs) = snap.many.get(&(subject, predicate)) {
        add_nodes(&mut out, objs);
    }
    assert(out@ =~= targets(snap@, None, subject, predicate));
    out
}

/// One hop at valid time `at`.
pub fn expand_asof(snap: &Snapshot, subject: NodeId, predicate: FieldId, at: i64) -> (r: OrdSet<
    NodeId,
>)
    ensures
        r@ == targets(snap@, Some(at), subject, predicate),
{
    let mut out: OrdSet<NodeId> = OrdSet::new();
    if let Some(ObjKey::Node(n)) = point_one_asof(snap, subject, predicate, at) {
        out.insert(n);
    }
    add_nodes(&mut out, &point_many_asof(snap, subject, predicate, at));
    assert(out@ =~= targets(snap@, Some(at), subject, predicate));
    out
}

fn hop(snap: &Snapshot, at: Option<i64>, node: NodeId, p: FieldId) -> (r: OrdSet<NodeId>)
    ensures
        r@ == targets(snap@, at, node, p),
{
    match at {
        None => expand(snap, node, p),
        Some(t) => expand_asof(snap, node, p, t),
    }
}

/// Whether an adjacency holds the link from `x` to `y`.
pub open spec fn linked(adj: Map<NodeId, Set<NodeId>>, x: NodeId, y: NodeId) -> bool {
    adj.contains_key(x) && adj[x].contains(y)
}

/// No node is there without a link.
pub open spec fn no_isolated(adj: Map<NodeId, Set<NodeId>>) -> bool {
    forall|x: NodeId| #[trigger] adj.contains_key(x) ==> exists|y: NodeId| adj[x].contains(y)
}

fn link(adj: &mut OrdMap<NodeId, OrdSet<NodeId>>, x: NodeId, y: NodeId)
    requires
        no_isolated(old(adj)@),
    ensures
        no_isolated(final(adj)@),
        forall|a: NodeId, b: NodeId| #[trigger]
            linked(final(adj)@, a, b) <==> linked(old(adj)@, a, b) || (a == x && b == y),
{
    let mut s = match adj.take(&x) {
        Some(s) => s,
        None => OrdSet::new(),
    };
    s.insert(y);
    let ghost sv = s@;
    adj.insert(x, s);
    proof {
        assert(sv.contains(y));
        assert forall|a: NodeId| #[trigger] adj@.contains_key(a) implies exists|b: NodeId|
            adj@[a].contains(b) by {
            if a == x {
                assert(adj@[a].contains(y));
            } else {
                assert(old(adj)@.contains_key(a));
                let b = choose|b: NodeId| old(adj)@[a].contains(b);
                assert(adj@[a].contains(b));
            }
        }
    }
}

/// The links of an adjacency: from each node to the nodes related to it.
pub open spec fn relation_map(rel: spec_fn(NodeId, NodeId) -> bool) -> Map<NodeId, Set<NodeId>> {
    Map::new(
        |x: NodeId| exists|y: NodeId| #[trigger] rel(x, y),
        |x: NodeId| Set::new(|y: NodeId| rel(x, y)),
    )
}

proof fn lemma_relation_map(
    adj: Map<NodeId, Set<NodeId>>,
    rel: spec_fn(NodeId, NodeId) -> bool,
)
    requires
        no_isolated(adj),
        forall|x: NodeId, y: NodeId| #[trigger] linked(adj, x, y) <==> rel(x, y),
    ensures
        adj == relation_map(rel),
{
    let m = relation_map(rel);
    assert forall|x: NodeId|
        #![trigger adj.dom().contains(x)]
        #![trigger m.dom().contains(x)]
        adj.dom().contains(x) == m.dom().contains(x) && (adj.dom().contains(x) ==> adj[x]
            == m[x]) by {
        if adj.contains_key(x) {
            let y = choose|y: NodeId| adj[x].contains(y);
            assert(linked(adj, x, y));
            assert(rel(x, y));
        }
        if m.contains_key(x) {
            let y = choose|y: NodeId| #[trigger] rel(x, y);
            assert(linked(adj, x, y));
        }
        if adj.contains_key(x) {
            assert forall|y: NodeId| #[trigger] adj[x].contains(y) == m[x].contains(y) by {
                assert(linked(adj, x, y) == rel(x, y));
            }
            assert(adj[x] =~= m[x]);
        }
    }
    assert(adj =~= m);
}

/// Whether an edge passes the optional restriction to one predicate.
pub open spec fn selected(predicate: Option<FieldId>, p: FieldId) -> bool {
    predicate matches Some(q) ==> q == p
}

/// The node edges of a snapshot, collected one by one: subject, predicate, target.
fn node_edges(snap: &Snapshot, predicate: Option<FieldId>) -> (r: Vec<(NodeId, FieldId, NodeId)>)
    ensures
        forall|a: NodeId, p: FieldId, b: NodeId|
            #![trigger r@.contains((a, p, b))]
            r@.contains((a, p, b)) <==> selected(predicate, p) && edge(snap@, None, a, p, b),
{
    let mut out: Vec<(NodeId, FieldId, NodeId)> = Vec::new();
    let n: usize = snap.one.len();
    let mut i: usize = 0;
    while i < n
        invariant
            i <= n,
            n == snap.one.rows().len(),
            forall|a: NodeId, p: FieldId, b: NodeId|
                #![trigger out@.contains((a, p, b))]
                out@.contains((a, p, b)) <==> selected(predicate, p) && exists|j: int|
                    0 <= j < i && #[trigger] snap.one.rows()[j] == (
                        (a, p),
                        Some(ObjModel::Node(b)),
                    ),
        decreases n - i,
    {
        let k = *snap.one.key_at(i);
        let pass = match predicate {
            Some(q) => q == k.1,
            None => true,
        };
        let ghost out0 = out@;
        let v = snap.one.value_at(i);
        if pass {
            if let Some(ObjKey::Node(b)) = v {
                out.push((k.0, k.1, *b));
                proof {
                    lemma_push_contains(out0, (k.0, k.1, *b));
                }
            }
        }
        proof {
            assert(snap.one.rows()[i as int] == (k, v.deep_view()));
        }
        i += 1;
    }
    let m: usize = snap.many.len();
    let ghost ones = out@;
    let mut i2: usize = 0;
    while i2 < m
        invariant
            i2 <= m,
            m == snap.many.rows().len(),
            forall|a: NodeId, p: FieldId, b: NodeId|
                #![trigger out@.contains((a, p, b))]
                out@.contains((a, p, b)) <==> ones.contains((a, p, b)) || (selected(predicate, p)
                    && exists|j: int|
                    0 <= j < i2 && (#[trigger] snap.many.rows()[j]).0 == (a, p)
                        && snap.many.rows()[j].1.contains(ObjModel::Node(b))),
        decreases m - i2,
    {
        let k = *snap.many.key_at(i2);
        let pass = match predicate {
            Some(q) => q == k.1,
            None => true,
        };
        let set = snap.many.value_at(i2);
        if pass {
            let c: usize = set.len();
            let ghost before = out@;
            let mut j: usize = 0;
            while j < c
                invariant
                    j <= c,
                    c == set.items().len(),
                    forall|a: NodeId, p: FieldId, b: NodeId|
                        #![trigger out@.contains((a, p, b))]
                        out@.contains((a, p, b)) <==> before.contains((a, p, b)) || ((a, p) == k
                            && exists|x: int|
                            0 <= x < j && #[trigger] set.items()[x] == ObjModel::Node(b)),
                decreases c - j,
            {
                let ghost out0 = out@;
                if let ObjKey::Node(b) = set.at(j) {
                    out.push((k.0, k.1, *b));
                    proof {
                        lemma_push_contains(out0, (k.0, k.1, *b));
                    }
                }
                j += 1;
            }
            proof {
                assert forall|b: NodeId| (exists|x: int|
                    0 <= x < c && #[trigger] set.items()[x] == ObjModel::Node(b)) == (
                #[trigger] set@.contains(ObjModel::Node(b))) by {
                    let o = ObjModel::Node(b);
                    if set@.contains(o) {
                        assert(set.items().contains(o));
                        let x = choose|x: int| 0 <= x < set.items().len() && set.items()[x] == o;
                        assert(set.items()[x] == o);
                    }
                    if exists|x: int| 0 <= x < c && #[trigger] set.items()[x] == o {
                        let x = choose|x: int| 0 <= x < c && #[trigger] set.items()[x] == o;
                        assert(set.items().contains(set.items()[x]));
                    }
                }
            }
        }
        proof {
            assert(snap.many.rows()[i2 as int] == (k, set@));
        }
        i2 += 1;
    }
    proof {
        let s1 = snap.one.rows();
        let s2 = snap.many.rows();
        assert forall|a: NodeId, p: FieldId, b: NodeId|
            #![trigger out@.contains((a, p, b))]
            out@.contains((a, p, b)) == (selected(predicate, p) && edge(snap@, None, a, p, b)) by {
            let k = (a, p);
            let o = ObjModel::Node(b);
            assert(ones.contains((a, p, b)) == (selected(predicate, p) && exists|j: int|
                0 <= j < n && #[trigger] s1[j] == (k, Some(o))));
            if exists|j: int| 0 <= j < n && #[trigger] s1[j] == (k, Some(o)) {
                let j = choose|j: int| 0 <= j < n && #[trigger] s1[j] == (k, Some(o));
                lemma_row::<(NodeId, FieldId), Option<ObjModel>>(s1, j);
            }
            if current_one(snap@, k) == Some(o) {
                lemma_key_row::<(NodeId, FieldId), Option<ObjModel>>(s1, k);
                assert(s1[row_of(s1, k)] == (k, Some(o)));
            }
            if exists|j: int| 0 <= j < m && (#[trigger] s2[j]).0 == k && s2[j].1.contains(o) {
                let j = choose|j: int|
                    0 <= j < m && (#[trigger] s2[j]).0 == k && s2[j].1.contains(o);
                lemma_row::<(NodeId, FieldId), Set<ObjModel>>(s2, j);
            }
            if current_many(snap@, k).contains(o) {
                lemma_key_row::<(NodeId, FieldId), Set<ObjModel>>(s2, k);
                assert(s2[row_of(s2, k)].0 == k);
            }
        }
    }
    out
}

proof fn lemma_push_contains<T>(s: Seq<T>, x: T)
    ensures
        forall|y: T| #[trigger] s.push(x).contains(y) <==> s.contains(y) || y == x,
{
    assert forall|y: T| #[trigger] s.push(x).contains(y) == (s.contains(y) || y == x) by {
        if s.contains(y) {
            let i = choose|i: int| 0 <= i < s.len() && s[i] == y;
            assert(s.push(x)[i] == y);
        }
        assert(s.push(x)[s.len() as int] == x);
        if s.push(x).contains(y) && y != x {
            let i = choose|i: int| 0 <= i < s.push(x).len() && s.push(x)[i] == y;
            assert(s[i] == y);
        }
    }
}

/// From each target, the subjects whose `predicate` edges lead to it.
fn reverse_adjacency(snap: &Snapshot, predicate: FieldId) -> (r: OrdMap<NodeId, OrdSet<NodeId>>)
    ensures
        forall|o: NodeId, s: NodeId| #[trigger]
            linked(r@, o, s) <==> edge(snap@, None, s, predicate, o),
{
    let edges = node_edges(snap, Some(predicate));
    let mut rev: OrdMap<NodeId, OrdSet<NodeId>> = OrdMap::new();
    let mut i: usize = 0;
    while i < edges.len()
        invariant
            i <= edges.len(),
            no_isolated(rev@),
            forall|o: NodeId, s: NodeId| #[trigger]
                linked(rev@, o, s) <==> exists|j: int|
                    0 <= j < i && (#[trigger] edges@[j]).0 == s && edges@[j].2 == o,
        decreases edges.len() - i,
    {
        let e = edges[i];
        link(&mut rev, e.2, e.0);
        i += 1;
    }
    proof {
        assert forall|o: NodeId, s: NodeId| #[trigger] linked(rev@, o, s) == edge(
            snap@,
            None,
            s,
            predicate,
            o,
        ) by {
            if linked(rev@, o, s) {
                let j = choose|j: int|
                    0 <= j < edges@.len() && (#[trigger] edges@[j]).0 == s && edges@[j].2 == o;
                assert(edges@.contains((s, edges@[j].1, o)));
            }
            if edge(snap@, None, s, predicate, o) {
                assert(edges@.contains((s, predicate, o)));
                let j = choose|j: int| 0 <= j < edges@.len() && edges@[j] == (s, predicate, o);
                assert(edges@[j].0 == s && edges@[j].2 == o);
            }
        }
    }
    rev
}

fn link_all(adj: &mut OrdMap<NodeId, OrdSet<NodeId>>, from: &OrdSet<NodeId>, to: NodeId)
    requires
        no_isolated(old(adj)@),
    ensures
        no_isolated(final(adj)@),
        forall|a: NodeId, b: NodeId| #[trigger]
            linked(final(adj)@, a, b) <==> linked(old(adj)@, a, b) || (b == to && from@.contains(
                a,
            )),
{
    let n: usize = from.len();
    let mut i: usize = 0;
    while i < n
        invariant
            i <= n,
            n == from.items().len(),
            no_isolated(adj@),
            forall|a: NodeId, b: NodeId| #[trigger]
                linked(adj@, a, b) <==> linked(old(adj)@, a, b) || (b == to
                    && from.items().take(i as int).contains(a)),
        decreases n - i,
    {
        proof {
            lemma_take_contains(from.items(), i as int);
        }
        link(adj, *from.at(i), to);
        i += 1;
    }
    assert(from.items().take(n as int) =~= from.items());
}

/// [`reverse_adjacency`] at valid time `at`.
fn reverse_adjacency_asof(snap: &Snapshot, predicate: FieldId, at: i64) -> (r: OrdMap<
    NodeId,
    OrdSet<NodeId>,
>)
    ensures
        forall|o: NodeId, s: NodeId| #[trigger]
            linked(r@, o, s) <==> edge(snap@, Some(at), s, predicate, o),
{
    let mut rev: OrdMap<NodeId, OrdSet<NodeId>> = OrdMap::new();
    let n: usize = snap.one_history.len();
    let mut i: usize = 0;
    while i < n
        invariant
            i <= n,
            n == snap.one_history.rows().len(),
            no_isolated(rev@),
            forall|o: NodeId, s: NodeId| #[trigger]
                linked(rev@, o, s) <==> edge(snap@, Some(at), s, predicate, o) && exists|j: int|
                    0 <= j < i && (#[trigger] snap.one_history.rows()[j]).0 == (s, predicate),
        decreases n - i,
    {
        let k = *snap.one_history.key_at(i);
        if k.1 == predicate {
            link_all(&mut rev, &expand_asof(snap, k.0, k.1, at), k.0);
        }
        proof {
            assert(snap.one_history.rows()[i as int].0 == k);
        }
        i += 1;
    }
    let ghost rev1 = rev@;
    let m: usize = snap.many_history.len();
    let mut i2: usize = 0;
    while i2 < m
        invariant
            i2 <= m,
            m == snap.many_history.rows().len(),
            no_isolated(rev@),
            forall|o: NodeId, s: NodeId| #[trigger]
                linked(rev@, o, s) <==> linked(rev1, o, s) || (edge(
                    snap@,
                    Some(at),
                    s,
                    predicate,
                    o,
                ) && exists|j: int|
                    0 <= j < i2 && (#[trigger] snap.many_history.rows()[j]).0 == (s, predicate)),
        decreases m - i2,
    {
        let k = *snap.many_history.key_at(i2);
        if k.1 == predicate {
            link_all(&mut rev, &expand_asof(snap, k.0, k.1, at), k.0);
        }
        proof {
            assert(snap.many_history.rows()[i2 as int].0 == k);
        }
        i2 += 1;
    }
    proof {
        let s1 = snap.one_history.rows();
        let s2 = snap.many_history.rows();
        assert forall|o: NodeId, s: NodeId| #[trigger] linked(rev@, o, s) == edge(
            snap@,
            Some(at),
            s,
            predicate,
            o,
        ) by {
            let k = (s, predicate);
            assert(linked(rev1, o, s) ==> edge(snap@, Some(at), s, predicate, o));
            if edge(snap@, Some(at), s, predicate, o) {
                if snap@.many_history.contains_key(k) {
                    lemma_key_row::<
                        (NodeId, FieldId),
                        Map<ObjModel, Seq<crate::fold::model::RowModel>>,
                    >(s2, k);
                    assert(s2[row_of(s2, k)].0 == k);
                } else {
                    if !snap@.one_history.contains_key(k) {
                        assert(one_at(snap@, k, at) is None);
                    }
                    lemma_key_row::<(NodeId, FieldId), Seq<crate::fold::model::RowModel>>(s1, k);
                    assert(s1[row_of(s1, k)].0 == k);
                    assert(linked(rev1, o, s));
                }
            }
        }
    }
    rev
}

fn reverse(snap: &Snapshot, at: Option<i64>, p: FieldId) -> (r: OrdMap<NodeId, OrdSet<NodeId>>)
    ensures
        forall|o: NodeId, s: NodeId| #[trigger] linked(r@, o, s) <==> edge(snap@, at, s, p, o),
{
    match at {
        None => reverse_adjacency(snap, p),
        Some(t) => reverse_adjacency_asof(snap, p, t),
    }
}

/// The properties that a predicate was registered with; none for one that is not registered.
pub open spec fn rel_props(c: CatalogModel, p: FieldId) -> RelProps {
    if c.predicates.contains_key(p) {
        c.predicates[p].props
    } else {
        RelProps { symmetric: false, transitive: false, inverse: None }
    }
}

/// Whether one hop leads from `a` to `b`: along an edge; for a symmetric predicate also against
/// one; for a predicate with an inverse also against an edge of that.
pub open spec fn hops(
    s: SnapshotModel,
    at: Option<i64>,
    props: RelProps,
    p: FieldId,
    a: NodeId,
    b: NodeId,
) -> bool {
    ||| edge(s, at, a, p, b)
    ||| props.symmetric && edge(s, at, b, p, a)
    ||| props.inverse matches Some(q) && edge(s, at, b, q, a)
}

/// The nodes that `n` hops or fewer, and at least one, lead to.
pub open spec fn within(
    s: SnapshotModel,
    at: Option<i64>,
    props: RelProps,
    p: FieldId,
    a: NodeId,
    n: nat,
) -> Set<NodeId>
    decreases n,
{
    if n == 0 {
        Set::empty()
    } else {
        Set::new(
            |b: NodeId|
                hops(s, at, props, p, a, b) || exists|m: NodeId|
                    within(s, at, props, p, a, (n - 1) as nat).contains(m) && #[trigger] hops(
                        s,
                        at,
                        props,
                        p,
                        m,
                        b,
                    ),
        )
    }
}

/// What a predicate's properties let one reach from `a`: one hop, or the closure up to `max_depth`
/// hops where the predicate is transitive.
pub open spec fn reached(
    s: SnapshotModel,
    c: CatalogModel,
    at: Option<i64>,
    a: NodeId,
    p: FieldId,
    max_depth: nat,
) -> Set<NodeId> {
    let props = rel_props(c, p);
    if props.transitive {
        within(s, at, props, p, a, max_depth)
    } else {
        Set::new(|b: NodeId| hops(s, at, props, p, a, b))
    }
}

/// More hops reach no less.
pub proof fn lemma_within_grows(
    s: SnapshotModel,
    at: Option<i64>,
    props: RelProps,
    p: FieldId,
    a: NodeId,
    n: nat,
)
    ensures
        within(s, at, props, p, a, n).subset_of(within(s, at, props, p, a, n + 1)),
    decreases n,
{
    if n > 0 {
        lemma_within_grows(s, at, props, p, a, (n - 1) as nat);
        let lo = within(s, at, props, p, a, (n - 1) as nat);
        let mid = within(s, at, props, p, a, n);
        assert forall|b: NodeId| #[trigger] mid.contains(b) implies within(
            s,
            at,
            props,
            p,
            a,
            n + 1,
        ).contains(b) by {
            if !hops(s, at, props, p, a, b) {
                let m = choose|m: NodeId|
                    lo.contains(m) && #[trigger] hops(s, at, props, p, m, b);
                assert(mid.contains(m));
            }
        }
    }
}

/// Once a hop reaches nothing new, no number of hops does.
proof fn lemma_within_stops(
    s: SnapshotModel,
    at: Option<i64>,
    props: RelProps,
    p: FieldId,
    a: NodeId,
    h: nat,
    n: nat,
)
    requires
        within(s, at, props, p, a, h) == within(s, at, props, p, a, h + 1),
        h <= n,
    ensures
        within(s, at, props, p, a, n) == within(s, at, props, p, a, h),
    decreases n,
{
    if n > h {
        lemma_within_stops(s, at, props, p, a, h, (n - 1) as nat);
        assert(within(s, at, props, p, a, n) =~= within(s, at, props, p, a, h + 1));
    }
}

/// One property-aware hop.
fn step(
    snap: &Snapshot,
    at: Option<i64>,
    predicate: FieldId,
    rev_p: &Option<OrdMap<NodeId, OrdSet<NodeId>>>,
    rev_inv: &Option<OrdMap<NodeId, OrdSet<NodeId>>>,
    node: NodeId,
    Ghost(props): Ghost<RelProps>,
) -> (r: OrdSet<NodeId>)
    requires
        rev_p is Some == props.symmetric,
        rev_p matches Some(m) ==> (forall|o: NodeId, s: NodeId| #[trigger]
            linked(m@, o, s) <==> edge(snap@, at, s, predicate, o)),
        rev_inv is Some == props.inverse is Some,
        rev_inv matches Some(m) ==> (forall|o: NodeId, s: NodeId| #[trigger]
            linked(m@, o, s) <==> edge(snap@, at, s, props.inverse->0, o)),
    ensures
        forall|b: NodeId| #[trigger]
            r@.contains(b) <==> hops(snap@, at, props, predicate, node, b),
{
    let mut out = hop(snap, at, node, predicate);
    if let Some(m) = rev_p {
        if let Some(s) = m.get(&node) {
            out.extend_from(s);
        }
        assert(forall|b: NodeId| #[trigger]
            linked(m@, node, b) <==> edge(snap@, at, b, predicate, node));
    }
    let ghost out1 = out@;
    assert forall|b: NodeId| #[trigger] out1.contains(b) == (edge(snap@, at, node, predicate, b)
        || (props.symmetric && edge(snap@, at, b, predicate, node))) by {
        if rev_p is Some {
            assert(linked(rev_p->0@, node, b) == edge(snap@, at, b, predicate, node));
        }
    }
    if let Some(m) = rev_inv {
        if let Some(s) = m.get(&node) {
            out.extend_from(s);
        }
    }
    assert forall|b: NodeId| #[trigger] out@.contains(b) == hops(
        snap@,
        at,
        props,
        predicate,
        node,
        b,
    ) by {
        assert(out1.contains(b) == out1.contains(b));
        if rev_inv is Some {
            assert(linked(rev_inv->0@, node, b) == edge(snap@, at, b, props.inverse->0, node));
        }
    }
    out
}

fn expand_rel_at(
    snap: &Snapshot,
    catalog: &Catalog,
    subject: NodeId,
    predicate: FieldId,
    max_depth: usize,
    at: Option<i64>,
) -> (r: OrdSet<NodeId>)
    ensures
        r@ == reached(snap@, catalog@, at, subject, predicate, max_depth as nat),
{
    let props = match catalog.predicate(predicate) {
        Some(d) => d.props,
        None => RelProps { symmetric: false, transitive: false, inverse: None },
    };
    let ghost s = snap@;
    let ghost goal = reached(snap@, catalog@, at, subject, predicate, max_depth as nat);
    if !props.symmetric && !props.transitive && props.inverse.is_none() {
        let r = hop(snap, at, subject, predicate);
        assert(r@ =~= goal);
        return r;
    }
    let rev_p = if props.symmetric {
        Some(reverse(snap, at, predicate))
    } else {
        None
    };
    let rev_inv = match props.inverse {
        Some(q) => Some(reverse(snap, at, q)),
        None => None,
    };
    if !props.transitive {
        let r = step(snap, at, predicate, &rev_p, &rev_inv, subject, Ghost(props));
        assert(r@ =~= goal);
        return r;
    }
    let mut result: OrdSet<NodeId> = OrdSet::new();
    if max_depth == 0 {
        assert(result@ =~= goal);
        return result;
    }
    let mut current = step(snap, at, predicate, &rev_p, &rev_inv, subject, Ghost(props));
    let mut hops_done: usize = 1;
    proof {
        let w0 = within(s, at, props, predicate, subject, 0);
        let w1 = within(s, at, props, predicate, subject, 1);
        assert(result@ =~= w0);
        assert(current@ =~= w1.difference(w0)) by {
            assert forall|b: NodeId| #[trigger] current@.contains(b) == w1.difference(w0).contains(
                b,
            ) by {
                assert(current@.contains(b) == hops(s, at, props, predicate, subject, b));
            }
        }
    }
    loop
        invariant_except_break
            1 <= hops_done <= max_depth,
            s == snap@,
            props.transitive,
            result@ == within(s, at, props, predicate, subject, (hops_done - 1) as nat),
            current@ == within(s, at, props, predicate, subject, hops_done as nat).difference(
                within(s, at, props, predicate, subject, (hops_done - 1) as nat),
            ),
            rev_p is Some == props.symmetric,
            rev_p matches Some(m) ==> (forall|o: NodeId, s2: NodeId| #[trigger]
                linked(m@, o, s2) <==> edge(snap@, at, s2, predicate, o)),
            rev_inv is Some == props.inverse is Some,
            rev_inv matches Some(m) ==> (forall|o: NodeId, s2: NodeId| #[trigger]
                linked(m@, o, s2) <==> edge(snap@, at, s2, props.inverse->0, o)),
        ensures
            result@ == within(s, at, props, predicate, subject, max_depth as nat),
        decreases max_depth - hops_done,
    {
        let ghost lo = within(s, at, props, predicate, subject, (hops_done - 1) as nat);
        let ghost mid = within(s, at, props, predicate, subject, hops_done as nat);
        proof {
            lemma_within_grows(s, at, props, predicate, subject, (hops_done - 1) as nat);
        }
        result.extend_from(&current);
        assert(result@ =~= mid);
        if hops_done >= max_depth {
            break;
        }
        if current.is_empty() {
            proof {
                assert forall|b: NodeId| #[trigger] mid.contains(b) implies lo.contains(b) by {
                    if !lo.contains(b) {
                        assert(current@.contains(b));
                    }
                }
                assert(lo =~= mid);
                lemma_within_stops(
                    s,
                    at,
                    props,
                    predicate,
                    subject,
                    (hops_done - 1) as nat,
                    max_depth as nat,
                );
            }
            break;
        }
        let mut next: OrdSet<NodeId> = OrdSet::new();
        let n: usize = current.len();
        let mut i: usize = 0;
        while i < n
            invariant
                i <= n,
                s == snap@,
                n == current.items().len(),
                result@ == mid,
                rev_p is Some == props.symmetric,
                rev_p matches Some(m) ==> (forall|o: NodeId, s2: NodeId| #[trigger]
                    linked(m@, o, s2) <==> edge(snap@, at, s2, predicate, o)),
                rev_inv is Some == props.inverse is Some,
                rev_inv matches Some(m) ==> (forall|o: NodeId, s2: NodeId| #[trigger]
                    linked(m@, o, s2) <==> edge(snap@, at, s2, props.inverse->0, o)),
                forall|b: NodeId| #[trigger]
                    next@.contains(b) <==> !mid.contains(b) && exists|j: int|
                        0 <= j < i && hops(
                            s,
                            at,
                            props,
                            predicate,
                            #[trigger] current.items()[j],
                            b,
                        ),
            decreases n - i,
        {
            let node: NodeId = *current.at(i);
            let found = step(snap, at, predicate, &rev_p, &rev_inv, node, Ghost(props));
            add_new(&mut next, &found, &result);
            proof {
                assert forall|b: NodeId| #[trigger] next@.contains(b) == (!mid.contains(b)
                    && exists|j: int|
                    0 <= j < i + 1 && hops(
                        s,
                        at,
                        props,
                        predicate,
                        #[trigger] current.items()[j],
                        b,
                    )) by {
                    assert(found@.contains(b) == hops(s, at, props, predicate, node, b));
                    assert(current.items()[i as int] == node);
                }
            }
            i += 1;
        }
        proof {
            let hi = within(s, at, props, predicate, subject, (hops_done + 1) as nat);
            assert forall|b: NodeId| #[trigger] next@.contains(b) == hi.difference(mid).contains(
                b,
            ) by {
                if next@.contains(b) {
                    let j = choose|j: int|
                        0 <= j < n && hops(
                            s,
                            at,
                            props,
                            predicate,
                            #[trigger] current.items()[j],
                            b,
                        );
                    let m = current.items()[j];
                    assert(current.items().contains(m));
                    assert(current@.contains(m));
                    assert(mid.contains(m));
                }
                if hi.contains(b) && !mid.contains(b) {
                    assert(!hops(s, at, props, predicate, subject, b));
                    let m = choose|m: NodeId|
                        mid.contains(m) && #[trigger] hops(s, at, props, predicate, m, b);
                    assert(!lo.contains(m));
                    assert(current@.contains(m));
                    assert(current.items().contains(m));
                    let j = choose|j: int|
                        0 <= j < current.items().len() && current.items()[j] == m;
                    assert(hops(s, at, props, predicate, current.items()[j], b));
                }
            }
            assert(next@ =~= hi.difference(mid));
        }
        current = next;
        hops_done += 1;
    }
    assert(result@ =~= goal);
    result
}

/// Add the members of `found` that are not in `known`.
fn add_new(out: &mut OrdSet<NodeId>, found: &OrdSet<NodeId>, known: &OrdSet<NodeId>)
    ensures
        forall|b: NodeId| #[trigger]
            final(out)@.contains(b) <==> old(out)@.contains(b) || (found@.contains(b)
                && !known@.contains(b)),
{
    let n: usize = found.len();
    let mut i: usize = 0;
    while i < n
        invariant
            i <= n,
            n == found.items().len(),
            forall|b: NodeId| #[trigger]
                out@.contains(b) <==> old(out)@.contains(b) || (found.items().take(
                    i as int,
                ).contains(b) && !known@.contains(b)),
        decreases n - i,
    {
        proof {
            lemma_take_contains(found.items(), i as int);
        }
        let b: NodeId = *found.at(i);
        if !known.contains(&b) {
            out.insert(b);
        }
        i += 1;
    }
    assert(found.items().take(n as int) =~= found.items());
}

/// Expansion by a predicate's declared properties: one hop, or for a transitive predicate every
/// node within `max_depth` hops. Cycles end at the nodes already reached.
pub fn expand_rel(
    snap: &Snapshot,
    catalog: &Catalog,
    subject: NodeId,
    predicate: FieldId,
    max_depth: usize,
) -> (r: OrdSet<NodeId>)
    ensures
        r@ == reached(snap@, catalog@, None, subject, predicate, max_depth as nat),
{
    expand_rel_at(snap, catalog, subject, predicate, max_depth, None)
}

/// [`expand_rel`] at valid time `at`: every hop answers from the state in effect then.
pub fn expand_rel_asof(
    snap: &Snapshot,
    catalog: &Catalog,
    subject: NodeId,
    predicate: FieldId,
    max_depth: usize,
    at: i64,
) -> (r: OrdSet<NodeId>)
    ensures
        r@ == reached(snap@, catalog@, Some(at), subject, predicate, max_depth as nat),
{
    expand_rel_at(snap, catalog, subject, predicate, max_depth, Some(at))
}

/// Whether an edge links two nodes, in either direction, by a selected predicate.
pub open spec fn connects(
    s: SnapshotModel,
    predicate: Option<FieldId>,
    p: FieldId,
    a: NodeId,
    b: NodeId,
) -> bool {
    selected(predicate, p) && (edge(s, None, a, p, b) || edge(s, None, b, p, a))
}

/// Whether two nodes are linked at all.
pub open spec fn adjacent(
    s: SnapshotModel,
    predicate: Option<FieldId>,
    a: NodeId,
    b: NodeId,
) -> bool {
    exists|p: FieldId| connects(s, predicate, p, a, b)
}

/// The undirected adjacency of the whole snapshot, or of one predicate: every edge links both its
/// ends. A node without edges is absent.
pub fn undirected_adjacency(snap: &Snapshot, predicate: Option<FieldId>) -> (r: OrdMap<
    NodeId,
    OrdSet<NodeId>,
>)
    ensures
        r@ == relation_map(|a: NodeId, b: NodeId| adjacent(snap@, predicate, a, b)),
{
    let edges = node_edges(snap, predicate);
    let mut adj: OrdMap<NodeId, OrdSet<NodeId>> = OrdMap::new();
    let mut i: usize = 0;
    while i < edges.len()
        invariant
            i <= edges.len(),
            no_isolated(adj@),
            forall|a: NodeId, b: NodeId| #[trigger]
                linked(adj@, a, b) <==> exists|j: int|
                    0 <= j < i && (((#[trigger] edges@[j]).0 == a && edges@[j].2 == b) || (
                    edges@[j].0 == b && edges@[j].2 == a)),
        decreases edges.len() - i,
    {
        let e = edges[i];
        link(&mut adj, e.0, e.2);
        link(&mut adj, e.2, e.0);
        i += 1;
    }
    proof {
        let rel = |a: NodeId, b: NodeId| adjacent(snap@, predicate, a, b);
        assert forall|a: NodeId, b: NodeId| #[trigger] linked(adj@, a, b) == rel(a, b) by {
            if linked(adj@, a, b) {
                let j = choose|j: int|
                    0 <= j < edges@.len() && (((#[trigger] edges@[j]).0 == a && edges@[j].2 == b)
                        || (edges@[j].0 == b && edges@[j].2 == a));
                let e = edges@[j];
                assert(edges@.contains((e.0, e.1, e.2)));
                assert(connects(snap@, predicate, e.1, a, b));
            }
            if adjacent(snap@, predicate, a, b) {
                let p = choose|p: FieldId| connects(snap@, predicate, p, a, b);
                if edge(snap@, None, a, p, b) {
                    assert(edges@.contains((a, p, b)));
                    let j = choose|j: int| 0 <= j < edges@.len() && edges@[j] == (a, p, b);
                    assert(edges@[j].0 == a && edges@[j].2 == b);
                } else {
                    assert(edges@.contains((b, p, a)));
                    let j = choose|j: int| 0 <= j < edges@.len() && edges@[j] == (b, p, a);
                    assert(edges@[j].0 == b && edges@[j].2 == a);
                }
            }
        }
        lemma_relation_map(adj@, rel);
    }
    adj
}

/// The predicates that connect two nodes.
pub open spec fn connecting(
    s: SnapshotModel,
    predicate: Option<FieldId>,
    a: NodeId,
    b: NodeId,
) -> Set<FieldId> {
    Set::new(|p: FieldId| connects(s, predicate, p, a, b))
}

/// For each linked pair, the smaller node first: how many distinct predicates connect it.
pub open spec fn strengths(s: SnapshotModel, predicate: Option<FieldId>) -> Map<
    (NodeId, NodeId),
    u32,
> {
    Map::new(
        |k: (NodeId, NodeId)| k.0 <= k.1 && adjacent(s, predicate, k.0, k.1),
        |k: (NodeId, NodeId)| count32(connecting(s, predicate, k.0, k.1).len()),
    )
}

/// The strength of every linked pair of nodes: the number of distinct predicates that connect it,
/// in either direction; optionally of one predicate.
pub fn edge_strengths(snap: &Snapshot, predicate: Option<FieldId>) -> (r: OrdMap<
    (NodeId, NodeId),
    u32,
>)
    ensures
        r@ == strengths(snap@, predicate),
{
    let edges = node_edges(snap, predicate);
    let mut preds: OrdMap<(NodeId, NodeId), OrdSet<FieldId>> = OrdMap::new();
    let mut i: usize = 0;
    while i < edges.len()
        invariant
            i <= edges.len(),
            forall|k: (NodeId, NodeId)| #[trigger]
                preds@.contains_key(k) ==> k.0 <= k.1 && exists|p: FieldId| preds@[k].contains(p),
            forall|k: (NodeId, NodeId), p: FieldId|
                k.0 <= k.1 ==> (#[trigger] noted(preds@, k, p) <==> exists|j: int|
                    0 <= j < i && (#[trigger] edges@[j]).1 == p && pair_of(edges@[j]) == k),
        decreases edges.len() - i,
    {
        let e = edges[i];
        let k = if e.0 < e.2 {
            (e.0, e.2)
        } else {
            (e.2, e.0)
        };
        let ghost preds0 = preds@;
        let mut s = match preds.take(&k) {
            Some(s) => s,
            None => OrdSet::new(),
        };
        s.insert(e.1);
        let ghost sv = s@;
        preds.insert(k, s);
        proof {
            assert(sv.contains(e.1));
            assert forall|q: (NodeId, NodeId)| #[trigger] preds@.contains_key(q) implies q.0 <= q.1
                && exists|p: FieldId| preds@[q].contains(p) by {
                if q == k {
                    assert(preds@[q].contains(e.1));
                } else {
                    assert(preds0.contains_key(q));
                    let p = choose|p: FieldId| preds0[q].contains(p);
                    assert(preds@[q].contains(p));
                }
            }
            assert forall|q: (NodeId, NodeId), p: FieldId| q.0 <= q.1 implies (#[trigger] noted(
                preds@,
                q,
                p,
            ) == exists|j: int|
                0 <= j < i + 1 && (#[trigger] edges@[j]).1 == p && pair_of(edges@[j]) == q) by {
                assert(noted(preds@, q, p) == (noted(preds0, q, p) || (q == k && p == e.1)));
                assert(edges@[i as int] == e);
            }
        }
        i += 1;
    }
    let n: usize = preds.len();
    let mut out: OrdMap<(NodeId, NodeId), u32> = OrdMap::new();
    let ghost goal = Map::new(
        |k: (NodeId, NodeId)| preds@.contains_key(k),
        |k: (NodeId, NodeId)| count32(preds@[k].len()),
    );
    let ghost m0 = out@;
    let ghost s = preds.rows();
    proof {
        crate::ordmap::lemma_partway_start(m0, goal, s);
    }
    let mut i2: usize = 0;
    while i2 < n
        invariant
            i2 <= n,
            n == s.len(),
            s == preds.rows(),
            ascending::<(NodeId, NodeId), Set<FieldId>>(s),
            goal == Map::new(
                |k: (NodeId, NodeId)| preds@.contains_key(k),
                |k: (NodeId, NodeId)| count32(preds@[k].len()),
            ),
            m0 == Map::<(NodeId, NodeId), u32>::empty(),
            out@ == crate::ordmap::partway(m0, goal, s.take(i2 as int)),
        decreases n - i2,
    {
        proof {
            crate::ordmap::lemma_partway_step::<(NodeId, NodeId), Set<FieldId>, u32>(
                m0,
                goal,
                s,
                i2 as int,
            );
            lemma_row::<(NodeId, NodeId), Set<FieldId>>(s, i2 as int);
        }
        let c: usize = preds.value_at(i2).len();
        let w: u32 = ((c as u64) % 0x1_0000_0000u64) as u32;
        out.insert(*preds.key_at(i2), w);
        i2 += 1;
    }
    proof {
        assert forall|k: (NodeId, NodeId)|
            !(#[trigger] crate::ordmap::has_row(s, k)) implies goal.contains_key(k)
            == m0.contains_key(k) && (goal.contains_key(k) ==> goal[k] == m0[k]) by {
            assert(!preds@.contains_key(k));
        }
        crate::ordmap::lemma_partway_end(m0, goal, s);
        let fin = strengths(snap@, predicate);
        assert forall|k: (NodeId, NodeId), p: FieldId| k.0 <= k.1 implies (#[trigger] noted(
            preds@,
            k,
            p,
        ) == connects(snap@, predicate, p, k.0, k.1)) by {
            if noted(preds@, k, p) {
                let j = choose|j: int|
                    0 <= j < edges@.len() && (#[trigger] edges@[j]).1 == p && pair_of(edges@[j])
                        == k;
                let e = edges@[j];
                assert(edges@.contains((e.0, e.1, e.2)));
            }
            if connects(snap@, predicate, p, k.0, k.1) {
                if edge(snap@, None, k.0, p, k.1) {
                    assert(edges@.contains((k.0, p, k.1)));
                    let j = choose|j: int| 0 <= j < edges@.len() && edges@[j] == (k.0, p, k.1);
                    assert(edges@[j].1 == p && pair_of(edges@[j]) == k);
                } else {
                    assert(edges@.contains((k.1, p, k.0)));
                    let j = choose|j: int| 0 <= j < edges@.len() && edges@[j] == (k.1, p, k.0);
                    assert(edges@[j].1 == p && pair_of(edges@[j]) == k);
                }
            }
        }
        assert forall|k: (NodeId, NodeId)|
            #![trigger goal.dom().contains(k)]
            #![trigger fin.dom().contains(k)]
            goal.dom().contains(k) == fin.dom().contains(k) && (goal.dom().contains(k) ==> goal[k]
                == fin[k]) by {
            if goal.contains_key(k) {
                assert(preds@.contains_key(k));
                let p = choose|p: FieldId| preds@[k].contains(p);
                assert(noted(preds@, k, p));
                assert(connects(snap@, predicate, p, k.0, k.1));
            }
            if fin.contains_key(k) {
                let p = choose|p: FieldId| connects(snap@, predicate, p, k.0, k.1);
                assert(noted(preds@, k, p));
            }
            if preds@.contains_key(k) {
                assert forall|p: FieldId| #[trigger] preds@[k].contains(p) == connecting(
                    snap@,
                    predicate,
                    k.0,
                    k.1,
                ).contains(p) by {
                    assert(noted(preds@, k, p) == connects(snap@, predicate, p, k.0, k.1));
                }
                assert(preds@[k] =~= connecting(snap@, predicate, k.0, k.1));
            }
        }
        assert(goal =~= fin);
    }
    out
}

/// Whether a predicate was noted for a pair.
spec fn noted(preds: Map<(NodeId, NodeId), Set<FieldId>>, k: (NodeId, NodeId), p: FieldId) -> bool {
    preds.contains_key(k) && preds[k].contains(p)
}

/// The ends of an edge, the smaller first.
spec fn pair_of(e: (NodeId, FieldId, NodeId)) -> (NodeId, NodeId) {
    if e.0 < e.2 {
        (e.0, e.2)
    } else {
        (e.2, e.0)
    }
}

/// The nodes that an edge `--p-->` of some node of a set leads to.
pub open spec fn expanded_set(s: SnapshotModel, subjects: Set<NodeId>, p: FieldId) -> Set<NodeId> {
    Set::new(
        |b: NodeId| exists|a: NodeId| subjects.contains(a) && #[trigger] edge(s, None, a, p, b),
    )
}

/// The nodes at the end of two edges, `--p1-->` and then `--p2-->`.
pub open spec fn two_hops(s: SnapshotModel, a: NodeId, p1: FieldId, p2: FieldId) -> Set<NodeId> {
    Set::new(
        |y: NodeId|
            exists|x: NodeId| edge(s, None, a, p1, x) && #[trigger] edge(s, None, x, p2, y),
    )
}

/// One hop from every node of a set.
pub fn expand_set(snap: &Snapshot, subjects: &OrdSet<NodeId>, predicate: FieldId) -> (r: OrdSet<
    NodeId,
>)
    ensures
        r@ == expanded_set(snap@, subjects@, predicate),
{
    let mut out: OrdSet<NodeId> = OrdSet::new();
    let n: usize = subjects.len();
    let mut i: usize = 0;
    while i < n
        invariant
            i <= n,
            n == subjects.items().len(),
            forall|b: NodeId| #[trigger]
                out@.contains(b) <==> exists|a: NodeId|
                    subjects.items().take(i as int).contains(a) && #[trigger] edge(
                        snap@,
                        None,
                        a,
                        predicate,
                        b,
                    ),
        decreases n - i,
    {
        proof {
            lemma_take_contains(subjects.items(), i as int);
        }
        let a: NodeId = *subjects.at(i);
        let found = expand(snap, a, predicate);
        let ghost out0 = out@;
        out.extend_from(&found);
        proof {
            assert forall|b: NodeId| #[trigger] out@.contains(b) == exists|x: NodeId|
                subjects.items().take(i + 1).contains(x) && #[trigger] edge(
                    snap@,
                    None,
                    x,
                    predicate,
                    b,
                ) by {
                assert(out@.contains(b) == (out0.contains(b) || edge(snap@, None, a, predicate, b)));
                if out0.contains(b) {
                    let x = choose|x: NodeId|
                        subjects.items().take(i as int).contains(x) && #[trigger] edge(
                            snap@,
                            None,
                            x,
                            predicate,
                            b,
                        );
                    assert(subjects.items().take(i + 1).contains(x));
                }
                if edge(snap@, None, a, predicate, b) {
                    assert(subjects.items().take(i + 1).contains(a));
                }
            }
        }
        i += 1;
    }
    proof {
        assert(subjects.items().take(n as int) =~= subjects.items());
        assert(out@ =~= expanded_set(snap@, subjects@, predicate));
    }
    out
}

/// Two hops: the nodes at the end of `subject --p1--> x --p2--> y`.
pub fn two_hop(snap: &Snapshot, subject: NodeId, p1: FieldId, p2: FieldId) -> (r: OrdSet<NodeId>)
    ensures
        r@ == two_hops(snap@, subject, p1, p2),
{
    let hop1 = expand(snap, subject, p1);
    let r = expand_set(snap, &hop1, p2);
    proof {
        let goal = two_hops(snap@, subject, p1, p2);
        assert forall|y: NodeId| #[trigger] r@.contains(y) == goal.contains(y) by {
            if r@.contains(y) {
                let a = choose|a: NodeId|
                    hop1@.contains(a) && #[trigger] edge(snap@, None, a, p2, y);
                assert(edge(snap@, None, subject, p1, a));
            }
            if goal.contains(y) {
                let x = choose|x: NodeId|
                    edge(snap@, None, subject, p1, x) && #[trigger] edge(snap@, None, x, p2, y);
                assert(hop1@.contains(x));
            }
        }
        assert(r@ =~= goal);
    }
    r
}

/// The entries of a subject: they stand together, as keys are ordered by subject first.
fn span<V: DeepView>(m: &OrdMap<(NodeId, FieldId), V>, subject: NodeId) -> (r: (usize, usize))
    ensures
        r.0 <= r.1 <= m.rows().len(),
        ascending::<(NodeId, FieldId), <V as DeepView>::V>(m.rows()),
        forall|j: int|
            0 <= j < m.rows().len() ==> ((#[trigger] m.rows()[j]).0.0 == subject <==> r.0 <= j
                < r.1),
{
    let n: usize = m.len();
    let ghost s = m.rows();
    let lo: usize = m.lower_bound(&(subject, 0));
    let mut hi: usize = lo;
    while hi < n && m.key_at(hi).0 == subject
        invariant
            lo <= hi <= n,
            n == m.rows().len(),
            s == m.rows(),
            forall|j: int| lo <= j < hi ==> (#[trigger] s[j]).0.0 == subject,
        decreases n - hi,
    {
        hi += 1;
    }
    proof {
        assert forall|j: int| 0 <= j < s.len() implies ((#[trigger] s[j]).0.0 == subject <==> lo <= j
            < hi) by {
            if j < lo {
                assert(s[j].0.0 < subject);
            } else if j >= hi {
                assert(s[hi as int].0.0 > subject);
                if j > hi {
                    assert(s[hi as int].0.0 <= s[j].0.0);
                }
            }
        }
    }
    (lo, hi)
}

/// The nodes that any edge of `subject` leads to.
pub open spec fn all_targets(s: SnapshotModel, subject: NodeId) -> Set<NodeId> {
    Set::new(|b: NodeId| exists|p: FieldId| edge(s, None, subject, p, b))
}

/// One hop by every predicate.
pub fn neighbors(snap: &Snapshot, subject: NodeId) -> (r: OrdSet<NodeId>)
    ensures
        r@ == all_targets(snap@, subject),
{
    let mut out: OrdSet<NodeId> = OrdSet::new();
    let ghost s1 = snap.one.rows();
    let ghost s2 = snap.many.rows();
    let (lo, hi) = span(&snap.one, subject);
    let mut i: usize = lo;
    while i < hi
        invariant
            lo <= i <= hi <= s1.len(),
            s1 == snap.one.rows(),
            forall|b: NodeId| #[trigger]
                out@.contains(b) <==> exists|j: int|
                    lo <= j < i && (#[trigger] s1[j]).1 == Some(ObjModel::Node(b)),
        decreases hi - i,
    {
        let v = snap.one.value_at(i);
        assert(v.deep_view() == s1[i as int].1);
        if let Some(ObjKey::Node(b)) = v {
            out.insert(*b);
        }
        i += 1;
    }
    let ghost ones = out@;
    let (lo2, hi2) = span(&snap.many, subject);
    let mut i2: usize = lo2;
    while i2 < hi2
        invariant
            lo2 <= i2 <= hi2 <= s2.len(),
            s2 == snap.many.rows(),
            forall|b: NodeId| #[trigger]
                out@.contains(b) <==> ones.contains(b) || exists|j: int|
                    lo2 <= j < i2 && (#[trigger] s2[j]).1.contains(ObjModel::Node(b)),
        decreases hi2 - i2,
    {
        let set = snap.many.value_at(i2);
        assert(set@ == s2[i2 as int].1);
        add_nodes(&mut out, set);
        i2 += 1;
    }
    proof {
        assert forall|b: NodeId| #[trigger] out@.contains(b) == all_targets(
            snap@,
            subject,
        ).contains(b) by {
            let o = ObjModel::Node(b);
            if ones.contains(b) {
                let j = choose|j: int| lo <= j < hi && (#[trigger] s1[j]).1 == Some(o);
                lemma_row::<(NodeId, FieldId), Option<ObjModel>>(s1, j);
                assert(s1[j].0 == (subject, s1[j].0.1));
                assert(edge(snap@, None, subject, s1[j].0.1, b));
            }
            if exists|j: int| lo2 <= j < hi2 && (#[trigger] s2[j]).1.contains(o) {
                let j = choose|j: int| lo2 <= j < hi2 && (#[trigger] s2[j]).1.contains(o);
                lemma_row::<(NodeId, FieldId), Set<ObjModel>>(s2, j);
                assert(s2[j].0 == (subject, s2[j].0.1));
                assert(edge(snap@, None, subject, s2[j].0.1, b));
            }
            if all_targets(snap@, subject).contains(b) {
                let p = choose|p: FieldId| edge(snap@, None, subject, p, b);
                let k = (subject, p);
                if current_one(snap@, k) == Some(o) {
                    lemma_key_row::<(NodeId, FieldId), Option<ObjModel>>(s1, k);
                    let j = row_of(s1, k);
                    assert(s1[j].0.0 == subject);
                    assert(s1[j].1 == Some(o));
                    assert(ones.contains(b));
                } else {
                    lemma_key_row::<(NodeId, FieldId), Set<ObjModel>>(s2, k);
                    let j = row_of(s2, k);
                    assert(s2[j].0.0 == subject);
                    assert(s2[j].1.contains(o));
                }
            }
        }
        assert(out@ =~= all_targets(snap@, subject));
    }
    out
}

/// The current values of a subject by predicate.
pub open spec fn values_of(s: SnapshotModel, subject: NodeId) -> Map<FieldId, ObjModel> {
    Map::new(
        |p: FieldId| current_one(s, (subject, p)) is Some,
        |p: FieldId| current_one(s, (subject, p))->0,
    )
}

/// The sets of a subject that are not empty, by predicate.
pub open spec fn sets_of(s: SnapshotModel, subject: NodeId) -> Map<FieldId, Set<ObjModel>> {
    Map::new(
        |p: FieldId| current_many(s, (subject, p)) != Set::<ObjModel>::empty(),
        |p: FieldId| current_many(s, (subject, p)),
    )
}

/// The sets of a subject as a listing: ascending by predicate, elements ascending.
pub open spec fn set_listing(m: Map<FieldId, Set<ObjModel>>) -> Seq<(FieldId, Seq<ObjModel>)> {
    let rows = sorted_rows::<FieldId, Set<ObjModel>>(m);
    Seq::new(rows.len(), |i: int| (rows[i].0, sorted_items::<ObjKey>(rows[i].1)))
}

fn describe_ones(snap: &Snapshot, subject: NodeId) -> (r: Vec<(FieldId, ObjKey)>)
    ensures
        r.deep_view() == sorted_rows::<FieldId, ObjModel>(values_of(snap@, subject)),
{
    let mut m: OrdMap<FieldId, ObjKey> = OrdMap::new();
    let ghost s1 = snap.one.rows();
    let ghost goal = values_of(snap@, subject);
    let (lo, hi) = span(&snap.one, subject);
    let mut i: usize = lo;
    while i < hi
        invariant
            lo <= i <= hi <= s1.len(),
            s1 == snap.one.rows(),
            ascending::<(NodeId, FieldId), Option<ObjModel>>(s1),
            goal == values_of(snap@, subject),
            forall|j: int| lo <= j < hi ==> (#[trigger] s1[j]).0.0 == subject,
            forall|p: FieldId| #[trigger] m@.contains_key(p) ==> goal.contains_key(p) && m@[p]
                == goal[p],
            forall|j: int|
                lo <= j < i && (#[trigger] s1[j]).1 is Some ==> m@.contains_key(s1[j].0.1),
        decreases hi - i,
    {
        let k = *snap.one.key_at(i);
        let v = snap.one.value_at(i);
        proof {
            lemma_row::<(NodeId, FieldId), Option<ObjModel>>(s1, i as int);
            assert(s1[i as int].0 == (subject, k.1));
            assert(snap@.one[(subject, k.1)] == v.deep_view());
        }
        if let Some(o) = v {
            m.insert(k.1, o.dup());
        }
        i += 1;
    }
    proof {
        assert forall|p: FieldId| #[trigger] goal.contains_key(p) implies m@.contains_key(p) by {
            let k = (subject, p);
            lemma_key_row::<(NodeId, FieldId), Option<ObjModel>>(s1, k);
            let j = row_of(s1, k);
            assert(s1[j].0.0 == subject);
            assert(s1[j].1 is Some);
        }
        assert(m@ =~= goal);
    }
    let n: usize = m.len();
    let mut out: Vec<(FieldId, ObjKey)> = Vec::new();
    let mut x: usize = 0;
    while x < n
        invariant
            x <= n,
            n == m.rows().len(),
            out.len() == x,
            forall|j: int| 0 <= j < x ==> (#[trigger] out@[j]).deep_view() == m.rows()[j],
        decreases n - x,
    {
        let e = (*m.key_at(x), m.value_at(x).dup());
        assert(e.deep_view() == m.rows()[x as int]);
        out.push(e);
        x += 1;
    }
    assert(out.deep_view() =~= m.rows());
    out
}

fn describe_manys(snap: &Snapshot, subject: NodeId) -> (r: Vec<(FieldId, Vec<ObjKey>)>)
    ensures
        r.deep_view() == set_listing(sets_of(snap@, subject)),
{
    let mut m: OrdMap<FieldId, OrdSet<ObjKey>> = OrdMap::new();
    let ghost s2 = snap.many.rows();
    let ghost goal = sets_of(snap@, subject);
    let (lo, hi) = span(&snap.many, subject);
    let mut i: usize = lo;
    while i < hi
        invariant
            lo <= i <= hi <= s2.len(),
            s2 == snap.many.rows(),
            ascending::<(NodeId, FieldId), Set<ObjModel>>(s2),
            goal == sets_of(snap@, subject),
            forall|j: int| lo <= j < hi ==> (#[trigger] s2[j]).0.0 == subject,
            forall|p: FieldId| #[trigger] m@.contains_key(p) ==> goal.contains_key(p) && m@[p]
                == goal[p],
            forall|j: int|
                lo <= j < i && (#[trigger] s2[j]).1 != Set::<ObjModel>::empty() ==> m@.contains_key(
                    s2[j].0.1,
                ),
        decreases hi - i,
    {
        let k = *snap.many.key_at(i);
        let set = snap.many.value_at(i);
        proof {
            lemma_row::<(NodeId, FieldId), Set<ObjModel>>(s2, i as int);
            assert(s2[i as int].0 == (subject, k.1));
            assert(snap@.many[(subject, k.1)] == set@);
        }
        if !set.is_empty() {
            m.insert(k.1, set.dup());
        }
        i += 1;
    }
    proof {
        assert forall|p: FieldId| #[trigger] goal.contains_key(p) implies m@.contains_key(p) by {
            let k = (subject, p);
            lemma_key_row::<(NodeId, FieldId), Set<ObjModel>>(s2, k);
            let j = row_of(s2, k);
            assert(s2[j].0.0 == subject);
            assert(s2[j].1 != Set::<ObjModel>::empty());
        }
        assert(m@ =~= goal);
    }
    let n: usize = m.len();
    let mut out: Vec<(FieldId, Vec<ObjKey>)> = Vec::new();
    let mut x: usize = 0;
    while x < n
        invariant
            x <= n,
            n == m.rows().len(),
            out.len() == x,
            forall|j: int|
                0 <= j < x ==> (#[trigger] out@[j]).deep_view() == (
                    m.rows()[j].0,
                    sorted_items::<ObjKey>(m.rows()[j].1),
                ),
        decreases n - x,
    {
        let e = (*m.key_at(x), m.value_at(x).to_vec());
        assert(e.deep_view() == (
            m.rows()[x as int].0,
            sorted_items::<ObjKey>(m.rows()[x as int].1),
        ));
        out.push(e);
        x += 1;
    }
    assert(out.deep_view() =~= set_listing(goal));
    out
}

/// Everything asserted of a subject: current values and present elements, ascending by predicate.
pub fn describe(snap: &Snapshot, subject: NodeId) -> (r: (
    Vec<(FieldId, ObjKey)>,
    Vec<(FieldId, Vec<ObjKey>)>,
))
    ensures
        r.0.deep_view() == sorted_rows::<FieldId, ObjModel>(values_of(snap@, subject)),
        r.1.deep_view() == set_listing(sets_of(snap@, subject)),
{
    (describe_ones(snap, subject), describe_manys(snap, subject))
}

/// A predicate without declared properties expands as plain one-hop expansion does, whatever the
/// depth.
pub proof fn law_plain_predicate(
    s: SnapshotModel,
    c: CatalogModel,
    at: Option<i64>,
    a: NodeId,
    p: FieldId,
    max_depth: nat,
)
    requires
        rel_props(c, p) == (RelProps { symmetric: false, transitive: false, inverse: None }),
    ensures
        reached(s, c, at, a, p, max_depth) == targets(s, at, a, p),
{
    assert(reached(s, c, at, a, p, max_depth) =~= targets(s, at, a, p));
}

/// Along a symmetric predicate every hop can be taken back.
pub proof fn law_symmetric_hops(
    s: SnapshotModel,
    at: Option<i64>,
    props: RelProps,
    p: FieldId,
    a: NodeId,
    b: NodeId,
)
    requires
        props.symmetric,
        props.inverse is None,
    ensures
        hops(s, at, props, p, a, b) == hops(s, at, props, p, b, a),
{
}

/// A chain of nodes, each one hop from the one before.
pub open spec fn chain(
    s: SnapshotModel,
    at: Option<i64>,
    props: RelProps,
    p: FieldId,
    path: Seq<NodeId>,
) -> bool {
    forall|i: int|
        0 <= i < path.len() - 1 ==> hops(s, at, props, p, #[trigger] path[i], path[i + 1])
}

/// The closure is reachability: a node is within `n` hops exactly where a chain of at least one and
/// at most `n` hops leads to it.
pub proof fn law_closure_is_reachability(
    s: SnapshotModel,
    at: Option<i64>,
    props: RelProps,
    p: FieldId,
    a: NodeId,
    b: NodeId,
    n: nat,
)
    ensures
        within(s, at, props, p, a, n).contains(b) <==> exists|path: Seq<NodeId>|
            2 <= path.len() <= n + 1 && path[0] == a && path.last() == b && #[trigger] chain(
                s,
                at,
                props,
                p,
                path,
            ),
    decreases n,
{
    if n > 0 {
        let lo = within(s, at, props, p, a, (n - 1) as nat);
        if within(s, at, props, p, a, n).contains(b) {
            if hops(s, at, props, p, a, b) {
                let path = seq![a, b];
                assert(chain(s, at, props, p, path));
                assert(path.last() == b);
            } else {
                let m = choose|m: NodeId| lo.contains(m) && #[trigger] hops(s, at, props, p, m, b);
                law_closure_is_reachability(s, at, props, p, a, m, (n - 1) as nat);
                let q = choose|q: Seq<NodeId>|
                    2 <= q.len() <= n && q[0] == a && q.last() == m && #[trigger] chain(
                        s,
                        at,
                        props,
                        p,
                        q,
                    );
                let path = q.push(b);
                assert forall|i: int| 0 <= i < path.len() - 1 implies hops(
                    s,
                    at,
                    props,
                    p,
                    #[trigger] path[i],
                    path[i + 1],
                ) by {
                    if i < q.len() - 1 {
                        assert(hops(s, at, props, p, q[i], q[i + 1]));
                    } else {
                        assert(path[i] == m);
                    }
                }
                assert(chain(s, at, props, p, path));
                assert(path.last() == b && path[0] == a);
            }
        }
        if exists|path: Seq<NodeId>|
            2 <= path.len() <= n + 1 && path[0] == a && path.last() == b && #[trigger] chain(
                s,
                at,
                props,
                p,
                path,
            ) {
            let path = choose|path: Seq<NodeId>|
                2 <= path.len() <= n + 1 && path[0] == a && path.last() == b && #[trigger] chain(
                    s,
                    at,
                    props,
                    p,
                    path,
                );
            let q = path.drop_last();
            assert(hops(s, at, props, p, path[path.len() - 2], path[path.len() - 1]));
            if path.len() > 2 {
                assert forall|i: int| 0 <= i < q.len() - 1 implies hops(
                    s,
                    at,
                    props,
                    p,
                    #[trigger] q[i],
                    q[i + 1],
                ) by {
                    assert(hops(s, at, props, p, path[i], path[i + 1]));
                }
                assert(chain(s, at, props, p, q));
                law_closure_is_reachability(s, at, props, p, a, q.last(), (n - 1) as nat);
                assert(lo.contains(q.last()));
            }
        }
    }
}

} // verus!
