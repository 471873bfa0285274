//! What the reads answer, said of what a snapshot holds: its rows, its current values and elements,
//! and the properties that predicates were registered with.
use super::graph::{
    adjacent, all_targets, connecting, connects, edge, expanded_set, hops, lemma_within_grows,
    reached, rel_props, relation_map, set_listing, sets_of, strengths, targets, two_hops, values_of,
    within,
};
use super::{
    beats, covers, current_many, current_one, elem_at, head_row, is_winner, law_covered_instants,
    lemma_winner, many_at, one_at, props_of, signals_of, sources_of, winner, Tier,
};
use crate::catalog::CatalogModel;
use crate::fact::{FieldId, NodeId};
use crate::fold::model::{GraphKey, RowModel, SnapshotModel};
use crate::objkey::{ObjKey, ObjModel, OrderKey};
use crate::order::Key;
use crate::ordmap::{
    lemma_finite_rows, lemma_key_row, lemma_row, lemma_sorted_items, row_of, sorted_rows,
};
use vstd::prelude::*;

verus! {

/// Whether a row is in force at an instant: it has started, and it has not ended.
pub open spec fn in_force(row: RowModel, at: i64) -> bool {
    row.2 <= at && (row.3 is Some ==> at < row.3->0)
}

/// Whether a row outranks another: it starts later, or together with it and was written later, by
/// transaction, then by source, then by sequence number.
pub open spec fn outranks(a: RowModel, b: RowModel) -> bool {
    let (x, y): (OrderKey, OrderKey) = (a.0, b.0);
    a.2 > b.2 || a.2 == b.2 && (x.tx > y.tx || x.tx == y.tx && (x.source > y.source || x.source
        == y.source && x.seq > y.seq))
}

/// The row that outranks all others in force decides; where none is in force nothing does.
proof fn lemma_decides(rows: Seq<RowModel>, at: i64, i: int)
    requires
        0 <= i < rows.len(),
        in_force(rows[i], at),
        forall|j: int|
            0 <= j < rows.len() && j != i && in_force(#[trigger] rows[j], at) ==> outranks(
                rows[i],
                rows[j],
            ),
    ensures
        winner(rows, at) == Some(rows[i]),
{
    assert forall|j: int| 0 <= j < rows.len() && covers(#[trigger] rows[j], at) implies if j <= i {
        !beats(rows[j], rows[i])
    } else {
        beats(rows[i], rows[j])
    } by {
        assert(in_force(rows[j], at));
    }
    assert(is_winner(rows, at, i));
    lemma_winner(rows, at, i);
}

/// The value of a register at an instant is that of the row in force which outranks the others. A
/// close there, or no row in force, is no value; and a value comes from a row in force.
pub proof fn law_register_as_of(s: SnapshotModel, k: GraphKey, at: i64, i: int)
    requires
        s.one_history.contains_key(k),
    ensures
        ({
            let rows = s.one_history[k];
            &&& (0 <= i < rows.len() && in_force(rows[i], at) && (forall|j: int|
                0 <= j < rows.len() && j != i && in_force(#[trigger] rows[j], at) ==> outranks(
                    rows[i],
                    rows[j],
                )) ==> one_at(s, k, at) == rows[i].1)
            &&& ((forall|j: int| 0 <= j < rows.len() ==> !in_force(#[trigger] rows[j], at))
                ==> one_at(s, k, at) is None)
            &&& (one_at(s, k, at) is Some ==> exists|j: int|
                0 <= j < rows.len() && in_force(#[trigger] rows[j], at) && rows[j].1 == one_at(
                    s,
                    k,
                    at,
                ))
        }),
{
    let rows = s.one_history[k];
    law_covered_instants(rows, at);
    if 0 <= i < rows.len() && in_force(rows[i], at) && (forall|j: int|
        0 <= j < rows.len() && j != i && in_force(#[trigger] rows[j], at) ==> outranks(
            rows[i],
            rows[j],
        )) {
        lemma_decides(rows, at, i);
    }
    if winner(rows, at) is Some {
        let j = choose|j: int| is_winner(rows, at, j);
        assert(in_force(rows[j], at));
    }
}

/// A register that was never written has no value, at present or at any instant; nor has a set any
/// element.
pub proof fn law_nothing_written(s: SnapshotModel, k: GraphKey, at: i64, o: ObjModel)
    ensures
        !s.one.contains_key(k) ==> current_one(s, k) is None,
        s.one.contains_key(k) ==> current_one(s, k) == s.one[k],
        !s.one_history.contains_key(k) ==> one_at(s, k, at) is None && head_row(s, k) is None,
        !s.many.contains_key(k) ==> !current_many(s, k).contains(o),
        s.many.contains_key(k) ==> current_many(s, k).contains(o) == s.many[k].contains(o),
        !s.many_history.contains_key(k) ==> !many_at(s, k, at).contains(o),
        s.many_history.contains_key(k) && !s.many_history[k].contains_key(o) ==> !many_at(
            s,
            k,
            at,
        ).contains(o),
{
    law_covered_instants(Seq::<RowModel>::empty(), at);
}

/// An element is in a set at an instant where, of its own rows in force, the one that outranks the
/// others adds it; not where that one closes it, nor where none is in force.
pub proof fn law_element_as_of(s: SnapshotModel, k: GraphKey, o: ObjModel, at: i64, i: int)
    requires
        s.many_history.contains_key(k),
        s.many_history[k].contains_key(o),
    ensures
        ({
            let rows = s.many_history[k][o];
            &&& (0 <= i < rows.len() && in_force(rows[i], at) && (forall|j: int|
                0 <= j < rows.len() && j != i && in_force(#[trigger] rows[j], at) ==> outranks(
                    rows[i],
                    rows[j],
                )) ==> many_at(s, k, at).contains(o) == rows[i].1 is Some)
            &&& ((forall|j: int| 0 <= j < rows.len() ==> !in_force(#[trigger] rows[j], at))
                ==> !many_at(s, k, at).contains(o))
        }),
{
    let rows = s.many_history[k][o];
    law_covered_instants(rows, at);
    if 0 <= i < rows.len() && in_force(rows[i], at) && (forall|j: int|
        0 <= j < rows.len() && j != i && in_force(#[trigger] rows[j], at) ==> outranks(
            rows[i],
            rows[j],
        )) {
        lemma_decides(rows, at, i);
    }
    if elem_at(rows, at) {
        let j = choose|j: int| is_winner(rows, at, j);
        assert(in_force(rows[j], at));
    }
}

/// Whether a snapshot holds an edge at present: as the value of a register, or as an element of a
/// set.
pub open spec fn holds_edge(s: SnapshotModel, a: NodeId, p: FieldId, b: NodeId) -> bool {
    ||| s.one.contains_key((a, p)) && s.one[(a, p)] == Some(ObjModel::Node(b))
    ||| s.many.contains_key((a, p)) && s.many[(a, p)].contains(ObjModel::Node(b))
}

/// One hop at present leads along the edges held, all of them and no others; at an instant it leads
/// to the value and the elements of then.
pub proof fn law_hop_follows_edges(s: SnapshotModel, a: NodeId, p: FieldId, b: NodeId, t: i64)
    ensures
        targets(s, None, a, p).contains(b) == holds_edge(s, a, p, b),
        targets(s, Some(t), a, p).contains(b) == (one_at(s, (a, p), t) == Some(ObjModel::Node(b))
            || many_at(s, (a, p), t).contains(ObjModel::Node(b))),
{
}

/// Whether one hop by the properties that predicate `p` was registered with leads from `a` to `b`:
/// along an edge of `p`; where it is symmetric also back along one; where it has an inverse also back
/// along an edge of that.
pub open spec fn one_hop(
    s: SnapshotModel,
    c: CatalogModel,
    at: Option<i64>,
    p: FieldId,
    a: NodeId,
    b: NodeId,
) -> bool {
    ||| targets(s, at, a, p).contains(b)
    ||| c.predicates.contains_key(p) && c.predicates[p].props.symmetric && targets(
        s,
        at,
        b,
        p,
    ).contains(a)
    ||| c.predicates.contains_key(p) && c.predicates[p].props.inverse is Some && targets(
        s,
        at,
        b,
        c.predicates[p].props.inverse->0,
    ).contains(a)
}

proof fn lemma_one_hop(
    s: SnapshotModel,
    c: CatalogModel,
    at: Option<i64>,
    p: FieldId,
    a: NodeId,
    b: NodeId,
)
    ensures
        hops(s, at, rel_props(c, p), p, a, b) == one_hop(s, c, at, p, a, b),
{
}

/// Whatever a predicate's properties, its expansion to a depth of one or more contains every target
/// of a plain hop along it; where it is symmetric, every node with an edge of it that leads here; and
/// where it has an inverse, every node with an edge of the inverse that leads here.
pub proof fn law_expansion_covers_hops(
    s: SnapshotModel,
    c: CatalogModel,
    at: Option<i64>,
    a: NodeId,
    p: FieldId,
    depth: nat,
)
    requires
        depth >= 1,
    ensures
        targets(s, at, a, p).subset_of(reached(s, c, at, a, p, depth)),
        forall|b: NodeId|
            c.predicates.contains_key(p) && c.predicates[p].props.symmetric && #[trigger] targets(
                s,
                at,
                b,
                p,
            ).contains(a) ==> reached(s, c, at, a, p, depth).contains(b),
        forall|b: NodeId, q: FieldId|
            c.predicates.contains_key(p) && c.predicates[p].props.inverse == Some(q)
                && #[trigger] targets(s, at, b, q).contains(a) ==> reached(
                s,
                c,
                at,
                a,
                p,
                depth,
            ).contains(b),
{
    let props = rel_props(c, p);
    assert forall|b: NodeId| one_hop(s, c, at, p, a, b) implies #[trigger] reached(
        s,
        c,
        at,
        a,
        p,
        depth,
    ).contains(b) by {
        lemma_one_hop(s, c, at, p, a, b);
    }
    assert forall|b: NodeId| #[trigger] targets(s, at, a, p).contains(b) implies reached(
        s,
        c,
        at,
        a,
        p,
        depth,
    ).contains(b) by {
        assert(one_hop(s, c, at, p, a, b));
    }
    assert forall|b: NodeId|
        c.predicates.contains_key(p) && c.predicates[p].props.symmetric && #[trigger] targets(
            s,
            at,
            b,
            p,
        ).contains(a) implies reached(s, c, at, a, p, depth).contains(b) by {
        assert(one_hop(s, c, at, p, a, b));
    }
    assert forall|b: NodeId, q: FieldId|
        c.predicates.contains_key(p) && c.predicates[p].props.inverse == Some(q)
            && #[trigger] targets(s, at, b, q).contains(a) implies reached(
        s,
        c,
        at,
        a,
        p,
        depth,
    ).contains(b) by {
        assert(one_hop(s, c, at, p, a, b));
    }
}

/// The expansion of a predicate that is not transitive is exactly one hop, whatever the depth. That of
/// a transitive one grows hop by hop from nothing: to a depth of `n + 1` it has what one hop has and
/// what one hop from the nodes within `n` has.
pub proof fn law_expansion_is_hops(
    s: SnapshotModel,
    c: CatalogModel,
    at: Option<i64>,
    a: NodeId,
    p: FieldId,
    n: nat,
    b: NodeId,
)
    ensures
        !(c.predicates.contains_key(p) && c.predicates[p].props.transitive) ==> (reached(
            s,
            c,
            at,
            a,
            p,
            n,
        ).contains(b) <==> one_hop(s, c, at, p, a, b)),
        c.predicates.contains_key(p) && c.predicates[p].props.transitive ==> {
            &&& !reached(s, c, at, a, p, 0).contains(b)
            &&& reached(s, c, at, a, p, n + 1).contains(b) <==> (one_hop(s, c, at, p, a, b)
                || exists|m: NodeId|
                reached(s, c, at, a, p, n).contains(m) && #[trigger] one_hop(s, c, at, p, m, b))
            &&& reached(s, c, at, a, p, n).subset_of(reached(s, c, at, a, p, n + 1))
        },
{
    let props = rel_props(c, p);
    lemma_one_hop(s, c, at, p, a, b);
    if props.transitive {
        lemma_within_grows(s, at, props, p, a, n);
        if reached(s, c, at, a, p, n + 1).contains(b) && !one_hop(s, c, at, p, a, b) {
            let m = choose|m: NodeId|
                within(s, at, props, p, a, n).contains(m) && #[trigger] hops(
                    s,
                    at,
                    props,
                    p,
                    m,
                    b,
                );
            lemma_one_hop(s, c, at, p, m, b);
            assert(one_hop(s, c, at, p, m, b));
        }
        if exists|m: NodeId|
            reached(s, c, at, a, p, n).contains(m) && #[trigger] one_hop(s, c, at, p, m, b) {
            let m = choose|m: NodeId|
                reached(s, c, at, a, p, n).contains(m) && #[trigger] one_hop(s, c, at, p, m, b);
            lemma_one_hop(s, c, at, p, m, b);
            assert(hops(s, at, props, p, m, b));
        }
    }
}

/// An inverse reads edges from the other end: what a predicate reaches through the edges stored under
/// its inverse, the inverse reaches back.
pub proof fn law_inverse_reads_back(
    s: SnapshotModel,
    c: CatalogModel,
    at: Option<i64>,
    p: FieldId,
    q: FieldId,
    a: NodeId,
    b: NodeId,
    depth: nat,
)
    requires
        depth >= 1,
        c.predicates.contains_key(p),
        c.predicates[p].props.inverse == Some(q),
        targets(s, at, b, q).contains(a),
    ensures
        reached(s, c, at, b, q, depth).contains(a),
        reached(s, c, at, a, p, depth).contains(b),
{
    law_expansion_covers_hops(s, c, at, b, q, depth);
    law_expansion_covers_hops(s, c, at, a, p, depth);
}

/// Along a symmetric predicate that has no inverse, expansion by one hop goes both ways.
pub proof fn law_symmetric_both_ways(
    s: SnapshotModel,
    c: CatalogModel,
    at: Option<i64>,
    p: FieldId,
    a: NodeId,
    b: NodeId,
)
    requires
        c.predicates.contains_key(p),
        c.predicates[p].props.symmetric,
        c.predicates[p].props.inverse is None,
    ensures
        reached(s, c, at, a, p, 1).contains(b) == reached(s, c, at, b, p, 1).contains(a),
{
    law_expansion_is_hops(s, c, at, a, p, 0, b);
    law_expansion_is_hops(s, c, at, b, p, 0, a);
    law_expansion_is_hops(s, c, at, a, p, 1, b);
    law_expansion_is_hops(s, c, at, b, p, 1, a);
    if c.predicates[p].props.transitive {
        assert(forall|m: NodeId| !reached(s, c, at, a, p, 0).contains(m));
        assert(forall|m: NodeId| !reached(s, c, at, b, p, 0).contains(m));
    }
}

/// Whether an edge of predicate `r`, of any or of the `only` one, joins two nodes, either way.
pub open spec fn joins(
    s: SnapshotModel,
    only: Option<FieldId>,
    r: FieldId,
    a: NodeId,
    b: NodeId,
) -> bool {
    &&& only is Some ==> only->0 == r
    &&& holds_edge(s, a, r, b) || holds_edge(s, b, r, a)
}

/// The hops over sets of nodes, by the edges held: from any of several nodes, along one predicate
/// after another, by any predicate, and with directions set aside.
pub proof fn law_hops_of_sets(
    s: SnapshotModel,
    subjects: Set<NodeId>,
    a: NodeId,
    p: FieldId,
    q: FieldId,
    only: Option<FieldId>,
    b: NodeId,
)
    ensures
        expanded_set(s, subjects, p).contains(b) <==> exists|x: NodeId|
            subjects.contains(x) && #[trigger] holds_edge(s, x, p, b),
        two_hops(s, a, p, q).contains(b) <==> exists|x: NodeId|
            holds_edge(s, a, p, x) && #[trigger] holds_edge(s, x, q, b),
        all_targets(s, a).contains(b) <==> exists|r: FieldId| holds_edge(s, a, r, b),
        ({
            let adj = relation_map(|x: NodeId, y: NodeId| adjacent(s, only, x, y));
            (adj.contains_key(a) && adj[a].contains(b)) <==> exists|r: FieldId|
                joins(s, only, r, a, b)
        }),
{
    assert forall|x: NodeId, r: FieldId, y: NodeId| #[trigger] holds_edge(s, x, r, y) == edge(
        s,
        None,
        x,
        r,
        y,
    ) by {}
    if expanded_set(s, subjects, p).contains(b) {
        let x = choose|x: NodeId| subjects.contains(x) && #[trigger] edge(s, None, x, p, b);
        assert(holds_edge(s, x, p, b));
    }
    if exists|x: NodeId| subjects.contains(x) && #[trigger] holds_edge(s, x, p, b) {
        let x = choose|x: NodeId| subjects.contains(x) && #[trigger] holds_edge(s, x, p, b);
        assert(edge(s, None, x, p, b));
    }
    if two_hops(s, a, p, q).contains(b) {
        let x = choose|x: NodeId| edge(s, None, a, p, x) && #[trigger] edge(s, None, x, q, b);
        assert(holds_edge(s, x, q, b));
    }
    if exists|x: NodeId| holds_edge(s, a, p, x) && #[trigger] holds_edge(s, x, q, b) {
        let x = choose|x: NodeId| holds_edge(s, a, p, x) && #[trigger] holds_edge(s, x, q, b);
        assert(edge(s, None, x, q, b));
    }
    if all_targets(s, a).contains(b) {
        let r = choose|r: FieldId| edge(s, None, a, r, b);
        assert(holds_edge(s, a, r, b));
    }
    if exists|r: FieldId| holds_edge(s, a, r, b) {
        let r = choose|r: FieldId| holds_edge(s, a, r, b);
        assert(edge(s, None, a, r, b));
    }
    let rel = |x: NodeId, y: NodeId| adjacent(s, only, x, y);
    let adj = relation_map(rel);
    if adj.contains_key(a) && adj[a].contains(b) {
        let r = choose|r: FieldId| connects(s, only, r, a, b);
        assert(joins(s, only, r, a, b));
    }
    if exists|r: FieldId| joins(s, only, r, a, b) {
        let r = choose|r: FieldId| joins(s, only, r, a, b);
        assert(connects(s, only, r, a, b));
        assert(rel(a, b));
    }
}

/// The strength of a pair, the smaller node first, is how many predicates have an edge between the
/// two, either way, counted in 32 bits; a pair with no edge has none.
pub proof fn law_strength_counts_predicates(
    s: SnapshotModel,
    only: Option<FieldId>,
    a: NodeId,
    b: NodeId,
)
    ensures
        ({
            let preds = Set::new(|r: FieldId| joins(s, only, r, a, b));
            &&& strengths(s, only).contains_key((a, b)) <==> a <= b && exists|r: FieldId|
                #[trigger] preds.contains(r)
            &&& strengths(s, only).contains_key((a, b)) ==> strengths(s, only)[(a, b)]
                == preds.len() % 0x1_0000_0000
        }),
{
    let preds = Set::new(|r: FieldId| joins(s, only, r, a, b));
    let mine = connecting(s, only, a, b);
    assert(mine =~= preds);
    if adjacent(s, only, a, b) {
        let r = choose|r: FieldId| connects(s, only, r, a, b);
        assert(preds.contains(r));
    }
    if exists|r: FieldId| #[trigger] preds.contains(r) {
        let r = choose|r: FieldId| #[trigger] preds.contains(r);
        assert(connects(s, only, r, a, b));
    }
}

/// The values of a subject are those of its registers that hold one.
pub proof fn law_values_are_current(s: SnapshotModel, subject: NodeId, p: FieldId)
    ensures
        values_of(s, subject).contains_key(p) <==> s.one.contains_key((subject, p)) && s.one[(
            subject,
            p,
        )] is Some,
        values_of(s, subject).contains_key(p) ==> Some(values_of(s, subject)[p]) == s.one[(
            subject,
            p,
        )],
{
}

/// Rows of other values add nothing: what corroborates a value is the same with them and without.
pub proof fn law_other_values_do_not_corroborate(
    rows: Seq<RowModel>,
    others: Seq<RowModel>,
    o: Option<ObjModel>,
)
    requires
        forall|i: int| 0 <= i < others.len() ==> (#[trigger] others[i]).1 != o,
    ensures
        sources_of(others + rows, o) == sources_of(rows, o),
        sources_of(rows + others, o) == sources_of(rows, o),
        sources_of(rows.filter(|r: RowModel| r.1 == o), o) == sources_of(rows, o),
{
    let (a, b) = (others + rows, rows + others);
    let kept = rows.filter(|r: RowModel| r.1 == o);
    assert forall|x: FieldId| #[trigger] sources_of(rows, o).contains(x) implies sources_of(
        a,
        o,
    ).contains(x) && sources_of(b, o).contains(x) && sources_of(kept, o).contains(x) by {
        let i = choose|i: int|
            0 <= i < rows.len() && (#[trigger] rows[i]).1 == o && rows[i].0.source == x;
        assert(a[others.len() + i] == rows[i]);
        assert(b[i] == rows[i]);
        lemma_kept(rows, o, rows[i]);
        assert(rows.contains(rows[i]));
        let j = choose|j: int| 0 <= j < kept.len() && kept[j] == rows[i];
        assert(kept[j].1 == o);
    }
    assert forall|x: FieldId|
        #![trigger sources_of(a, o).contains(x)]
        sources_of(a, o).contains(x) implies sources_of(rows, o).contains(x) by {
        let i = choose|i: int|
            0 <= i < a.len() && (#[trigger] a[i]).1 == o && a[i].0.source == x;
        if i < others.len() {
            assert(others[i].1 != o);
        } else {
            assert(rows[i - others.len()] == a[i]);
        }
    }
    assert forall|x: FieldId|
        #![trigger sources_of(b, o).contains(x)]
        sources_of(b, o).contains(x) implies sources_of(rows, o).contains(x) by {
        let i = choose|i: int|
            0 <= i < b.len() && (#[trigger] b[i]).1 == o && b[i].0.source == x;
        if i >= rows.len() {
            assert(others[i - rows.len()].1 != o);
        } else {
            assert(rows[i] == b[i]);
        }
    }
    assert forall|x: FieldId|
        #![trigger sources_of(kept, o).contains(x)]
        sources_of(kept, o).contains(x) implies sources_of(rows, o).contains(x) by {
        let i = choose|i: int|
            0 <= i < kept.len() && (#[trigger] kept[i]).1 == o && kept[i].0.source == x;
        lemma_kept(rows, o, kept[i]);
        assert(kept.contains(kept[i]));
        let j = choose|j: int| 0 <= j < rows.len() && rows[j] == kept[i];
        assert(rows[j].1 == o);
    }
    assert(sources_of(a, o) =~= sources_of(rows, o));
    assert(sources_of(b, o) =~= sources_of(rows, o));
    assert(sources_of(kept, o) =~= sources_of(rows, o));
}

proof fn lemma_kept(rows: Seq<RowModel>, o: Option<ObjModel>, x: RowModel)
    ensures
        rows.filter(|r: RowModel| r.1 == o).contains(x) == (rows.contains(x) && x.1 == o),
    decreases rows.len(),
{
    reveal(Seq::filter);
    let f = |r: RowModel| r.1 == o;
    if rows.len() > 0 {
        let init = rows.drop_last();
        lemma_kept(init, o, x);
        let k = init.filter(f);
        assert(rows.contains(x) == (init.contains(x) || rows.last() == x)) by {
            if rows.contains(x) && rows.last() != x {
                let i = choose|i: int| 0 <= i < rows.len() && rows[i] == x;
                assert(init[i] == x);
            }
            if init.contains(x) {
                let i = choose|i: int| 0 <= i < init.len() && init[i] == x;
                assert(rows[i] == x);
            }
        }
        if f(rows.last()) {
            let g = k.push(rows.last());
            assert(g.contains(x) == (k.contains(x) || rows.last() == x)) by {
                if k.contains(x) {
                    let i = choose|i: int| 0 <= i < k.len() && k[i] == x;
                    assert(g[i] == x);
                }
                assert(g[k.len() as int] == rows.last());
                if g.contains(x) && rows.last() != x {
                    let i = choose|i: int| 0 <= i < g.len() && g[i] == x;
                    assert(k[i] == x);
                }
            }
        }
    }
}

/// Corroboration counts sources: a further row of the value adds one where its source is set and has
/// no row of the value yet, and nothing otherwise. Rows of no set source count for nothing.
pub proof fn law_corroboration_counts_sources(rows: Seq<RowModel>, row: RowModel)
    ensures
        ({
            let known = exists|i: int|
                0 <= i < rows.len() && (#[trigger] rows[i]).1 == row.1 && rows[i].0.source
                    == row.0.source;
            sources_of(rows.push(row), row.1).len() == sources_of(rows, row.1).len() + if row.0.source
                != 0 && !known {
                1int
            } else {
                0int
            }
        }),
        sources_of(Seq::empty(), row.1).len() == 0,
{
    let o = row.1;
    let src = row.0.source;
    let t = rows.push(row);
    let a = sources_of(rows, o);
    let b = sources_of(t, o);
    lemma_sources_finite(rows, o);
    lemma_sources_finite(t, o);
    assert(sources_of(Seq::empty(), o) =~= Set::empty());
    assert forall|x: FieldId| #[trigger] b.contains(x) == (a.contains(x) || (x == src && src != 0)) by {
        if a.contains(x) {
            let i = choose|i: int|
                0 <= i < rows.len() && (#[trigger] rows[i]).1 == o && rows[i].0.source == x;
            assert(t[i] == rows[i]);
        }
        if x == src && src != 0 {
            assert(t[rows.len() as int] == row);
        }
        if b.contains(x) {
            let i = choose|i: int|
                0 <= i < t.len() && (#[trigger] t[i]).1 == o && t[i].0.source == x;
            if i < rows.len() {
                assert(rows[i] == t[i]);
            }
        }
    }
    if src != 0 {
        assert(b =~= a.insert(src));
    } else {
        assert(b =~= a);
    }
}

proof fn lemma_sources_finite(rows: Seq<RowModel>, o: Option<ObjModel>)
    ensures
        sources_of(rows, o).finite(),
    decreases rows.len(),
{
    if rows.len() == 0 {
        assert(sources_of(rows, o) =~= Set::empty());
    } else {
        let init = rows.drop_last();
        lemma_sources_finite(init, o);
        let big = sources_of(init, o).insert(rows.last().0.source);
        assert forall|x: FieldId| #[trigger] sources_of(rows, o).contains(x) implies big.contains(
            x,
        ) by {
            let i = choose|i: int|
                0 <= i < rows.len() && (#[trigger] rows[i]).1 == o && rows[i].0.source == x;
            if i < init.len() {
                assert(init[i] == rows[i]);
            }
        }
        assert(sources_of(rows, o).subset_of(big));
        vstd::set_lib::lemma_set_subset_finite(big, sources_of(rows, o));
    }
}

/// With one set source for the current value the corroboration is 1, whatever other sources said of
/// other values.
pub proof fn law_single_source(rows: Seq<RowModel>, i: int)
    requires
        0 <= i < rows.len(),
        rows[i].0.source != 0,
        forall|j: int|
            0 <= j < rows.len() && (#[trigger] rows[j]).1 == rows[i].1 && rows[j].0.source != 0
                ==> rows[j].0.source == rows[i].0.source,
    ensures
        sources_of(rows, rows[i].1).len() == 1,
{
    let x = rows[i].0.source;
    assert(sources_of(rows, rows[i].1) =~= Set::empty().insert(x));
}

/// The signals of a register, by its rows: nothing is known of one without rows; else they are those
/// of the last row and of the rows that carry its value. Without a source, or where an age limit is
/// exceeded, the tier is low; otherwise it is high exactly where two sources or more agree.
pub proof fn law_signals(s: SnapshotModel, k: GraphKey, now: Option<i64>, limit: Option<i64>)
    ensures
        ({
            let c = signals_of(s, k, now, limit);
            &&& !s.one_history.contains_key(k) || s.one_history[k].len() == 0 ==> {
                &&& c.corroboration == 0
                &&& !c.has_source
                &&& c.age is None
                &&& c.tier == Tier::Low
            }
            &&& s.one_history.contains_key(k) && s.one_history[k].len() > 0 ==> {
                let rows = s.one_history[k];
                let row = rows[rows.len() - 1];
                let stale = now is Some && limit is Some && (now->0 - row.2) as i64 > limit->0;
                &&& c.corroboration == sources_of(rows, row.1).len()
                &&& c.has_source <==> row.0.source != 0
                &&& c.age is Some <==> now is Some
                &&& now is Some ==> c.age->0 == (now->0 - row.2) as i64
                &&& c.tier == Tier::Low <==> row.0.source == 0 || stale
                &&& c.tier == Tier::High <==> row.0.source != 0 && !stale && c.corroboration >= 2
                &&& c.tier == Tier::Medium <==> row.0.source != 0 && !stale && c.corroboration < 2
            }
        }),
{
}

/// The winning row of a register is the last of its rows, and the properties of an edge are those held
/// under its key and object.
pub proof fn law_held_as_is(s: SnapshotModel, k: GraphKey, o: ObjModel)
    ensures
        head_row(s, k) is Some <==> s.one_history.contains_key(k) && s.one_history[k].len() > 0,
        head_row(s, k) is Some ==> head_row(s, k)->0 == s.one_history[k][s.one_history[k].len() - 1],
        props_of(s, k, o) is Some <==> s.edge_props.contains_key(k) && s.edge_props[k].contains_key(o),
        props_of(s, k, o) is Some ==> props_of(s, k, o)->0 == s.edge_props[k][o],
{
}

/// The sets of a subject are those that hold something.
pub proof fn law_sets_are_current(s: SnapshotModel, subject: NodeId, p: FieldId)
    ensures
        sets_of(s, subject).contains_key(p) <==> exists|o: ObjModel|
            s.many.contains_key((subject, p)) && #[trigger] s.many[(subject, p)].contains(o),
        sets_of(s, subject).contains_key(p) ==> sets_of(s, subject)[p] == s.many[(subject, p)],
{
    let set = current_many(s, (subject, p));
    if sets_of(s, subject).contains_key(p) {
        assert(s.many.contains_key((subject, p)));
        if forall|o: ObjModel| !set.contains(o) {
            assert(set =~= Set::empty());
        }
        let o = choose|o: ObjModel| set.contains(o);
        assert(s.many[(subject, p)].contains(o));
    }
}

/// A listing of sets has a line for each set, ascending by predicate, and in it the elements of the
/// set, once each and ascending.
pub proof fn law_sets_are_listed(m: Map<FieldId, Set<ObjModel>>)
    requires
        m.dom().finite(),
        forall|p: FieldId| #[trigger] m.contains_key(p) ==> m[p].finite(),
    ensures
        forall|i: int, j: int|
            0 <= i < j < set_listing(m).len() ==> (#[trigger] set_listing(m)[i]).0 < (
            #[trigger] set_listing(m)[j]).0,
        forall|p: FieldId| #[trigger]
            m.contains_key(p) <==> exists|i: int|
                0 <= i < set_listing(m).len() && (#[trigger] set_listing(m)[i]).0 == p,
        forall|i: int|
            0 <= i < set_listing(m).len() ==> {
                let line = #[trigger] set_listing(m)[i];
                &&& line.1.to_set() == m[line.0]
                &&& forall|a: int, b: int|
                    0 <= a < b < line.1.len() ==> <ObjKey as Key>::before(
                        #[trigger] line.1[a],
                        #[trigger] line.1[b],
                    )
            },
{
    let rows = sorted_rows::<FieldId, Set<ObjModel>>(m);
    let list = set_listing(m);
    lemma_finite_rows::<FieldId, Set<ObjModel>>(m);
    assert forall|i: int, j: int| 0 <= i < j < list.len() implies (#[trigger] list[i]).0 < (
    #[trigger] list[j]).0 by {
        assert(<FieldId as Key>::before(rows[i].0, rows[j].0));
    }
    assert forall|p: FieldId| #[trigger] m.contains_key(p) implies exists|i: int|
        0 <= i < list.len() && (#[trigger] list[i]).0 == p by {
        lemma_key_row::<FieldId, Set<ObjModel>>(rows, p);
        assert(list[row_of(rows, p)].0 == p);
    }
    assert forall|i: int| 0 <= i < list.len() implies m.contains_key((#[trigger] list[i]).0)
        && list[i].1.to_set() == m[list[i].0] && forall|a: int, b: int|
        0 <= a < b < list[i].1.len() ==> <ObjKey as Key>::before(
            #[trigger] list[i].1[a],
            #[trigger] list[i].1[b],
        ) by {
        lemma_row::<FieldId, Set<ObjModel>>(rows, i);
        lemma_sorted_items::<ObjKey>(rows[i].1);
    }
}

} // verus!
