//! What the reads give back of the writes.
use super::graph::{adjacent, connecting, connects, strengths};
use super::{
    beats, covers, current_many, current_one, elem_at, head_row, is_winner, law_covered_instants,
    lemma_winner, many_at, one_at, tier_of, winner, Tier,
};
use crate::fact::{FieldId, NodeId};
use crate::fold::model::{
    above, above_floor, apply_key, apply_write, at_or, empty_fold, empty_key, fits, gc_fold, history,
    lemma_history_empty, lemma_same_key, live_elem, live_rows, max_floor, observed, present,
    seen_many, seen_one, write_key, write_kind, write_node, FoldModel, GraphKey, KeyModel,
    PropModel, RowModel, Rows, SnapshotModel, VersionModel, WriteModel,
};
use crate::fold::laws::{built, lemma_live_history};
use crate::fold::observe::live_asserted;
use crate::objkey::{older, ObjModel, OrderKey};
use crate::ordmap::{
    ascending, has_row, lemma_finite_rows, lemma_key_row, lemma_row, lemma_sorted_rows, row_of,
    rows_map, sorted_rows,
};
use vstd::prelude::*;

verus! {

/// Whether rows come from writes numbered below `n`.
pub open spec fn rows_below(rows: Rows, n: int) -> bool {
    &&& rows.dom().finite()
    &&& forall|ok: OrderKey| #[trigger] rows.contains_key(ok) ==> ok.tx < n
}

/// Whether a floor comes from a write numbered below `n`.
pub open spec fn floor_below(hd: Option<OrderKey>, n: int) -> bool {
    hd matches Some(h) ==> h.tx < n
}

/// Whether the state of a graph key comes from writes numbered below `n`.
pub open spec fn key_below(s: KeyModel, n: int) -> bool {
    match s {
        KeyModel::One { versions, hd } => rows_below(versions, n) && floor_below(hd, n),
        KeyModel::Many { elems, removes, hd } => {
            &&& floor_below(hd, n)
            &&& forall|ok: OrderKey| #[trigger] removes.contains(ok) ==> ok.tx < n
            &&& forall|o: ObjModel| #[trigger] elems.contains_key(o) ==> rows_below(elems[o], n)
        },
    }
}

/// Whether an edge property was set by a write numbered below `n`.
pub open spec fn prop_below(f: FoldModel, k: GraphKey, o: ObjModel, p: Seq<char>, n: int) -> bool {
    f.edge_props.contains_key(k) && f.edge_props[k].contains_key(o)
        && f.edge_props[k][o].contains_key(p) ==> f.edge_props[k][o][p].ok.tx < n
}

/// Whether the registers of a node were set by writes numbered below `n`.
pub open spec fn attr_below(f: FoldModel, x: NodeId, n: int) -> bool {
    f.node_attrs.contains_key(x) ==> {
        &&& (f.node_attrs[x].ty matches Some(r) ==> r.0.tx < n)
        &&& (f.node_attrs[x].label matches Some(r) ==> r.0.tx < n)
    }
}

/// Whether a state comes from writes numbered below `n`.
pub open spec fn settled(f: FoldModel, n: int) -> bool {
    &&& forall|k: GraphKey| #[trigger] f.keys.contains_key(k) ==> key_below(f.keys[k], n)
    &&& forall|k: GraphKey, o: ObjModel, p: Seq<char>| #[trigger] prop_below(f, k, o, p, n)
    &&& forall|x: NodeId| #[trigger] attr_below(f, x, n)
}

/// Whether a write is numbered `n`: its order key says so, or it only removes what earlier writes
/// added.
pub open spec fn numbered(w: WriteModel, ok: OrderKey, n: int) -> bool {
    match w {
        WriteModel::RemoveMany { observed, .. } => forall|i: int|
            0 <= i < observed.len() ==> (#[trigger] observed[i]).tx < n,
        _ => ok.tx == n,
    }
}

proof fn lemma_key_below_more(s: KeyModel, n: int)
    requires
        key_below(s, n),
    ensures
        key_below(s, n + 1),
{
}

/// A state of writes below `n` stays one, of writes below `n + 1`, with the write numbered `n`.
pub proof fn law_write_settles(f: FoldModel, w: WriteModel, ok: OrderKey, n: int)
    requires
        settled(f, n),
        numbered(w, ok, n),
    ensures
        settled(apply_write(f, w, ok), n + 1),
{
    let g = apply_write(f, w, ok);
    assert forall|k: GraphKey| #[trigger] g.keys.contains_key(k) implies key_below(g.keys[k], n + 1) by {
        if f.keys.contains_key(k) {
            lemma_key_below_more(f.keys[k], n);
        }
        if write_key(w) == Some(k) && write_kind(w) is Some {
            let s = at_or(f.keys, k, empty_key(write_kind(w)->0));
            assert(key_below(s, n));
            match w {
                WriteModel::RemoveMany { observed, .. } => {
                    assert forall|x: OrderKey| #[trigger] observed.to_set().contains(x) implies x.tx
                        < n by {
                        let i = choose|i: int| 0 <= i < observed.len() && observed[i] == x;
                        assert(observed[i].tx < n);
                    }
                },
                _ => {},
            }
            lemma_key_below_more(s, n);
            assert(key_below(apply_key(s, w, ok), n + 1));
        }
    }
    assert forall|k: GraphKey, o: ObjModel, p: Seq<char>| #[trigger] prop_below(g, k, o, p, n + 1) by {
        assert(prop_below(f, k, o, p, n));
    }
    assert forall|x: NodeId| #[trigger] attr_below(g, x, n + 1) by {
        assert(attr_below(f, x, n));
    }
}

/// The state before any write is settled at any number, and collection keeps a state settled.
pub proof fn law_collection_settles(f: FoldModel, n: int)
    requires
        settled(f, n),
    ensures
        settled(empty_fold(), n),
        settled(gc_fold(f), n),
{
    let g = gc_fold(f);
    assert forall|k: GraphKey| #[trigger] g.keys.contains_key(k) implies key_below(g.keys[k], n) by {
        assert(f.keys.contains_key(k));
        match f.keys[k] {
            KeyModel::One { versions, hd } => {
                lemma_above_floor_below(versions, hd, n);
            },
            KeyModel::Many { elems, removes, hd } => {
                assert forall|o: ObjModel| #[trigger] elems.contains_key(o) implies rows_below(
                    above_floor(elems[o], hd),
                    n,
                ) by {
                    lemma_above_floor_below(elems[o], hd, n);
                }
            },
        }
    }
    assert forall|k: GraphKey, o: ObjModel, p: Seq<char>| #[trigger] prop_below(g, k, o, p, n) by {
        assert(prop_below(f, k, o, p, n));
    }
    assert forall|x: NodeId| #[trigger] attr_below(g, x, n) by {
        assert(attr_below(f, x, n));
    }
}

/// The row that a write adds.
pub open spec fn written_row(w: WriteModel, ok: OrderKey) -> RowModel {
    match w {
        WriteModel::SetOne { object, valid_from, valid_to, .. } => (
            ok,
            Some(object),
            valid_from,
            valid_to,
        ),
        WriteModel::AddMany { object, valid_from, valid_to, .. } => (
            ok,
            Some(object),
            valid_from,
            valid_to,
        ),
        WriteModel::CloseOne { valid_from, .. } => (ok, None, valid_from, None),
        WriteModel::CloseMany { valid_from, .. } => (ok, None, valid_from, None),
        _ => arbitrary(),
    }
}

/// A row later than all others comes last.
proof fn lemma_history_push(rows: Rows, ok: OrderKey, v: VersionModel)
    requires
        rows_below(rows, ok.tx as int),
    ensures
        history(rows.insert(ok, v)) == history(rows).push(
            (ok, v.object, v.valid_from, v.valid_to),
        ),
{
    lemma_finite_rows::<OrderKey, VersionModel>(rows);
    let s = sorted_rows::<OrderKey, VersionModel>(rows);
    let t = s.push((ok, v));
    assert forall|i: int, j: int| 0 <= i < j < t.len() implies older(
        (#[trigger] t[i]).0,
        (#[trigger] t[j]).0,
    ) by {
        if j == s.len() {
            lemma_row::<OrderKey, VersionModel>(s, i);
            assert(rows.contains_key(s[i].0));
        }
    }
    assert(ascending::<OrderKey, VersionModel>(t));
    let m = rows.insert(ok, v);
    assert forall|x: OrderKey| #[trigger] rows_map(t).contains_key(x) == m.contains_key(x) && (
    m.contains_key(x) ==> rows_map(t)[x] == m[x]) by {
        if rows_map(t).contains_key(x) {
            lemma_key_row::<OrderKey, VersionModel>(t, x);
            let i = row_of(t, x);
            if i < s.len() {
                lemma_row::<OrderKey, VersionModel>(s, i);
                assert(rows.contains_key(x));
            }
        }
        if m.contains_key(x) {
            if x == ok {
                assert(t[s.len() as int].0 == x);
                assert(has_row(t, x));
                lemma_row::<OrderKey, VersionModel>(t, s.len() as int);
            } else {
                lemma_key_row::<OrderKey, VersionModel>(s, x);
                let i = row_of(s, x);
                assert(t[i].0 == x);
                assert(has_row(t, x));
                lemma_row::<OrderKey, VersionModel>(t, i);
            }
        }
    }
    assert(rows_map(t) =~= m);
    lemma_sorted_rows::<OrderKey, VersionModel>(t);
    assert(history(m) =~= history(rows).push((ok, v.object, v.valid_from, v.valid_to)));
}

proof fn lemma_winner_exists(rows: Seq<RowModel>, at: i64)
    requires
        winner(rows, at) is Some,
    ensures
        exists|i: int| is_winner(rows, at, i) && winner(rows, at) == Some(rows[i]),
{
    let i = choose|i: int| is_winner(rows, at, i);
    assert(is_winner(rows, at, i) && winner(rows, at) == Some(rows[i]));
}

/// The latest write takes effect wherever its interval goes and no row that is in effect there
/// starts later; elsewhere nothing changes. A correction of the past is of this kind.
pub proof fn law_latest_row_in_effect(rows: Seq<RowModel>, row: RowModel, at: i64)
    requires
        forall|i: int| 0 <= i < rows.len() ==> older((#[trigger] rows[i]).0, row.0),
    ensures
        winner(rows.push(row), at) == (if covers(row, at) && (winner(rows, at) matches Some(x) ==> x.2
            <= row.2) {
            Some(row)
        } else {
            winner(rows, at)
        }),
{
    let t = rows.push(row);
    let n = rows.len() as int;
    law_covered_instants(rows, at);
    law_covered_instants(t, at);
    assert(t[n] == row);
    assert(forall|j: int| 0 <= j < n ==> t[j] == rows[j]);
    if covers(row, at) && (winner(rows, at) matches Some(x) ==> x.2 <= row.2) {
        assert(is_winner(t, at, n)) by {
            assert forall|j: int| 0 <= j < t.len() && covers(#[trigger] t[j], at) implies !beats(
                t[j],
                t[n],
            ) by {
                if j < n {
                    assert(covers(rows[j], at));
                }
            }
        }
        lemma_winner(t, at, n);
    } else if winner(rows, at) is Some {
        lemma_winner_exists(rows, at);
        let i = choose|i: int| is_winner(rows, at, i) && winner(rows, at) == Some(rows[i]);
        assert(is_winner(t, at, i)) by {
            assert forall|j: int| 0 <= j < t.len() && covers(#[trigger] t[j], at) implies if j <= i {
                !beats(t[j], t[i])
            } else {
                beats(t[i], t[j])
            } by {
                if j < n {
                    assert(covers(rows[j], at));
                }
            }
        }
        lemma_winner(t, at, i);
    } else {
        if winner(t, at) is Some {
            let i = choose|i: int| 0 <= i < t.len() && covers(#[trigger] t[i], at);
            if i < n {
                assert(covers(rows[i], at));
            }
        }
    }
}

/// The rows of a register in a snapshot.
pub open spec fn one_rows(s: SnapshotModel, k: GraphKey) -> Seq<RowModel> {
    at_or(s.one_history, k, Seq::empty())
}

/// The rows of an element of a set in a snapshot.
pub open spec fn elem_rows(s: SnapshotModel, k: GraphKey, o: ObjModel) -> Seq<RowModel> {
    at_or(at_or(s.many_history, k, Map::empty()), o, Seq::empty())
}

/// The rows of a register are those of the state above its floor.
proof fn lemma_one_rows(f: FoldModel, k: GraphKey)
    ensures
        one_rows(observed(f), k) == seen_one(f, k),
{
    if seen_one(f, k).len() == 0 {
        assert(seen_one(f, k) =~= Seq::empty());
    }
}

/// The rows of an element are its live rows.
proof fn lemma_elem_rows(f: FoldModel, k: GraphKey, o: ObjModel)
    ensures
        elem_rows(observed(f), k, o) == history(live_elem(f, k, o)),
{
    let h = seen_many(f, k);
    if history(live_elem(f, k, o)).len() == 0 {
        assert(history(live_elem(f, k, o)) =~= Seq::empty());
        assert(!h.contains_key(o));
    } else {
        assert(h.contains_key(o));
    }
}

/// The current value of a register is that of its winning row, and a register without a current
/// value has no row or a closing one: both follow from one history.
pub proof fn law_head_is_current(f: FoldModel, k: GraphKey)
    ensures
        current_one(observed(f), k) == match head_row(observed(f), k) {
            Some(row) => row.1,
            None => None,
        },
{
    lemma_one_rows(f, k);
}

/// An element is present where its greatest row is an add; one whose greatest row is a close is not.
pub proof fn law_present_is_not_closed(f: FoldModel, k: GraphKey, o: ObjModel)
    ensures
        current_many(observed(f), k).contains(o) == ({
            let rows = elem_rows(observed(f), k, o);
            rows.len() > 0 && rows.last().1 is Some
        }),
{
    lemma_elem_rows(f, k, o);
    let h = seen_many(f, k);
    assert(present(h).contains(o) == (h.contains_key(o) && h[o].last().1 is Some));
    if present(h) == Set::<ObjModel>::empty() {
        assert(!present(h).contains(o));
    }
}

/// Every row of a history comes from a write numbered below `n`, as the rows do.
proof fn lemma_history_below(rows: Rows, n: int)
    requires
        rows_below(rows, n),
    ensures
        forall|i: int| 0 <= i < history(rows).len() ==> (#[trigger] history(rows)[i]).0.tx < n,
{
    lemma_finite_rows::<OrderKey, VersionModel>(rows);
    let s = sorted_rows::<OrderKey, VersionModel>(rows);
    assert forall|i: int| 0 <= i < history(rows).len() implies (#[trigger] history(rows)[i]).0.tx
        < n by {
        lemma_row::<OrderKey, VersionModel>(s, i);
        assert(rows.contains_key(s[i].0));
    }
}

proof fn lemma_above_floor_below(rows: Rows, hd: Option<OrderKey>, n: int)
    requires
        rows_below(rows, n),
    ensures
        rows_below(above_floor(rows, hd), n),
{
    assert(above_floor(rows, hd).dom().subset_of(rows.dom()));
    vstd::set_lib::lemma_len_subset(above_floor(rows, hd).dom(), rows.dom());
}

proof fn lemma_live_below(rows: Rows, removes: Set<OrderKey>, hd: Option<OrderKey>, n: int)
    requires
        rows_below(rows, n),
    ensures
        rows_below(live_rows(rows, removes, hd), n),
{
    assert(live_rows(rows, removes, hd).dom().subset_of(rows.dom()));
    vstd::set_lib::lemma_len_subset(live_rows(rows, removes, hd).dom(), rows.dom());
}

/// Setting or closing a register is read back: its history grows by the written row, its current
/// value is the one written, and as of any instant it has the value that the row gives where the
/// row is in effect and its former value elsewhere.
pub proof fn law_register_write_is_read(f: FoldModel, w: WriteModel, ok: OrderKey, at: i64)
    requires
        w is SetOne || w is CloseOne,
        settled(f, ok.tx as int),
        fits(f, w),
    ensures
        ({
            let k = write_key(w)->0;
            let row = written_row(w, ok);
            let before = observed(f);
            let after = observed(apply_write(f, w, ok));
            &&& one_rows(after, k) == one_rows(before, k).push(row)
            &&& head_row(after, k) == Some(row)
            &&& current_one(after, k) == row.1
            &&& one_at(after, k, at) == (if covers(row, at) && (winner(
                one_rows(before, k),
                at,
            ) matches Some(x) ==> x.2 <= row.2) {
                row.1
            } else {
                one_at(before, k, at)
            })
        }),
{
    let k = write_key(w)->0;
    let row = written_row(w, ok);
    let g = apply_write(f, w, ok);
    let n = ok.tx as int;
    let st = at_or(f.keys, k, empty_key(write_kind(w)->0));
    assert(key_below(st, n));
    let versions = st->One_versions;
    let hd = st->One_hd;
    let v = VersionModel { object: row.1, valid_from: row.2, valid_to: row.3 };
    let rows = above_floor(versions, hd);
    lemma_above_floor_below(versions, hd, n);
    assert(above(hd, ok));
    assert(above_floor(versions.insert(ok, v), hd) =~= rows.insert(ok, v));
    lemma_history_push(rows, ok, v);
    lemma_history_below(rows, n);
    if !f.keys.contains_key(k) {
        assert(rows =~= Map::<OrderKey, VersionModel>::empty());
        lemma_history_empty();
        assert(history(rows) =~= seen_one(f, k));
    }
    assert(seen_one(g, k) == seen_one(f, k).push(row));
    lemma_one_rows(f, k);
    lemma_one_rows(g, k);
    law_head_is_current(g, k);
    law_latest_row_in_effect(seen_one(f, k), row, at);
}

/// The element that a write adds or closes.
pub open spec fn element_of(w: WriteModel) -> Option<ObjModel> {
    match w {
        WriteModel::AddMany { object, .. } => Some(object),
        WriteModel::CloseMany { object, .. } => Some(object),
        _ => None,
    }
}

/// Adding or closing an element is read back: its history grows by the written row; it enters or
/// leaves the current set, and no other element does; as of any instant it is in effect as the row
/// says where the row is, and as before elsewhere.
pub proof fn law_element_write_is_read(f: FoldModel, w: WriteModel, o: ObjModel, ok: OrderKey, at: i64)
    requires
        element_of(w) == Some(o),
        settled(f, ok.tx as int),
        fits(f, w),
    ensures
        ({
            let k = write_key(w)->0;
            let row = written_row(w, ok);
            let before = observed(f);
            let after = observed(apply_write(f, w, ok));
            &&& elem_rows(after, k, o) == elem_rows(before, k, o).push(row)
            &&& current_many(after, k) == (if w is AddMany {
                current_many(before, k).insert(o)
            } else {
                current_many(before, k).remove(o)
            })
            &&& many_at(after, k, at).contains(o) == (if covers(row, at) && (winner(
                elem_rows(before, k, o),
                at,
            ) matches Some(x) ==> x.2 <= row.2) {
                w is AddMany
            } else {
                many_at(before, k, at).contains(o)
            })
            &&& forall|p: ObjModel|
                p != o ==> #[trigger] many_at(after, k, at).contains(p) == many_at(
                    before,
                    k,
                    at,
                ).contains(p)
        }),
{
    let k = write_key(w)->0;
    let row = written_row(w, ok);
    let g = apply_write(f, w, ok);
    let n = ok.tx as int;
    let st = at_or(f.keys, k, empty_key(write_kind(w)->0));
    assert(key_below(st, n));
    let elems = st->elems;
    let removes = st->removes;
    let hd = st->Many_hd;
    let v = VersionModel { object: row.1, valid_from: row.2, valid_to: row.3 };
    let own = at_or(elems, o, Map::empty());
    let rows = live_rows(own, removes, hd);
    assert(rows_below(own, n));
    lemma_live_below(own, removes, hd, n);
    assert(above(hd, ok) && !removes.contains(ok));
    assert(live_elem(f, k, o) =~= rows);
    assert(live_elem(g, k, o) =~= rows.insert(ok, v));
    lemma_history_push(rows, ok, v);
    lemma_history_below(rows, n);
    assert forall|p: ObjModel| p != o implies #[trigger] live_elem(g, k, p) == live_elem(f, k, p) by {
        assert(live_elem(g, k, p) =~= live_elem(f, k, p));
    }
    let before = observed(f);
    let after = observed(g);
    assert forall|p: ObjModel| #[trigger] current_many(after, k).contains(p) == (if p == o {
        w is AddMany
    } else {
        current_many(before, k).contains(p)
    }) by {
        law_present_is_not_closed(f, k, p);
        law_present_is_not_closed(g, k, p);
        lemma_elem_rows(f, k, p);
        lemma_elem_rows(g, k, p);
    }
    if w is AddMany {
        assert(current_many(after, k) =~= current_many(before, k).insert(o));
    } else {
        assert(current_many(after, k) =~= current_many(before, k).remove(o));
    }
    assert forall|p: ObjModel| #[trigger] many_at(after, k, at).contains(p) == elem_at(
        elem_rows(after, k, p),
        at,
    ) by {
        lemma_many_at(g, k, p, at);
    }
    assert forall|p: ObjModel| #[trigger] many_at(before, k, at).contains(p) == elem_at(
        elem_rows(before, k, p),
        at,
    ) by {
        lemma_many_at(f, k, p, at);
    }
    assert forall|p: ObjModel| p != o implies #[trigger] many_at(after, k, at).contains(p)
        == many_at(before, k, at).contains(p) by {
        lemma_elem_rows(f, k, p);
        lemma_elem_rows(g, k, p);
    }
    lemma_elem_rows(f, k, o);
    lemma_elem_rows(g, k, o);
    law_latest_row_in_effect(history(rows), row, at);
}

/// An element is in effect as its own rows say.
proof fn lemma_many_at(f: FoldModel, k: GraphKey, o: ObjModel, at: i64)
    ensures
        many_at(observed(f), k, at).contains(o) == elem_at(elem_rows(observed(f), k, o), at),
{
    law_covered_instants(Seq::<RowModel>::empty(), at);
    lemma_elem_rows(f, k, o);
}

/// A hard delete leaves nothing of a graph key: no value, no element, no history.
pub proof fn law_deleted_is_gone(f: FoldModel, w: WriteModel, ok: OrderKey)
    requires
        w is HardDelete,
        settled(f, ok.tx as int),
    ensures
        ({
            let k = write_key(w)->0;
            let after = observed(apply_write(f, w, ok));
            &&& !after.one.contains_key(k)
            &&& !after.one_history.contains_key(k)
            &&& !after.many.contains_key(k)
            &&& !after.many_history.contains_key(k)
        }),
{
    let k = write_key(w)->0;
    let g = apply_write(f, w, ok);
    let n = ok.tx as int;
    let st = at_or(f.keys, k, empty_key(write_kind(w)->0));
    assert(key_below(st, n));
    let none = Map::<OrderKey, VersionModel>::empty();
    lemma_history_empty();
    match st {
        KeyModel::One { versions, hd } => {
            assert(max_floor(hd, Some(ok)) == Some(ok));
            assert(above_floor(versions, Some(ok)) =~= none);
            assert(seen_one(g, k) == history(none));
        },
        KeyModel::Many { elems, removes, hd } => {
            assert(max_floor(hd, Some(ok)) == Some(ok));
        },
    }
    assert forall|o: ObjModel| #[trigger] live_elem(g, k, o) == none by {
        assert(live_elem(g, k, o) =~= none);
    }
    assert(seen_many(g, k) =~= Map::<ObjModel, Seq<RowModel>>::empty());
    assert(present(seen_many(g, k)) =~= Set::<ObjModel>::empty());
}

/// An edge property and the registers of a node read back as the latest write set them.
pub proof fn law_setting_is_read(f: FoldModel, w: WriteModel, ok: OrderKey)
    requires
        settled(f, ok.tx as int),
    ensures
        ({
            let after = observed(apply_write(f, w, ok));
            match w {
                WriteModel::SetEdgeProp { subject, predicate, object, key, value } => {
                    let k = (subject, predicate);
                    &&& after.edge_props.contains_key(k)
                    &&& after.edge_props[k].contains_key(object)
                    &&& after.edge_props[k][object].contains_key(key)
                    &&& after.edge_props[k][object][key] == value
                },
                WriteModel::SetNodeType { node, type_id } => {
                    &&& after.node_types.contains_key(node)
                    &&& after.node_types[node] == type_id
                },
                WriteModel::SetNodeLabel { node, label } => {
                    &&& after.node_labels.contains_key(node)
                    &&& after.node_labels[node] == label
                },
                _ => true,
            }
        }),
{
    let n = ok.tx as int;
    match w {
        WriteModel::SetEdgeProp { subject, predicate, object, key, .. } => {
            let k = (subject, predicate);
            assert(prop_below(f, k, object, key, n));
            let props = apply_write(f, w, ok).edge_props[k];
            assert(props.contains_key(object));
            assert(props != Map::<ObjModel, Map<Seq<char>, PropModel>>::empty());
        },
        WriteModel::SetNodeType { node, .. } => {
            assert(attr_below(f, node, n));
        },
        WriteModel::SetNodeLabel { node, .. } => {
            assert(attr_below(f, node, n));
        },
        _ => {},
    }
}

/// A write changes nothing but what it is about: every other graph key and every other node is
/// observed as before.
pub proof fn law_write_is_local(f: FoldModel, w: WriteModel, ok: OrderKey, k: GraphKey, x: NodeId)
    requires
        write_key(w) != Some(k),
        write_node(w) != Some(x),
    ensures
        ({
            let before = observed(f);
            let after = observed(apply_write(f, w, ok));
            &&& current_one(after, k) == current_one(before, k)
            &&& one_rows(after, k) == one_rows(before, k)
            &&& current_many(after, k) == current_many(before, k)
            &&& at_or(after.many_history, k, Map::empty()) == at_or(
                before.many_history,
                k,
                Map::empty(),
            )
            &&& at_or(after.edge_props, k, Map::empty()) == at_or(
                before.edge_props,
                k,
                Map::empty(),
            )
            &&& after.node_types.contains_key(x) == before.node_types.contains_key(x)
            &&& before.node_types.contains_key(x) ==> after.node_types[x] == before.node_types[x]
            &&& after.node_labels.contains_key(x) == before.node_labels.contains_key(x)
            &&& before.node_labels.contains_key(x) ==> after.node_labels[x] == before.node_labels[x]
        }),
{
    lemma_same_key(f, apply_write(f, w, ok), k);
}

/// An element added at `t0`, closed at `t1` and added again at `t2` is in effect from `t0` to `t1`
/// and from `t2` on, and not between.
pub proof fn law_closed_between(
    o: ObjModel,
    keys: (OrderKey, OrderKey, OrderKey),
    t0: i64,
    t1: i64,
    t2: i64,
    at: i64,
)
    requires
        older(keys.0, keys.1),
        older(keys.1, keys.2),
        t0 <= t1 <= t2,
    ensures
        ({
            let add = (keys.0, Some(o), t0, None::<i64>);
            let close = (keys.1, None::<ObjModel>, t1, None::<i64>);
            let again = (keys.2, Some(o), t2, None::<i64>);
            &&& elem_at(seq![add, close], at) == (t0 <= at < t1)
            &&& elem_at(seq![add, close, again], at) == (t0 <= at < t1 || t2 <= at)
        }),
{
    let add: RowModel = (keys.0, Some(o), t0, None);
    let close: RowModel = (keys.1, None, t1, None);
    let again: RowModel = (keys.2, Some(o), t2, None);
    let none = Seq::<RowModel>::empty();
    law_covered_instants(none, at);
    law_latest_row_in_effect(none, add, at);
    law_latest_row_in_effect(none.push(add), close, at);
    law_latest_row_in_effect(none.push(add).push(close), again, at);
    assert(seq![add, close] =~= none.push(add).push(close));
    assert(seq![add, close, again] =~= none.push(add).push(close).push(again));
}

/// A value without a source, or a stale one, is of low confidence however many sources agree; one of
/// high confidence is sourced, fresh and corroborated.
pub proof fn law_low_comes_first(has_source: bool, stale: bool, corroboration: nat)
    ensures
        !has_source || stale ==> tier_of(has_source, stale, corroboration) == Tier::Low,
        tier_of(has_source, stale, corroboration) == Tier::High <==> has_source && !stale
            && corroboration >= 2,
{
}

/// Links have no direction: two nodes are linked, by the same predicates, both ways.
pub proof fn law_links_go_both_ways(s: SnapshotModel, predicate: Option<FieldId>, a: NodeId, b: NodeId)
    ensures
        adjacent(s, predicate, a, b) == adjacent(s, predicate, b, a),
        connecting(s, predicate, a, b) == connecting(s, predicate, b, a),
{
    assert forall|p: FieldId| #[trigger] connects(s, predicate, p, a, b) == connects(
        s,
        predicate,
        p,
        b,
        a,
    ) by {}
    if adjacent(s, predicate, a, b) {
        let p = choose|p: FieldId| connects(s, predicate, p, a, b);
        assert(connects(s, predicate, p, b, a));
    }
    if adjacent(s, predicate, b, a) {
        let p = choose|p: FieldId| connects(s, predicate, p, b, a);
        assert(connects(s, predicate, p, a, b));
    }
    assert(connecting(s, predicate, a, b) =~= connecting(s, predicate, b, a));
}

/// By one predicate, every linked pair has strength 1.
pub proof fn law_one_predicate_one_strength(s: SnapshotModel, p: FieldId, k: (NodeId, NodeId))
    requires
        strengths(s, Some(p)).contains_key(k),
    ensures
        strengths(s, Some(p))[k] == 1,
{
    let q = choose|q: FieldId| connects(s, Some(p), q, k.0, k.1);
    assert(connects(s, Some(p), p, k.0, k.1));
    assert(connecting(s, Some(p), k.0, k.1) =~= Set::empty().insert(p));
}

/// Edge properties and node registers are apart from the graph: writing them changes no value, no
/// element and no history, and a graph write changes none of them.
pub proof fn law_settings_are_apart(f: FoldModel, w: WriteModel, ok: OrderKey)
    ensures
        ({
            let before = observed(f);
            let after = observed(apply_write(f, w, ok));
            if w is SetEdgeProp || w is SetNodeType || w is SetNodeLabel {
                &&& after.one == before.one
                &&& after.one_history == before.one_history
                &&& after.many == before.many
                &&& after.many_history == before.many_history
            } else {
                &&& after.edge_props == before.edge_props
                &&& after.node_types == before.node_types
                &&& after.node_labels == before.node_labels
            }
        }),
{
    let g = apply_write(f, w, ok);
    let before = observed(f);
    let after = observed(g);
    if w is SetEdgeProp || w is SetNodeType || w is SetNodeLabel {
        assert forall|k: GraphKey| #[trigger] seen_one(g, k) == seen_one(f, k) by {}
        assert forall|k: GraphKey| #[trigger] seen_many(g, k) == seen_many(f, k) by {
            assert forall|o: ObjModel| #[trigger] live_elem(g, k, o) == live_elem(f, k, o) by {}
            assert(seen_many(g, k) =~= seen_many(f, k));
        }
        assert(after.one =~= before.one);
        assert(after.one_history =~= before.one_history);
        assert(after.many =~= before.many);
        assert(after.many_history =~= before.many_history);
    } else {
        assert(after.edge_props =~= before.edge_props);
        assert(after.node_types =~= before.node_types);
        assert(after.node_labels =~= before.node_labels);
    }
}

/// Asserting again what is asserted changes nothing: the current set stays, and so does the set as
/// of any instant, unless the element was closed from the very start of the interval.
pub proof fn law_reassertion_changes_nothing(f: FoldModel, w: WriteModel, ok: OrderKey, at: i64)
    requires
        settled(f, ok.tx as int),
        fits(f, w),
        ({
            &&& w matches WriteModel::AddMany { subject, predicate, object, valid_from, valid_to }
            &&& live_asserted(f, (subject, predicate), object, ok.source, valid_from, valid_to)
            &&& forall|i: int|
                0 <= i < elem_rows(observed(f), (subject, predicate), object).len() && (
                #[trigger] elem_rows(observed(f), (subject, predicate), object)[i]).1 is None
                    ==> elem_rows(observed(f), (subject, predicate), object)[i].2 != valid_from
        }),
    ensures
        ({
            let k = write_key(w)->0;
            let before = observed(f);
            let after = observed(apply_write(f, w, ok));
            &&& current_many(after, k) == current_many(before, k)
            &&& many_at(after, k, at) == many_at(before, k, at)
        }),
{
    let k = write_key(w)->0;
    let o = element_of(w)->0;
    let before = observed(f);
    let after = observed(apply_write(f, w, ok));
    let rows = elem_rows(before, k, o);
    let row = written_row(w, ok);
    law_element_write_is_read(f, w, o, ok, at);
    lemma_elem_rows(f, k, o);
    law_present_is_not_closed(f, k, o);
    assert(current_many(after, k) =~= current_many(before, k));
    law_covered_instants(rows, at);
    lemma_many_at(f, k, o, at);
    if covers(row, at) {
        let i = choose|i: int|
            0 <= i < rows.len() && (#[trigger] rows[i]).1 is Some && rows[i].2 == row.2 && rows[i].3
                == row.3;
        assert(covers(rows[i], at));
        lemma_winner_exists(rows, at);
        let j = choose|j: int| is_winner(rows, at, j) && winner(rows, at) == Some(rows[j]);
        assert(rows[j].2 >= row.2);
        if rows[j].2 == row.2 {
            assert(rows[j].1 is Some);
        }
    }
    assert(many_at(after, k, at) =~= many_at(before, k, at));
}

/// The probe for a repeated assertion, by what is observed: the element is present, and some row of
/// its history adds it from this source over this interval. So it fails after a winning close, for
/// another source and for another interval.
pub proof fn law_asserted_is_observed(
    f: FoldModel,
    k: GraphKey,
    o: ObjModel,
    source: FieldId,
    valid_from: i64,
    valid_to: Option<i64>,
)
    requires
        built(f),
    ensures
        ({
            let s = observed(f);
            let rows = elem_rows(s, k, o);
            &&& live_asserted(f, k, o, source, valid_from, valid_to) <==> (current_many(s, k).contains(
                o,
            ) && exists|i: int|
                0 <= i < rows.len() && (#[trigger] rows[i]).0.source == source && rows[i].1 == Some(o)
                    && rows[i].2 == valid_from && rows[i].3 == valid_to)
            &&& rows.len() > 0 && rows.last().1 is None ==> !live_asserted(
                f,
                k,
                o,
                source,
                valid_from,
                valid_to,
            )
        }),
{
    let rows = elem_rows(observed(f), k, o);
    lemma_elem_rows(f, k, o);
    law_present_is_not_closed(f, k, o);
    lemma_live_history(f, k, o);
    if live_asserted(f, k, o, source, valid_from, valid_to) {
        let i = choose|i: int|
            0 <= i < rows.len() && (#[trigger] rows[i]).1 is Some && rows[i].0.source == source
                && rows[i].2 == valid_from && rows[i].3 == valid_to;
        assert(rows[i].1 == Some(o));
    }
}

} // verus!
