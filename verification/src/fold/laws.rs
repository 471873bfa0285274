//! The laws of the fold: writes commute and may be redelivered, merging is a join that agrees with
//! folding, and collection is invisible.
use super::model::{
    above, above_floor, add_row, all_fit, apply_key, apply_prop, apply_write, at_or, empty_fold,
    empty_key, fits, fold_writes, gc_fold, gc_key, history, key_kind, kinds_agree, lemma_history_empty,
    live_elem, merge_elems, merge_folds, merge_key, merge_props, merge_regs, obs_many,
    obs_many_history, obs_one, obs_one_history, observed, present, seen_many, seen_one, write_key,
    write_kind, FoldModel, GraphKey, KeyModel, Props, RowModel, Rows, VersionModel, WriteModel,
};
use super::bytes::{law_merged_rows_stay_owned, law_rows_stay_owned, own_rows, rows_owned};
use super::assertion_of;
use crate::catalog::{Cardinality, CatalogModel};
use crate::fact::{Fact, NodeId};
use crate::objkey::{object_model, older, ObjModel, OrderKey};
use crate::order::Key;
use crate::ordmap::{lemma_finite_rows, lemma_row, sorted_rows};
use vstd::prelude::*;

verus! {

/// A write with its order key.
pub type Write = (WriteModel, OrderKey);

/// Two writes can stand in one log: they agree on the cardinality of a key that both touch, and
/// distinct writes have distinct order keys. A removal has no order key of its own.
pub open spec fn coherent(a: Write, b: Write) -> bool {
    &&& (write_kind(a.0) is Some && write_kind(b.0) is Some && write_key(a.0) == write_key(b.0)
        ==> write_kind(a.0) == write_kind(b.0))
    &&& (a.1 == b.1 && !(a.0 is RemoveMany) && !(b.0 is RemoveMany) ==> a.0 == b.0)
}

/// Every two writes of the log are coherent.
pub open spec fn coherent_log(ws: Seq<Write>) -> bool {
    forall|i: int, j: int|
        0 <= i < ws.len() && 0 <= j < ws.len() ==> coherent(#[trigger] ws[i], #[trigger] ws[j])
}

proof fn lemma_add_row_commutes(
    elems: Map<ObjModel, Rows>,
    o1: ObjModel,
    k1: OrderKey,
    v1: VersionModel,
    o2: ObjModel,
    k2: OrderKey,
    v2: VersionModel,
)
    requires
        k1 == k2 ==> o1 == o2 && v1 == v2,
    ensures
        add_row(add_row(elems, o1, k1, v1), o2, k2, v2) == add_row(
            add_row(elems, o2, k2, v2),
            o1,
            k1,
            v1,
        ),
{
    let l = add_row(add_row(elems, o1, k1, v1), o2, k2, v2);
    let r = add_row(add_row(elems, o2, k2, v2), o1, k1, v1);
    if o1 == o2 {
        let rows = at_or(elems, o1, Map::empty());
        assert(rows.insert(k1, v1).insert(k2, v2) =~= rows.insert(k2, v2).insert(k1, v1));
    }
    assert(l =~= r);
}

proof fn lemma_key_commutes(s: KeyModel, a: Write, b: Write)
    requires
        coherent(a, b),
        write_key(a.0) == write_key(b.0),
        write_kind(a.0) is Some,
        write_kind(b.0) is Some,
    ensures
        apply_key(apply_key(s, a.0, a.1), b.0, b.1) == apply_key(
            apply_key(s, b.0, b.1),
            a.0,
            a.1,
        ),
{
    match s {
        KeyModel::One { versions, hd } => {
            let ab = apply_key(apply_key(s, a.0, a.1), b.0, b.1)->versions;
            let ba = apply_key(apply_key(s, b.0, b.1), a.0, a.1)->versions;
            assert(ab =~= ba);
        },
        KeyModel::Many { elems, removes, hd } => {
            let ab = apply_key(apply_key(s, a.0, a.1), b.0, b.1);
            let ba = apply_key(apply_key(s, b.0, b.1), a.0, a.1);
            assert(ab->removes =~= ba->removes);
            let row_a = row_of_write(a.0);
            let row_b = row_of_write(b.0);
            if let (Some(x), Some(y)) = (row_a, row_b) {
                lemma_add_row_commutes(elems, x.0, a.1, x.1, y.0, b.1, y.1);
            }
            assert(ab->elems == ba->elems);
        },
    }
}

/// The element row that a write adds to a set.
spec fn row_of_write(w: WriteModel) -> Option<(ObjModel, VersionModel)> {
    match w {
        WriteModel::AddMany { object, valid_from, valid_to, .. } => Some(
            (object, VersionModel { object: Some(object), valid_from, valid_to }),
        ),
        WriteModel::CloseMany { object, valid_from, .. } => Some(
            (object, VersionModel { object: None, valid_from, valid_to: None }),
        ),
        _ => None,
    }
}

proof fn lemma_prop_commutes(
    objs: Props,
    o1: ObjModel,
    p1: Seq<char>,
    v1: ObjModel,
    k1: OrderKey,
    o2: ObjModel,
    p2: Seq<char>,
    v2: ObjModel,
    k2: OrderKey,
)
    requires
        k1 == k2 ==> o1 == o2 && p1 == p2 && v1 == v2,
    ensures
        apply_prop(apply_prop(objs, o1, p1, v1, k1), o2, p2, v2, k2) == apply_prop(
            apply_prop(objs, o2, p2, v2, k2),
            o1,
            p1,
            v1,
            k1,
        ),
{
    let l = apply_prop(apply_prop(objs, o1, p1, v1, k1), o2, p2, v2, k2);
    let r = apply_prop(apply_prop(objs, o2, p2, v2, k2), o1, p1, v1, k1);
    if o1 == o2 {
        assert(l[o1] =~= r[o1]);
    }
    assert(l =~= r);
}

/// Coherent writes commute, whatever state they meet.
pub proof fn law_writes_commute(f: FoldModel, a: Write, b: Write)
    requires
        coherent(a, b),
    ensures
        apply_write(apply_write(f, a.0, a.1), b.0, b.1) == apply_write(
            apply_write(f, b.0, b.1),
            a.0,
            a.1,
        ),
{
    let l = apply_write(apply_write(f, a.0, a.1), b.0, b.1);
    let r = apply_write(apply_write(f, b.0, b.1), a.0, a.1);
    if write_kind(a.0) is Some && write_kind(b.0) is Some {
        let ka = write_key(a.0)->0;
        if write_key(a.0) == write_key(b.0) {
            lemma_key_commutes(at_or(f.keys, ka, empty_key(write_kind(a.0)->0)), a, b);
        }
        assert(l.keys =~= r.keys);
    } else if a.0 is SetEdgeProp && b.0 is SetEdgeProp {
        let ka = write_key(a.0)->0;
        if write_key(a.0) == write_key(b.0) {
            lemma_prop_commutes(
                at_or(f.edge_props, ka, Map::empty()),
                a.0->SetEdgeProp_object,
                a.0->key,
                a.0->value,
                a.1,
                b.0->SetEdgeProp_object,
                b.0->key,
                b.0->value,
                b.1,
            );
        }
        assert(l.edge_props =~= r.edge_props);
    } else {
        assert(l.node_attrs =~= r.node_attrs);
    }
}

/// A write that was already folded in changes nothing when it is folded in again at once.
proof fn lemma_write_idempotent(f: FoldModel, a: Write)
    ensures
        apply_write(apply_write(f, a.0, a.1), a.0, a.1) == apply_write(f, a.0, a.1),
{
    let once = apply_write(f, a.0, a.1);
    let twice = apply_write(once, a.0, a.1);
    if write_kind(a.0) is Some {
        let k = write_key(a.0)->0;
        let s = at_or(f.keys, k, empty_key(write_kind(a.0)->0));
        let s1 = apply_key(s, a.0, a.1);
        let s2 = apply_key(s1, a.0, a.1);
        match s1 {
            KeyModel::One { versions, hd } => {
                assert(s2->versions =~= versions);
            },
            KeyModel::Many { elems, removes, hd } => {
                assert(s2->removes =~= removes);
                if let Some(row) = row_of_write(a.0) {
                    assert(elems[row.0].insert(a.1, row.1) =~= elems[row.0]);
                    assert(s2->elems =~= elems);
                }
            },
        }
        assert(s2 == s1);
        assert(twice.keys =~= once.keys);
    } else if a.0 is SetEdgeProp {
        let k = write_key(a.0)->0;
        let o = a.0->SetEdgeProp_object;
        assert(twice.edge_props[k][o] =~= once.edge_props[k][o]);
        assert(twice.edge_props[k] =~= once.edge_props[k]);
        assert(twice.edge_props =~= once.edge_props);
    } else {
        assert(twice.node_attrs =~= once.node_attrs);
    }
}

/// A write may be moved from the end of a log to any place in it.
proof fn lemma_move_last(f: FoldModel, ws: Seq<Write>, i: int)
    requires
        coherent_log(ws),
        0 <= i < ws.len(),
    ensures
        fold_writes(f, ws) == fold_writes(f, ws.remove(i).push(ws[i])),
    decreases ws.len(),
{
    if i == ws.len() - 1 {
        assert(ws.remove(i).push(ws[i]) =~= ws);
    } else {
        let w = ws[i];
        let z = ws.last();
        let init = ws.drop_last();
        assert(coherent_log(init));
        lemma_move_last(f, init, i);
        let head = init.remove(i);
        // f, init == f, head, w
        assert(init.remove(i).push(init[i]).drop_last() =~= head);
        let g = fold_writes(f, head);
        assert(fold_writes(f, init) == apply_write(g, w.0, w.1));
        law_writes_commute(g, w, z);
        let moved = ws.remove(i).push(ws[i]);
        assert(moved.drop_last() =~= head.push(z));
        assert(moved.drop_last().drop_last() =~= head);
        assert(moved.last() == w);
        assert(head.push(z).last() == z);
        assert(head.push(z).drop_last() =~= head);
        assert(fold_writes(f, head.push(z)) == apply_write(g, z.0, z.1));
        assert(fold_writes(f, moved) == apply_write(fold_writes(f, head.push(z)), w.0, w.1));
        assert(fold_writes(f, ws) == apply_write(fold_writes(f, init), z.0, z.1));
    }
}

/// Order does not matter: logs with the same writes, each as often, fold to the same state.
pub proof fn law_order_independent(f: FoldModel, a: Seq<Write>, b: Seq<Write>)
    requires
        coherent_log(a),
        a.to_multiset() == b.to_multiset(),
    ensures
        fold_writes(f, a) == fold_writes(f, b),
    decreases a.len(),
{
    broadcast use vstd::seq_lib::group_to_multiset_ensures;

    assert(a.to_multiset().len() == a.len());
    assert(b.to_multiset().len() == b.len());
    if a.len() > 0 {
        let z = b.last();
        assert(b.to_multiset().count(z) > 0) by {
            assert(b.contains(z)) by {
                assert(b[b.len() - 1] == z);
            }
        }
        assert(a.contains(z));
        let i = choose|i: int| 0 <= i < a.len() && a[i] == z;
        lemma_move_last(f, a, i);
        let a1 = a.remove(i);
        let b1 = b.drop_last();
        assert(coherent_log(a1)) by {
            assert forall|x: int, y: int|
                0 <= x < a1.len() && 0 <= y < a1.len() implies coherent(
                #[trigger] a1[x],
                #[trigger] a1[y],
            ) by {
                let x1 = if x < i { x } else { x + 1 };
                let y1 = if y < i { y } else { y + 1 };
                assert(coherent(a[x1], a[y1]));
            }
        }
        assert(b1 =~= b.remove(b.len() - 1));
        assert(a1.to_multiset() =~= a.to_multiset().remove(z));
        assert(b1.to_multiset() =~= b.to_multiset().remove(z));
        law_order_independent(f, a1, b1);
        assert(a1.push(z).drop_last() =~= a1);
        assert(a1.push(z).last() == z);
    } else {
        assert(a =~= b);
    }
}

/// Redelivery does not matter: a write that the log already holds changes nothing.
pub proof fn law_redelivery(f: FoldModel, ws: Seq<Write>, i: int)
    requires
        coherent_log(ws),
        0 <= i < ws.len(),
    ensures
        fold_writes(f, ws.push(ws[i])) == fold_writes(f, ws),
{
    let w = ws[i];
    lemma_move_last(f, ws, i);
    let head = ws.remove(i);
    assert(head.push(w).drop_last() =~= head);
    assert(head.push(w).last() == w);
    assert(ws.push(w).drop_last() =~= ws);
    lemma_write_idempotent(fold_writes(f, head), w);
}

proof fn lemma_redeliver_prefix(f: FoldModel, ws: Seq<Write>, n: int)
    requires
        coherent_log(ws),
        0 <= n <= ws.len(),
    ensures
        fold_writes(f, ws + ws.take(n)) == fold_writes(f, ws),
    decreases n,
{
    if n == 0 {
        assert(ws + ws.take(0) =~= ws);
    } else {
        lemma_redeliver_prefix(f, ws, n - 1);
        let w = ws[n - 1];
        let long = ws + ws.take(n);
        assert(long.drop_last() =~= ws + ws.take(n - 1));
        assert(long.last() == w);
        assert(ws.push(w).drop_last() =~= ws);
        law_redelivery(f, ws, n - 1);
    }
}

/// A log delivered twice folds to the same state as once.
pub proof fn law_delivered_twice(f: FoldModel, ws: Seq<Write>)
    requires
        coherent_log(ws),
    ensures
        fold_writes(f, ws + ws) == fold_writes(f, ws),
{
    assert(ws.take(ws.len() as int) =~= ws);
    lemma_redeliver_prefix(f, ws, ws.len() as int);
}

/// Two rows-by-order-key maps agree where both have a row.
pub open spec fn rows_agree(a: Rows, b: Rows) -> bool {
    forall|ok: OrderKey| #[trigger]
        a.contains_key(ok) && b.contains_key(ok) ==> a[ok] == b[ok]
}

/// Two key states come from one log: same cardinality, and same content under the same order key.
pub open spec fn keys_agree(a: KeyModel, b: KeyModel) -> bool {
    match (a, b) {
        (KeyModel::One { versions: va, .. }, KeyModel::One { versions: vb, .. }) => rows_agree(
            va,
            vb,
        ),
        (KeyModel::Many { elems: ea, .. }, KeyModel::Many { elems: eb, .. }) => forall|
            o: ObjModel,
        | #[trigger]
            ea.contains_key(o) && eb.contains_key(o) ==> rows_agree(ea[o], eb[o]),
        _ => false,
    }
}

/// Two registers of one log: same content under the same order key.
pub open spec fn regs_agree<T>(a: Option<(OrderKey, T)>, b: Option<(OrderKey, T)>) -> bool {
    match (a, b) {
        (Some(x), Some(y)) => x.0 == y.0 ==> x.1 == y.1,
        _ => true,
    }
}

/// Two states come from one log, in which distinct writes have distinct order keys.
pub open spec fn states_agree(a: FoldModel, b: FoldModel) -> bool {
    &&& forall|k: GraphKey| #[trigger]
        a.keys.contains_key(k) && b.keys.contains_key(k) ==> keys_agree(a.keys[k], b.keys[k])
    &&& forall|k: GraphKey, o: ObjModel, p: Seq<char>|
        #![trigger a.edge_props[k][o][p], b.edge_props[k][o][p]]
        a.edge_props.contains_key(k) && b.edge_props.contains_key(k)
            && a.edge_props[k].contains_key(o) && b.edge_props[k].contains_key(o)
            && a.edge_props[k][o].contains_key(p) && b.edge_props[k][o].contains_key(p)
            && a.edge_props[k][o][p].ok == b.edge_props[k][o][p].ok ==> a.edge_props[k][o][p]
            == b.edge_props[k][o][p]
    &&& forall|n: NodeId| #[trigger]
        a.node_attrs.contains_key(n) && b.node_attrs.contains_key(n) ==> regs_agree(
            a.node_attrs[n].ty,
            b.node_attrs[n].ty,
        ) && regs_agree(a.node_attrs[n].label, b.node_attrs[n].label)
}

proof fn lemma_merge_key_commutes(a: KeyModel, b: KeyModel)
    requires
        keys_agree(a, b),
    ensures
        merge_key(a, b) == merge_key(b, a),
{
    match (a, b) {
        (KeyModel::One { versions: va, .. }, KeyModel::One { versions: vb, .. }) => {
            assert(va.union_prefer_right(vb) =~= vb.union_prefer_right(va));
        },
        (
            KeyModel::Many { elems: ea, removes: ra, .. },
            KeyModel::Many { elems: eb, removes: rb, .. },
        ) => {
            assert(ra.union(rb) =~= rb.union(ra));
            let l = merge_elems(ea, eb);
            let r = merge_elems(eb, ea);
            assert forall|o: ObjModel| l.contains_key(o) implies #[trigger] l[o] == r[o] by {
                let x = at_or(ea, o, Map::empty());
                let y = at_or(eb, o, Map::empty());
                if ea.contains_key(o) && eb.contains_key(o) {
                    assert(rows_agree(x, y));
                }
                assert(x.union_prefer_right(y) =~= y.union_prefer_right(x));
            }
            assert(l =~= r);
        },
        _ => {},
    }
}

/// Merging is commutative.
pub proof fn law_merge_commutative(a: FoldModel, b: FoldModel)
    requires
        states_agree(a, b),
    ensures
        merge_folds(a, b) == merge_folds(b, a),
{
    let l = merge_folds(a, b);
    let r = merge_folds(b, a);
    assert forall|k: GraphKey| l.keys.contains_key(k) implies #[trigger] l.keys[k]
        == r.keys[k] by {
        if a.keys.contains_key(k) && b.keys.contains_key(k) {
            lemma_merge_key_commutes(a.keys[k], b.keys[k]);
        }
    }
    assert(l.keys =~= r.keys);
    assert forall|k: GraphKey| l.edge_props.contains_key(k) implies #[trigger] l.edge_props[k]
        == r.edge_props[k] by {
        let x = at_or(a.edge_props, k, Map::empty());
        let y = at_or(b.edge_props, k, Map::empty());
        assert forall|o: ObjModel| merge_props(x, y).contains_key(o) implies #[trigger] merge_props(
            x,
            y,
        )[o] == merge_props(y, x)[o] by {
            let u = at_or(x, o, Map::empty());
            let v = at_or(y, o, Map::empty());
            assert forall|p: Seq<char>| merge_regs(u, v).contains_key(p) implies
                #[trigger] merge_regs(u, v)[p] == merge_regs(v, u)[p] by {
                if u.contains_key(p) && v.contains_key(p) {
                    assert(u[p] == a.edge_props[k][o][p]);
                    assert(v[p] == b.edge_props[k][o][p]);
                }
            }
            assert(merge_regs(u, v) =~= merge_regs(v, u));
        }
        assert(merge_props(x, y) =~= merge_props(y, x));
    }
    assert(l.edge_props =~= r.edge_props);
    assert(l.node_attrs =~= r.node_attrs);
}

/// Merging is idempotent.
pub proof fn law_merge_idempotent(a: FoldModel)
    ensures
        merge_folds(a, a) == a,
{
    let m = merge_folds(a, a);
    assert forall|k: GraphKey| a.keys.contains_key(k) implies #[trigger] m.keys[k]
        == a.keys[k] by {
        match a.keys[k] {
            KeyModel::One { versions, .. } => {
                assert(versions.union_prefer_right(versions) =~= versions);
            },
            KeyModel::Many { elems, removes, .. } => {
                assert(removes.union(removes) =~= removes);
                assert forall|o: ObjModel| elems.contains_key(o) implies #[trigger] merge_elems(
                    elems,
                    elems,
                )[o] == elems[o] by {
                    assert(elems[o].union_prefer_right(elems[o]) =~= elems[o]);
                }
                assert(merge_elems(elems, elems) =~= elems);
            },
        }
    }
    assert(m.keys =~= a.keys);
    assert forall|k: GraphKey| a.edge_props.contains_key(k) implies #[trigger] m.edge_props[k]
        == a.edge_props[k] by {
        let x = a.edge_props[k];
        assert forall|o: ObjModel| x.contains_key(o) implies #[trigger] merge_props(x, x)[o]
            == x[o] by {
            assert(merge_regs(x[o], x[o]) =~= x[o]);
        }
        assert(merge_props(x, x) =~= x);
    }
    assert(m.edge_props =~= a.edge_props);
    assert(m.node_attrs =~= a.node_attrs);
}

proof fn lemma_merge_key_assoc(a: KeyModel, b: KeyModel, c: KeyModel)
    requires
        key_kind(a) == key_kind(b),
        key_kind(b) == key_kind(c),
    ensures
        merge_key(merge_key(a, b), c) == merge_key(a, merge_key(b, c)),
{
    let l = merge_key(merge_key(a, b), c);
    let r = merge_key(a, merge_key(b, c));
    match (a, b, c) {
        (
            KeyModel::One { versions: va, .. },
            KeyModel::One { versions: vb, .. },
            KeyModel::One { versions: vc, .. },
        ) => {
            assert(l->versions =~= r->versions);
        },
        (
            KeyModel::Many { elems: ea, .. },
            KeyModel::Many { elems: eb, .. },
            KeyModel::Many { elems: ec, .. },
        ) => {
            assert(l->removes =~= r->removes);
            assert forall|o: ObjModel| l->elems.contains_key(o) implies #[trigger] l->elems[o]
                == r->elems[o] by {
                assert(l->elems[o] =~= r->elems[o]);
            }
            assert(l->elems =~= r->elems);
        },
        _ => {},
    }
}

/// Merging is associative.
pub proof fn law_merge_associative(a: FoldModel, b: FoldModel, c: FoldModel)
    requires
        kinds_agree(a, b),
        kinds_agree(b, c),
        kinds_agree(a, c),
    ensures
        merge_folds(merge_folds(a, b), c) == merge_folds(a, merge_folds(b, c)),
{
    let l = merge_folds(merge_folds(a, b), c);
    let r = merge_folds(a, merge_folds(b, c));
    assert forall|k: GraphKey| l.keys.contains_key(k) implies #[trigger] l.keys[k]
        == r.keys[k] by {
        assert(a.keys.contains_key(k) || b.keys.contains_key(k) || c.keys.contains_key(k));
        if a.keys.contains_key(k) && b.keys.contains_key(k) && c.keys.contains_key(k) {
            lemma_merge_key_assoc(a.keys[k], b.keys[k], c.keys[k]);
        }
    }
    assert(l.keys =~= r.keys);
    assert forall|k: GraphKey| l.edge_props.contains_key(k) implies #[trigger] l.edge_props[k]
        == r.edge_props[k] by {
        let x = l.edge_props[k];
        let y = r.edge_props[k];
        assert forall|o: ObjModel| x.contains_key(o) implies #[trigger] x[o] == y[o] by {
            assert(x[o] =~= y[o]);
        }
        assert(x =~= y);
    }
    assert(l.edge_props =~= r.edge_props);
    assert(l.node_attrs =~= r.node_attrs);
}

/// The cardinality that a log gives to a graph key.
spec fn log_kind(ws: Seq<Write>, k: GraphKey) -> Cardinality {
    let i = choose|i: int|
        0 <= i < ws.len() && write_kind((#[trigger] ws[i]).0) is Some && write_key(ws[i].0) == Some(
            k,
        );
    write_kind(ws[i].0)->0
}

/// A write keeps to a choice of cardinalities.
spec fn follows(w: WriteModel, kinds: spec_fn(GraphKey) -> Cardinality) -> bool {
    write_kind(w) is Some ==> write_kind(w)->0 == kinds(write_key(w)->0)
}

/// A state keeps to a choice of cardinalities.
spec fn state_follows(f: FoldModel, kinds: spec_fn(GraphKey) -> Cardinality) -> bool {
    forall|k: GraphKey| #[trigger] f.keys.contains_key(k) ==> key_kind(f.keys[k]) == kinds(k)
}

proof fn lemma_log_follows(ws: Seq<Write>, i: int)
    requires
        coherent_log(ws),
        0 <= i < ws.len(),
    ensures
        follows(ws[i].0, |k: GraphKey| log_kind(ws, k)),
{
    if write_kind(ws[i].0) is Some {
        let k = write_key(ws[i].0)->0;
        let j = choose|j: int|
            0 <= j < ws.len() && write_kind((#[trigger] ws[j]).0) is Some && write_key(ws[j].0)
                == Some(k);
        assert(coherent(ws[i], ws[j]));
    }
}

proof fn lemma_fold_follows(ws: Seq<Write>, kinds: spec_fn(GraphKey) -> Cardinality)
    requires
        forall|i: int| 0 <= i < ws.len() ==> follows((#[trigger] ws[i]).0, kinds),
    ensures
        state_follows(fold_writes(empty_fold(), ws), kinds),
    decreases ws.len(),
{
    if ws.len() > 0 {
        let init = ws.drop_last();
        assert forall|i: int| 0 <= i < init.len() implies follows((#[trigger] init[i]).0, kinds) by {
            assert(init[i] == ws[i]);
        }
        lemma_fold_follows(init, kinds);
        assert(follows(ws[ws.len() - 1].0, kinds));
    }
}

proof fn lemma_merge_apply_key(a: KeyModel, b: KeyModel, w: WriteModel, ok: OrderKey)
    requires
        key_kind(a) == key_kind(b),
    ensures
        merge_key(a, apply_key(b, w, ok)) == apply_key(merge_key(a, b), w, ok),
{
    let l = merge_key(a, apply_key(b, w, ok));
    let r = apply_key(merge_key(a, b), w, ok);
    match (a, b) {
        (KeyModel::One { .. }, KeyModel::One { .. }) => {
            assert(l->versions =~= r->versions);
        },
        (KeyModel::Many { elems: ea, .. }, KeyModel::Many { elems: eb, .. }) => {
            assert(l->removes =~= r->removes);
            assert forall|o: ObjModel| l->elems.contains_key(o) implies #[trigger] l->elems[o]
                == r->elems[o] by {
                assert(l->elems[o] =~= r->elems[o]);
            }
            assert(l->elems =~= r->elems);
        },
        _ => {},
    }
}

proof fn lemma_merge_empty_key(a: KeyModel)
    ensures
        merge_key(a, empty_key(key_kind(a))) == a,
{
    match a {
        KeyModel::One { versions, .. } => {
            assert(versions.union_prefer_right(Map::empty()) =~= versions);
        },
        KeyModel::Many { elems, removes, .. } => {
            assert(removes.union(Set::empty()) =~= removes);
            assert forall|o: ObjModel| elems.contains_key(o) implies #[trigger] merge_elems(
                elems,
                Map::empty(),
            )[o] == elems[o] by {
                assert(elems[o].union_prefer_right(Map::empty()) =~= elems[o]);
            }
            assert(merge_elems(elems, Map::empty()) =~= elems);
        },
    }
}

proof fn lemma_merge_apply_props(
    a: Props,
    b: Props,
    o: ObjModel,
    p: Seq<char>,
    v: ObjModel,
    ok: OrderKey,
)
    ensures
        merge_props(a, apply_prop(b, o, p, v, ok)) == apply_prop(merge_props(a, b), o, p, v, ok),
{
    let l = merge_props(a, apply_prop(b, o, p, v, ok));
    let r = apply_prop(merge_props(a, b), o, p, v, ok);
    assert forall|x: ObjModel| l.contains_key(x) implies #[trigger] l[x] == r[x] by {
        let u = at_or(a, o, Map::empty());
        let w = at_or(b, o, Map::empty());
        if x == o {
            if !a.contains_key(o) && !b.contains_key(o) {
                assert(merge_regs(u, w) =~= Map::empty());
            }
            assert(l[x] =~= r[x]);
        }
    }
    assert(l =~= r);
}

proof fn lemma_merge_empty_props(a: Props)
    ensures
        merge_props(a, Map::empty()) == a,
{
    assert forall|o: ObjModel| a.contains_key(o) implies #[trigger] merge_props(
        a,
        Map::empty(),
    )[o] == a[o] by {
        assert(merge_regs(a[o], Map::empty()) =~= a[o]);
    }
    assert(merge_props(a, Map::empty()) =~= a);
}

/// Merging with one more write folded in is folding that write into the merge.
proof fn lemma_merge_apply(
    a: FoldModel,
    b: FoldModel,
    w: WriteModel,
    ok: OrderKey,
    kinds: spec_fn(GraphKey) -> Cardinality,
)
    requires
        state_follows(a, kinds),
        state_follows(b, kinds),
        follows(w, kinds),
    ensures
        merge_folds(a, apply_write(b, w, ok)) == apply_write(merge_folds(a, b), w, ok),
{
    let l = merge_folds(a, apply_write(b, w, ok));
    let r = apply_write(merge_folds(a, b), w, ok);
    match w {
        WriteModel::SetEdgeProp { subject, predicate, object, key, value } => {
            let k = (subject, predicate);
            let x = at_or(a.edge_props, k, Map::empty());
            let y = at_or(b.edge_props, k, Map::empty());
            lemma_merge_apply_props(x, y, object, key, value, ok);
            if !a.edge_props.contains_key(k) && !b.edge_props.contains_key(k) {
                assert(merge_props(x, y) =~= Map::empty());
            }
            assert(l.edge_props =~= r.edge_props);
            assert(l.keys =~= r.keys);
            assert(l.node_attrs =~= r.node_attrs);
        },
        WriteModel::SetNodeType { node, type_id } => {
            assert(l.node_attrs =~= r.node_attrs);
        },
        WriteModel::SetNodeLabel { node, label } => {
            assert(l.node_attrs =~= r.node_attrs);
        },
        _ => {
            let k = write_key(w)->0;
            let e = empty_key(write_kind(w)->0);
            if a.keys.contains_key(k) {
                if b.keys.contains_key(k) {
                    lemma_merge_apply_key(a.keys[k], b.keys[k], w, ok);
                } else {
                    lemma_merge_apply_key(a.keys[k], e, w, ok);
                    lemma_merge_empty_key(a.keys[k]);
                }
            }
            assert(l.keys =~= r.keys);
        },
    }
}

proof fn lemma_merge_empty(a: FoldModel)
    ensures
        merge_folds(a, empty_fold()) == a,
{
    let m = merge_folds(a, empty_fold());
    assert(m.keys =~= a.keys);
    assert forall|k: GraphKey| a.edge_props.contains_key(k) implies #[trigger] m.edge_props[k]
        == a.edge_props[k] by {
        lemma_merge_empty_props(a.edge_props[k]);
    }
    assert(m.edge_props =~= a.edge_props);
    assert(m.node_attrs =~= a.node_attrs);
}

proof fn lemma_merge_is_fold(
    a: Seq<Write>,
    b: Seq<Write>,
    kinds: spec_fn(GraphKey) -> Cardinality,
)
    requires
        forall|i: int| 0 <= i < a.len() ==> follows((#[trigger] a[i]).0, kinds),
        forall|i: int| 0 <= i < b.len() ==> follows((#[trigger] b[i]).0, kinds),
    ensures
        merge_folds(fold_writes(empty_fold(), a), fold_writes(empty_fold(), b)) == fold_writes(
            empty_fold(),
            a + b,
        ),
    decreases b.len(),
{
    let fa = fold_writes(empty_fold(), a);
    if b.len() == 0 {
        lemma_merge_empty(fa);
        assert(a + b =~= a);
    } else {
        let init = b.drop_last();
        let w = b.last();
        assert forall|i: int| 0 <= i < init.len() implies follows((#[trigger] init[i]).0, kinds) by {
            assert(init[i] == b[i]);
        }
        lemma_merge_is_fold(a, init, kinds);
        lemma_fold_follows(a, kinds);
        lemma_fold_follows(init, kinds);
        assert(follows(b[b.len() - 1].0, kinds));
        lemma_merge_apply(fa, fold_writes(empty_fold(), init), w.0, w.1, kinds);
        assert((a + b).drop_last() =~= a + init);
        assert((a + b).last() == w);
    }
}

/// Sources do not matter: however a log is split between two sources, folding each and merging
/// gives the state of the whole log, and the two states can be merged.
pub proof fn law_sources_converge(ws: Seq<Write>, a: Seq<Write>, b: Seq<Write>)
    requires
        coherent_log(ws),
        ws.to_multiset() == (a + b).to_multiset(),
    ensures
        kinds_agree(fold_writes(empty_fold(), a), fold_writes(empty_fold(), b)),
        merge_folds(fold_writes(empty_fold(), a), fold_writes(empty_fold(), b)) == fold_writes(
            empty_fold(),
            ws,
        ),
{
    broadcast use vstd::seq_lib::group_to_multiset_ensures;

    law_order_independent(empty_fold(), ws, a + b);
    let kinds = |k: GraphKey| log_kind(ws, k);
    let ab = a + b;
    assert forall|i: int| 0 <= i < ab.len() implies follows((#[trigger] ab[i]).0, kinds) by {
        assert(ab.contains(ab[i]));
        assert(ab.to_multiset().count(ab[i]) > 0);
        assert(ws.contains(ab[i]));
        let j = choose|j: int| 0 <= j < ws.len() && ws[j] == ab[i];
        lemma_log_follows(ws, j);
    }
    assert forall|i: int| 0 <= i < a.len() implies follows((#[trigger] a[i]).0, kinds) by {
        assert(ab[i] == a[i]);
    }
    assert forall|i: int| 0 <= i < b.len() implies follows((#[trigger] b[i]).0, kinds) by {
        assert(ab[a.len() + i] == b[i]);
    }
    lemma_merge_is_fold(a, b, kinds);
    lemma_fold_follows(a, kinds);
    lemma_fold_follows(b, kinds);
}

/// States seen alike at every key and node are observed alike.
proof fn lemma_observed_alike(a: FoldModel, b: FoldModel)
    requires
        forall|k: GraphKey| #[trigger] seen_one(a, k) == seen_one(b, k),
        forall|k: GraphKey| #[trigger] seen_many(a, k) == seen_many(b, k),
        a.edge_props == b.edge_props,
        a.node_attrs == b.node_attrs,
    ensures
        observed(a) == observed(b),
{
    let x = observed(a);
    let y = observed(b);
    assert forall|k: GraphKey| #[trigger] obs_one(a, k) == obs_one(b, k) by {
        assert(seen_one(a, k) == seen_one(b, k));
    }
    assert forall|k: GraphKey| #[trigger] obs_one_history(a, k) == obs_one_history(b, k) by {
        assert(seen_one(a, k) == seen_one(b, k));
    }
    assert forall|k: GraphKey| #[trigger] obs_many(a, k) == obs_many(b, k) by {
        assert(seen_many(a, k) == seen_many(b, k));
    }
    assert forall|k: GraphKey| #[trigger] obs_many_history(a, k) == obs_many_history(b, k) by {
        assert(seen_many(a, k) == seen_many(b, k));
    }
    assert(x.one =~= y.one);
    assert(x.one_history =~= y.one_history);
    assert(x.many =~= y.many);
    assert(x.many_history =~= y.many_history);
    assert(x.edge_props =~= y.edge_props);
    assert(x.node_types =~= y.node_types);
    assert(x.node_labels =~= y.node_labels);
}

/// Collection is invisible: it preserves the observation.
pub proof fn law_gc_preserves_observation(f: FoldModel)
    ensures
        observed(gc_fold(f)) == observed(f),
{
    lemma_gc_merge(f, empty_fold());
    lemma_merge_empty(f);
    lemma_merge_empty(gc_fold(f));
}

/// The live rows of a merged element are those of the merge after collecting one side.
proof fn lemma_gc_merge_live(a: FoldModel, b: FoldModel, k: GraphKey, o: ObjModel)
    requires
        kinds_agree(a, b),
    ensures
        live_elem(merge_folds(gc_fold(a), b), k, o) == live_elem(merge_folds(a, b), k, o),
{
    let l = live_elem(merge_folds(gc_fold(a), b), k, o);
    let r = live_elem(merge_folds(a, b), k, o);
    if a.keys.contains_key(k) && a.keys[k] is Many {
        let ea = a.keys[k]->elems;
        let eg = gc_key(a.keys[k])->elems;
        let hd = a.keys[k]->Many_hd;
        if ea.contains_key(o) && !eg.contains_key(o) {
            assert(above_floor(ea[o], hd) == Map::<OrderKey, VersionModel>::empty());
            assert forall|ok: OrderKey| ea[o].contains_key(ok) implies !above(hd, ok) by {
                if above(hd, ok) {
                    assert(above_floor(ea[o], hd).contains_key(ok));
                }
            }
        }
        assert(l =~= r);
    } else {
        assert(l =~= r);
    }
}

proof fn lemma_gc_merge(a: FoldModel, b: FoldModel)
    requires
        kinds_agree(a, b),
    ensures
        observed(merge_folds(gc_fold(a), b)) == observed(merge_folds(a, b)),
{
    let l = merge_folds(gc_fold(a), b);
    let r = merge_folds(a, b);
    lemma_history_empty();
    assert forall|k: GraphKey| #[trigger] seen_one(l, k) == seen_one(r, k) by {
        if a.keys.contains_key(k) && a.keys[k] is One {
            let x = above_floor(l.keys[k]->versions, l.keys[k]->One_hd);
            let y = above_floor(r.keys[k]->versions, r.keys[k]->One_hd);
            assert(x =~= y);
        }
    }
    assert forall|k: GraphKey| #[trigger] seen_many(l, k) == seen_many(r, k) by {
        assert forall|o: ObjModel| #[trigger] live_elem(l, k, o) == live_elem(r, k, o) by {
            lemma_gc_merge_live(a, b, k, o);
        }
        assert(seen_many(l, k) =~= seen_many(r, k));
    }
    assert(l.edge_props =~= r.edge_props);
    assert(l.node_attrs =~= r.node_attrs);
    lemma_observed_alike(l, r);
}

/// A collected state stays convergent: merging it observes as merging the state it was before.
pub proof fn law_gc_stays_convergent(a: FoldModel, b: FoldModel)
    requires
        kinds_agree(a, b),
    ensures
        kinds_agree(gc_fold(a), b),
        observed(merge_folds(gc_fold(a), b)) == observed(merge_folds(a, b)),
{
    lemma_gc_merge(a, b);
}

proof fn lemma_gc_idempotent_key(s: KeyModel)
    ensures
        gc_key(gc_key(s)) == gc_key(s),
{
    match s {
        KeyModel::One { versions, hd } => {
            assert(above_floor(above_floor(versions, hd), hd) =~= above_floor(versions, hd));
        },
        KeyModel::Many { elems, removes, hd } => {
            let g = gc_key(s);
            assert forall|o: ObjModel| #[trigger]
                g->elems.contains_key(o) && hd is Some implies above_floor(g->elems[o], hd)
                == g->elems[o] by {
                assert(above_floor(g->elems[o], hd) =~= g->elems[o]);
            }
            assert(gc_key(g)->elems =~= g->elems);
            assert(gc_key(g)->removes =~= g->removes);
        },
    }
}

/// Collecting a collected state changes nothing.
pub proof fn law_gc_idempotent(f: FoldModel)
    ensures
        gc_fold(gc_fold(f)) == gc_fold(f),
{
    let g = gc_fold(f);
    assert forall|k: GraphKey| #[trigger] g.keys.contains_key(k) implies gc_key(g.keys[k])
        == g.keys[k] by {
        lemma_gc_idempotent_key(f.keys[k]);
    }
    assert(gc_fold(g).keys =~= g.keys);
}

/// Collecting before a write leaves what collecting after it leaves.
proof fn lemma_gc_apply_key(s: KeyModel, w: WriteModel, ok: OrderKey)
    ensures
        gc_key(apply_key(gc_key(s), w, ok)) == gc_key(apply_key(s, w, ok)),
{
    let l = gc_key(apply_key(gc_key(s), w, ok));
    let r = gc_key(apply_key(s, w, ok));
    match s {
        KeyModel::One { versions, hd } => {
            assert(l->versions =~= r->versions);
        },
        KeyModel::Many { elems, removes, hd } => {
            if hd is Some {
                let a = apply_key(gc_key(s), w, ok);
                let b = apply_key(s, w, ok);
                let h = b->Many_hd;
                assert(a->Many_hd == h);
                assert(l->removes =~= r->removes);
                assert forall|o: ObjModel|
                    #![trigger l->elems.dom().contains(o)]
                    #![trigger r->elems.dom().contains(o)]
                    l->elems.dom().contains(o) == r->elems.dom().contains(o) && (
                    l->elems.dom().contains(o) ==> l->elems[o] == r->elems[o]) by {
                    let e = Map::<OrderKey, VersionModel>::empty();
                    let x = at_or(a->elems, o, e);
                    let y = at_or(b->elems, o, e);
                    let ge = gc_key(s)->elems;
                    if elems.contains_key(o) && !ge.contains_key(o) {
                        assert(above_floor(elems[o], hd) == e);
                        assert forall|k: OrderKey| elems[o].contains_key(k) implies !above(
                            hd,
                            k,
                        ) by {
                            if above(hd, k) {
                                assert(above_floor(elems[o], hd).contains_key(k));
                            }
                        }
                    }
                    assert(above_floor(x, h) =~= above_floor(y, h));
                    assert(above_floor(e, h) =~= e);
                }
                assert(l->elems =~= r->elems);
            }
        },
    }
}

proof fn lemma_gc_apply(f: FoldModel, w: WriteModel, ok: OrderKey)
    ensures
        gc_fold(apply_write(gc_fold(f), w, ok)) == gc_fold(apply_write(f, w, ok)),
{
    let l = gc_fold(apply_write(gc_fold(f), w, ok));
    let r = gc_fold(apply_write(f, w, ok));
    assert forall|k: GraphKey| r.keys.contains_key(k) implies #[trigger] l.keys[k]
        == r.keys[k] by {
        if write_kind(w) is Some && write_key(w) == Some(k) {
            let e = empty_key(write_kind(w)->0);
            if f.keys.contains_key(k) {
                lemma_gc_apply_key(f.keys[k], w, ok);
            }
        } else {
            lemma_gc_idempotent_key(f.keys[k]);
        }
    }
    assert(l.keys =~= r.keys);
}

proof fn lemma_gc_writes(f: FoldModel, ws: Seq<Write>)
    ensures
        gc_fold(fold_writes(gc_fold(f), ws)) == gc_fold(fold_writes(f, ws)),
    decreases ws.len(),
{
    if ws.len() == 0 {
        assert forall|k: GraphKey| f.keys.contains_key(k) implies #[trigger] gc_fold(
            gc_fold(f),
        ).keys[k] == gc_fold(f).keys[k] by {
            lemma_gc_idempotent_key(f.keys[k]);
        }
        assert(gc_fold(gc_fold(f)).keys =~= gc_fold(f).keys);
    } else {
        let init = ws.drop_last();
        let z = ws.last();
        lemma_gc_writes(f, init);
        let a = fold_writes(gc_fold(f), init);
        let b = fold_writes(f, init);
        lemma_gc_apply(a, z.0, z.1);
        lemma_gc_apply(b, z.0, z.1);
    }
}

/// Collection stays invisible whatever is written afterwards.
pub proof fn law_gc_then_writes(f: FoldModel, ws: Seq<Write>)
    ensures
        observed(fold_writes(gc_fold(f), ws)) == observed(fold_writes(f, ws)),
{
    lemma_gc_writes(f, ws);
    law_gc_preserves_observation(fold_writes(gc_fold(f), ws));
    law_gc_preserves_observation(fold_writes(f, ws));
}

/// A coherent log can be folded: every write fits the state that it meets.
pub proof fn law_coherent_fits(ws: Seq<Write>)
    requires
        coherent_log(ws),
    ensures
        all_fit(empty_fold(), ws),
{
    let kinds = |k: GraphKey| log_kind(ws, k);
    assert forall|i: int| 0 <= i < ws.len() implies follows((#[trigger] ws[i]).0, kinds) by {
        lemma_log_follows(ws, i);
    }
    lemma_followers_fit(ws, kinds);
}

proof fn lemma_followers_fit(ws: Seq<Write>, kinds: spec_fn(GraphKey) -> Cardinality)
    requires
        forall|i: int| 0 <= i < ws.len() ==> follows((#[trigger] ws[i]).0, kinds),
    ensures
        all_fit(empty_fold(), ws),
    decreases ws.len(),
{
    if ws.len() > 0 {
        let init = ws.drop_last();
        assert forall|i: int| 0 <= i < init.len() implies follows((#[trigger] init[i]).0, kinds) by {
            assert(init[i] == ws[i]);
        }
        lemma_followers_fit(init, kinds);
        lemma_fold_follows(init, kinds);
        let w = ws.last().0;
        assert(follows(ws[ws.len() - 1].0, kinds));
        if write_kind(w) is Some && fold_writes(empty_fold(), init).keys.contains_key(
            write_key(w)->0,
        ) {
            assert(key_kind(fold_writes(empty_fold(), init).keys[write_key(w)->0]) == kinds(
                write_key(w)->0,
            ));
        }
    }
}

/// Whether every register and every element has finitely many rows.
pub open spec fn rows_finite(f: FoldModel) -> bool {
    forall|k: GraphKey| #[trigger] f.keys.contains_key(k) ==> key_finite(f.keys[k])
}

/// Whether the rows of a graph key are finitely many.
pub open spec fn key_finite(s: KeyModel) -> bool {
    match s {
        KeyModel::One { versions, .. } => versions.dom().finite(),
        KeyModel::Many { elems, .. } => forall|o: ObjModel| #[trigger]
            elems.contains_key(o) ==> elems[o].dom().finite(),
    }
}

/// Whether a state is one that writes, merges and collections make.
pub open spec fn built(f: FoldModel) -> bool {
    rows_finite(f) && rows_owned(f)
}

proof fn lemma_write_finite(f: FoldModel, w: WriteModel, ok: OrderKey)
    requires
        rows_finite(f),
    ensures
        rows_finite(apply_write(f, w, ok)),
{
    let g = apply_write(f, w, ok);
    assert forall|k: GraphKey| #[trigger] g.keys.contains_key(k) implies key_finite(g.keys[k]) by {
        if write_key(w) == Some(k) && write_kind(w) is Some {
            let s = at_or(f.keys, k, empty_key(write_kind(w)->0));
            assert(key_finite(s));
            match (s, w) {
                (
                    KeyModel::One { versions, .. },
                    WriteModel::SetOne { object, valid_from, valid_to, .. },
                ) => {
                    let v = VersionModel { object: Some(object), valid_from, valid_to };
                    assert(versions.insert(ok, v).dom() =~= versions.dom().insert(ok));
                },
                (KeyModel::One { versions, .. }, WriteModel::CloseOne { valid_from, .. }) => {
                    let v = VersionModel { object: None, valid_from, valid_to: None };
                    assert(versions.insert(ok, v).dom() =~= versions.dom().insert(ok));
                },
                (
                    KeyModel::Many { elems, .. },
                    WriteModel::AddMany { object, valid_from, valid_to, .. },
                ) => {
                    let v = VersionModel { object: Some(object), valid_from, valid_to };
                    lemma_add_row_finite(elems, object, ok, v);
                },
                (
                    KeyModel::Many { elems, .. },
                    WriteModel::CloseMany { object, valid_from, .. },
                ) => {
                    let v = VersionModel { object: None, valid_from, valid_to: None };
                    lemma_add_row_finite(elems, object, ok, v);
                },
                _ => {},
            }
        } else {
            assert(f.keys.contains_key(k));
        }
    }
}

proof fn lemma_add_row_finite(
    elems: Map<ObjModel, Rows>,
    object: ObjModel,
    ok: OrderKey,
    v: VersionModel,
)
    requires
        forall|o: ObjModel| #[trigger] elems.contains_key(o) ==> elems[o].dom().finite(),
    ensures
        forall|o: ObjModel| #[trigger]
            add_row(elems, object, ok, v).contains_key(o) ==> add_row(
                elems,
                object,
                ok,
                v,
            )[o].dom().finite(),
{
    let rows = at_or(elems, object, Map::empty());
    assert(rows.insert(ok, v).dom() =~= rows.dom().insert(ok));
}

/// The state before any write is built, and so is every state after writes, a merge or a collection.
pub proof fn law_states_are_built(f: FoldModel, g: FoldModel, ws: Seq<Write>)
    requires
        built(f),
        built(g),
    ensures
        built(empty_fold()),
        built(fold_writes(f, ws)),
        built(merge_folds(f, g)),
        built(gc_fold(f)),
    decreases ws.len(),
{
    law_rows_stay_owned(f, ws);
    law_merged_rows_stay_owned(f, g);
    if ws.len() > 0 {
        law_states_are_built(f, g, ws.drop_last());
        lemma_write_finite(fold_writes(f, ws.drop_last()), ws.last().0, ws.last().1);
    }
    let m = merge_folds(f, g);
    assert forall|k: GraphKey| #[trigger] m.keys.contains_key(k) implies key_finite(m.keys[k]) by {
        if f.keys.contains_key(k) && g.keys.contains_key(k) {
            assert(key_finite(f.keys[k]) && key_finite(g.keys[k]));
            match (f.keys[k], g.keys[k]) {
                (KeyModel::One { versions: a, .. }, KeyModel::One { versions: b, .. }) => {
                    let r = m.keys[k]->One_versions;
                    assert(r.dom() =~= a.dom().union(b.dom()));
                },
                (KeyModel::Many { elems: a, .. }, KeyModel::Many { elems: b, .. }) => {
                    let r = m.keys[k]->elems;
                    assert forall|o: ObjModel| #[trigger] r.contains_key(o) implies r[o].dom().finite() by {
                        let x = at_or(a, o, Map::empty());
                        let y = at_or(b, o, Map::empty());
                        assert(r[o].dom() =~= x.dom().union(y.dom()));
                    }
                },
                _ => {},
            }
        } else if f.keys.contains_key(k) {
            assert(key_finite(f.keys[k]));
        } else {
            assert(key_finite(g.keys[k]));
        }
    }
    let c = gc_fold(f);
    assert forall|k: GraphKey| #[trigger] c.keys.contains_key(k) implies key_finite(c.keys[k]) by {
        assert(key_finite(f.keys[k]));
        match f.keys[k] {
            KeyModel::One { versions, hd } => {
                lemma_floor_finite(versions, hd);
            },
            KeyModel::Many { elems, hd, .. } => {
                assert forall|o: ObjModel| #[trigger] elems.contains_key(o) implies above_floor(
                    elems[o],
                    hd,
                ).dom().finite() by {
                    lemma_floor_finite(elems[o], hd);
                }
            },
        }
    }
}

proof fn lemma_floor_finite(rows: Rows, hd: Option<OrderKey>)
    requires
        rows.dom().finite(),
    ensures
        above_floor(rows, hd).dom().finite(),
{
    assert(above_floor(rows, hd).dom().subset_of(rows.dom()));
    vstd::set_lib::lemma_len_subset(above_floor(rows, hd).dom(), rows.dom());
}

/// Whether history rows ascend by order key.
pub open spec fn rows_ascend(h: Seq<RowModel>) -> bool {
    forall|i: int, j: int|
        0 <= i < j < h.len() ==> older((#[trigger] h[i]).0, (#[trigger] h[j]).0)
}

/// Whether every row is a close or carries the element `o`.
pub open spec fn rows_of(h: Seq<RowModel>, o: ObjModel) -> bool {
    forall|i: int| 0 <= i < h.len() ==> ((#[trigger] h[i]).1 is None || h[i].1 == Some(o))
}

proof fn lemma_history(rows: Rows)
    requires
        rows.dom().finite(),
    ensures
        rows_ascend(history(rows)),
        forall|i: int|
            0 <= i < history(rows).len() ==> rows.contains_key((#[trigger] history(rows)[i]).0)
                && rows[history(rows)[i].0].object == history(rows)[i].1,
{
    lemma_finite_rows::<OrderKey, VersionModel>(rows);
    let s = sorted_rows::<OrderKey, VersionModel>(rows);
    assert forall|i: int| 0 <= i < history(rows).len() implies rows.contains_key(
        (#[trigger] history(rows)[i]).0,
    ) && rows[history(rows)[i].0].object == history(rows)[i].1 by {
        lemma_row::<OrderKey, VersionModel>(s, i);
    }
    assert forall|i: int, j: int| 0 <= i < j < history(rows).len() implies older(
        (#[trigger] history(rows)[i]).0,
        (#[trigger] history(rows)[j]).0,
    ) by {
        assert(<OrderKey as Key>::before(s[i].0, s[j].0));
    }
}

/// The live rows of an element ascend and are its own.
pub proof fn lemma_live_history(f: FoldModel, k: GraphKey, o: ObjModel)
    requires
        built(f),
    ensures
        rows_ascend(history(live_elem(f, k, o))),
        rows_of(history(live_elem(f, k, o)), o),
{
    let rows = live_elem(f, k, o);
    if f.keys.contains_key(k) && f.keys[k] is Many && f.keys[k]->elems.contains_key(o) {
        let all = f.keys[k]->elems[o];
        assert(key_finite(f.keys[k]));
        assert(own_rows(f.keys[k]->elems));
        assert(rows.dom().subset_of(all.dom()));
        vstd::set_lib::lemma_len_subset(rows.dom(), all.dom());
        lemma_history(rows);
        let h = history(rows);
        assert forall|i: int| 0 <= i < h.len() implies ((#[trigger] h[i]).1 is None || h[i].1
            == Some(o)) by {
            assert(rows.contains_key(h[i].0));
            assert(f.keys[k]->elems[o][h[i].0].object == h[i].1);
        }
    } else {
        lemma_history_empty();
    }
}

/// What holds of every observation. Registers and their histories have the same keys, and the value
/// is that of the last row. No list, set or map in it is empty. Histories ascend by order key. An
/// element is present where its last row adds it, and its rows are closes or carry it.
pub proof fn law_observation(f: FoldModel, k: GraphKey, o: ObjModel)
    requires
        built(f),
    ensures
        ({
            let s = observed(f);
            &&& s.one.contains_key(k) == s.one_history.contains_key(k)
            &&& s.one_history.contains_key(k) ==> {
                &&& s.one_history[k].len() > 0
                &&& rows_ascend(s.one_history[k])
                &&& s.one[k] == s.one_history[k].last().1
            }
            &&& s.many.contains_key(k) ==> s.many[k] != Set::<ObjModel>::empty()
            &&& s.many_history.contains_key(k) ==> s.many_history[k] != Map::<
                ObjModel,
                Seq<RowModel>,
            >::empty()
            &&& s.many_history.contains_key(k) && s.many_history[k].contains_key(o) ==> {
                &&& s.many_history[k][o].len() > 0
                &&& rows_ascend(s.many_history[k][o])
                &&& rows_of(s.many_history[k][o], o)
            }
            &&& (s.many.contains_key(k) && s.many[k].contains(o)) <==> (s.many_history.contains_key(
                k,
            ) && s.many_history[k].contains_key(o) && s.many_history[k][o].last().1 == Some(o))
        }),
{
    let s = observed(f);
    if f.keys.contains_key(k) && f.keys[k] is One {
        assert(key_finite(f.keys[k]));
        let rows = above_floor(f.keys[k]->One_versions, f.keys[k]->One_hd);
        lemma_floor_finite(f.keys[k]->One_versions, f.keys[k]->One_hd);
        lemma_history(rows);
    }
    lemma_live_history(f, k, o);
    let h = seen_many(f, k);
    assert(present(h).contains(o) == (h.contains_key(o) && h[o].last().1 is Some));
    if h.contains_key(o) {
        let last = history(live_elem(f, k, o)).len() - 1;
        assert(history(live_elem(f, k, o))[last] == h[o].last());
        assert(h != Map::<ObjModel, Seq<RowModel>>::empty());
    }
    if present(h).contains(o) {
        assert(present(h) != Set::<ObjModel>::empty());
    }
}

/// Collection drops what a floor dominates and nothing else: no row and no tombstone at or below a
/// floor is left, every row above it stays as it is, and an element stays only where it has rows.
pub proof fn law_gc_drops_what_is_below(f: FoldModel, k: GraphKey, o: ObjModel, ok: OrderKey)
    requires
        f.keys.contains_key(k),
    ensures
        gc_fold(f).keys.contains_key(k),
        f.keys[k] matches KeyModel::One { versions, hd } ==> {
            &&& gc_fold(f).keys[k] matches KeyModel::One { versions: kept, hd: floor }
            &&& floor == hd
            &&& kept.contains_key(ok) <==> versions.contains_key(ok) && (hd is None || older(
                hd->0,
                ok,
            ))
            &&& kept.contains_key(ok) ==> kept[ok] == versions[ok]
        },
        f.keys[k] matches KeyModel::Many { elems, removes, hd } ==> {
            &&& gc_fold(f).keys[k] matches KeyModel::Many {
                elems: kept,
                removes: tombs,
                hd: floor,
            }
            &&& floor == hd
            &&& tombs.contains(ok) <==> removes.contains(ok) && (hd is None || older(hd->0, ok))
            &&& kept.contains_key(o) ==> elems.contains_key(o)
            &&& kept.contains_key(o) && hd is Some ==> kept[o] != Map::<
                OrderKey,
                VersionModel,
            >::empty()
            &&& (kept.contains_key(o) && kept[o].contains_key(ok)) <==> (elems.contains_key(o)
                && elems[o].contains_key(ok) && (hd is None || older(hd->0, ok)))
            &&& kept.contains_key(o) && kept[o].contains_key(ok) ==> kept[o][ok] == elems[o][ok]
        },
{
    match f.keys[k] {
        KeyModel::Many { elems, removes, hd } => {
            if elems.contains_key(o) && hd is Some {
                let rows = above_floor(elems[o], hd);
                assert(rows.contains_key(ok) ==> rows != Map::<OrderKey, VersionModel>::empty());
            }
        },
        _ => {},
    }
}

/// A key keeps the cardinality of its first write: a write of a value fits exactly a key that is new
/// or of its cardinality, a hard delete and a setting fit always, and what fits changes the
/// cardinality of no key that there is.
pub proof fn law_cardinality_is_kept(f: FoldModel, w: WriteModel, ok: OrderKey, k: GraphKey)
    ensures
        (w is SetOne || w is CloseOne) && write_key(w) == Some(k) ==> (fits(f, w)
            <==> !f.keys.contains_key(k) || f.keys[k] is One),
        (w is AddMany || w is CloseMany || w is RemoveMany) && write_key(w) == Some(k) ==> (fits(f, w)
            <==> !f.keys.contains_key(k) || f.keys[k] is Many),
        w is HardDelete || w is SetEdgeProp || w is SetNodeType || w is SetNodeLabel ==> fits(f, w),
        fits(f, w) && f.keys.contains_key(k) ==> apply_write(f, w, ok).keys.contains_key(k) && (
        apply_write(f, w, ok).keys[k] is One <==> f.keys[k] is One),
        (w is SetOne || w is CloseOne) && fits(f, w) && write_key(w) == Some(k) ==> apply_write(
            f,
            w,
            ok,
        ).keys[k] is One,
        (w is AddMany || w is CloseMany || w is RemoveMany) && fits(f, w) && write_key(w) == Some(k)
            ==> apply_write(f, w, ok).keys[k] is Many,
{
}

/// An asserted fact is kept as it was said: under its subject and predicate and at its order key there
/// is its object with its validity, in the register of a predicate of one value, and under the object
/// among the elements of a predicate of many. Nothing else changes.
pub proof fn law_assertion_is_kept(
    c: CatalogModel,
    fact: Fact,
    f: FoldModel,
    ok: OrderKey,
    k: GraphKey,
)
    requires
        c.predicates.contains_key(fact.predicate),
        fits(f, assertion_of(c, fact)),
    ensures
        ({
            let g = apply_write(f, assertion_of(c, fact), ok);
            let at = (fact.subject, fact.predicate);
            let o = object_model(fact.object);
            let row = VersionModel {
                object: Some(o),
                valid_from: fact.valid_time.from,
                valid_to: fact.valid_time.to,
            };
            &&& g.keys.contains_key(at)
            &&& c.predicates[fact.predicate].cardinality is One ==> g.keys[at] is One
                && g.keys[at]->versions.contains_key(ok) && g.keys[at]->versions[ok] == row
            &&& c.predicates[fact.predicate].cardinality is Many ==> g.keys[at] is Many
                && g.keys[at]->elems.contains_key(o) && g.keys[at]->elems[o].contains_key(ok)
                && g.keys[at]->elems[o][ok] == row
            &&& k != at ==> g.keys.contains_key(k) == f.keys.contains_key(k) && (
            g.keys.contains_key(k) ==> g.keys[k] == f.keys[k])
            &&& g.edge_props == f.edge_props && g.node_attrs == f.node_attrs
        }),
{
}

} // verus!
