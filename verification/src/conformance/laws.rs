//! What a rule's verdicts mean, said of the values that a snapshot holds under the rule's names.
use super::{
    evaluated, held_by, hop_names, judged, path_names, read, rule_names, walk, HopModel, Outcome, RuleModel,
};
use crate::access::{labels_fit, law_typed_nodes, typed_visible};
use crate::catalog::lookup;
use crate::completeness::unknown_names;
use crate::fact::{FieldId, NodeId};
use crate::fold::model::{at_or, GraphKey, SnapshotModel};
use crate::objkey::ObjModel;
use crate::ordmap::{lemma_sorted_items, sorted_items};
use crate::query::one_at;
use vstd::prelude::*;

verus! {

/// Whether an id is that of a name.
pub open spec fn is_named(names: Seq<Seq<char>>, p: FieldId, name: Seq<char>) -> bool {
    p < names.len() && names[p as int] == name
}

/// Whether names are kept apart: none is there twice, and each has an id.
pub open spec fn told_apart(names: Seq<Seq<char>>) -> bool {
    names.no_duplicates() && names.len() <= 0x1_0000_0000
}

/// Whether a node's current value of a named predicate is `o`.
pub open spec fn has_current(
    s: SnapshotModel,
    names: Seq<Seq<char>>,
    n: NodeId,
    name: Seq<char>,
    o: ObjModel,
) -> bool {
    exists|p: FieldId|
        is_named(names, p, name) && #[trigger] s.one.contains_key((n, p)) && s.one[(n, p)] == Some(o)
}

/// A name leads to its one id, and a name that is not there to none.
pub proof fn law_names_resolve(names: Seq<Seq<char>>, name: Seq<char>, p: FieldId)
    requires
        told_apart(names),
    ensures
        is_named(names, p, name) <==> lookup(names, name) == Some(p),
        lookup(names, name) is None <==> forall|i: int|
            0 <= i < names.len() ==> #[trigger] names[i] != name,
{
    if names.contains(name) {
        let i = names.index_of(name);
        assert(0 <= i < names.len() && names[i] == name);
        assert((i as u32) as int == i);
        if is_named(names, p, name) {
            assert(names[p as int] == names[i]);
        }
    } else if is_named(names, p, name) {
        assert(names.contains(names[p as int]));
    }
}

/// A named value is the one that the node's register of that name holds at present.
pub proof fn law_named_value(
    s: SnapshotModel,
    names: Seq<Seq<char>>,
    n: NodeId,
    name: Seq<char>,
    o: ObjModel,
)
    requires
        told_apart(names),
    ensures
        read(s, names, n, name) == Some(o) <==> has_current(s, names, n, name, o),
{
    if read(s, names, n, name) == Some(o) {
        let p = lookup(names, name)->0;
        law_names_resolve(names, name, p);
        assert(s.one.contains_key((n, p)));
    }
    if has_current(s, names, n, name, o) {
        let p = choose|p: FieldId|
            is_named(names, p, name) && #[trigger] s.one.contains_key((n, p)) && s.one[(n, p)]
                == Some(o);
        law_names_resolve(names, name, p);
    }
}

/// Whether a rule applies to a subject: it has no scope condition, or the subject's current value
/// meets it.
pub open spec fn applies(s: SnapshotModel, names: Seq<Seq<char>>, r: RuleModel, n: NodeId) -> bool {
    r.scope is Some ==> has_current(s, names, n, (r.scope->0).predicate, (r.scope->0).equals)
}

/// Whether a rule declares an absence condition that the subject's current value meets.
pub open spec fn expected_by_now(
    s: SnapshotModel,
    names: Seq<Seq<char>>,
    r: RuleModel,
    n: NodeId,
) -> bool {
    r.absent_when is Some && has_current(
        s,
        names,
        n,
        (r.absent_when->0).predicate,
        (r.absent_when->0).equals,
    )
}

/// Whether a subject has a current value of the rule's actual predicate.
pub open spec fn has_actual(s: SnapshotModel, names: Seq<Seq<char>>, r: RuleModel, n: NodeId) -> bool {
    exists|o: ObjModel| #[trigger] has_current(s, names, n, r.actual, o)
}

/// The outcomes, one by one. Not applicable: the rule has a scope condition that the subject does not
/// meet. Absent: the rule applies, there is no actual value, and an absence condition is declared and
/// met. Okay: it applies and there is no actual value without such a condition being met, or the
/// actual value is the required one. Mismatch: it applies and there is an actual value that is not
/// the required one. Only a mismatch has a kind.
pub proof fn law_outcomes(s: SnapshotModel, names: Seq<Seq<char>>, r: RuleModel, n: NodeId)
    requires
        told_apart(names),
    ensures
        ({
            let v = judged(s, names, r, n);
            &&& v.subject == n
            &&& v.verdict == Outcome::NotApplicable <==> !applies(s, names, r, n)
            &&& v.verdict == Outcome::Absent <==> applies(s, names, r, n) && !has_actual(
                s,
                names,
                r,
                n,
            ) && expected_by_now(s, names, r, n)
            &&& v.verdict == Outcome::Mismatch <==> applies(s, names, r, n) && has_actual(
                s,
                names,
                r,
                n,
            ) && v.required != v.actual
            &&& v.verdict == Outcome::Okay <==> applies(s, names, r, n) && (if has_actual(
                s,
                names,
                r,
                n,
            ) {
                v.required == v.actual
            } else {
                !expected_by_now(s, names, r, n)
            })
            &&& forall|o: ObjModel|
                v.actual == Some(o) <==> applies(s, names, r, n) && #[trigger] has_current(
                    s,
                    names,
                    n,
                    r.actual,
                    o,
                )
            &&& v.mismatch_kind is Some <==> v.verdict == Outcome::Mismatch
            &&& !applies(s, names, r, n) ==> v.required is None && v.as_of is None
        }),
{
    let v = judged(s, names, r, n);
    if let Some(c) = r.scope {
        law_named_value(s, names, n, c.predicate, c.equals);
    }
    if let Some(c) = r.absent_when {
        law_named_value(s, names, n, c.predicate, c.equals);
    }
    let a = read(s, names, n, r.actual);
    assert forall|o: ObjModel| a == Some(o) <==> #[trigger] has_current(
        s,
        names,
        n,
        r.actual,
        o,
    ) by {
        law_named_value(s, names, n, r.actual, o);
    }
    if a is Some {
        assert(has_current(s, names, n, r.actual, a->0));
    }
}

/// The required value is the node at the end of the path. The path starts at the subject. A hop
/// without an anchor goes on to the current value of its predicate; a hop with one to the value at the
/// instant that the subject itself, not the node on the way, holds under the anchor. Where a hop leads
/// to no node the path ends, and requires nothing.
pub proof fn law_path_is_followed(
    s: SnapshotModel,
    names: Seq<Seq<char>>,
    s0: NodeId,
    hops: Seq<HopModel>,
    h: HopModel,
    m: NodeId,
)
    requires
        told_apart(names),
    ensures
        walk(s, names, s0, Seq::empty()).cur == Some(s0),
        ({
            let before = walk(s, names, s0, hops).cur;
            let after = walk(s, names, s0, hops.push(h)).cur;
            &&& before is None ==> after is None
            &&& before is Some && h.as_of is None ==> (after == Some(m) <==> has_current(
                s,
                names,
                before->0,
                h.predicate,
                ObjModel::Node(m),
            ))
            &&& before is Some && h.as_of is Some ==> (after == Some(m) <==> exists|
                p: FieldId,
                t: i64,
            |
                is_named(names, p, h.predicate) && has_current(
                    s,
                    names,
                    s0,
                    h.as_of->0,
                    ObjModel::Int(t),
                ) && #[trigger] one_at(s, (before->0, p), t) == Some(ObjModel::Node(m)))
        }),
{
    let w = walk(s, names, s0, hops);
    assert(hops.push(h).drop_last() =~= hops);
    let after = walk(s, names, s0, hops.push(h)).cur;
    if let Some(node) = w.cur {
        law_named_value(s, names, node, h.predicate, ObjModel::Node(m));
        if let Some(anchor) = h.as_of {
            let a = read(s, names, s0, anchor);
            if after == Some(m) {
                let p = lookup(names, h.predicate)->0;
                law_names_resolve(names, h.predicate, p);
                let t = match a {
                    Some(ObjModel::Int(t)) => t,
                    _ => 0i64,
                };
                law_named_value(s, names, s0, anchor, ObjModel::Int(t));
                assert(one_at(s, (node, p), t) == Some(ObjModel::Node(m)));
            }
            if exists|p: FieldId, t: i64|
                is_named(names, p, h.predicate) && has_current(
                    s,
                    names,
                    s0,
                    anchor,
                    ObjModel::Int(t),
                ) && #[trigger] one_at(s, (node, p), t) == Some(ObjModel::Node(m)) {
                let (p, t) = choose|p: FieldId, t: i64|
                    is_named(names, p, h.predicate) && has_current(
                        s,
                        names,
                        s0,
                        anchor,
                        ObjModel::Int(t),
                    ) && #[trigger] one_at(s, (node, p), t) == Some(ObjModel::Node(m));
                law_names_resolve(names, h.predicate, p);
                law_named_value(s, names, s0, anchor, ObjModel::Int(t));
            }
        }
    }
}

/// What a verdict reports: the node at the end of the path as the required value, and the instant of
/// the last anchored hop that was taken, which is what the subject holds under that anchor.
pub proof fn law_verdict_reports(
    s: SnapshotModel,
    names: Seq<Seq<char>>,
    r: RuleModel,
    n: NodeId,
    m: NodeId,
    hops: Seq<HopModel>,
    h: HopModel,
    t: i64,
)
    requires
        told_apart(names),
    ensures
        applies(s, names, r, n) ==> (judged(s, names, r, n).required == Some(ObjModel::Node(m)) <==>
            walk(s, names, n, r.required).cur == Some(m)),
        applies(s, names, r, n) && r.required == hops.push(h) && h.as_of is Some && walk(
            s,
            names,
            n,
            hops,
        ).cur is Some && lookup(names, h.predicate) is Some ==> (judged(s, names, r, n).as_of
            == Some(t) <==> has_current(s, names, n, h.as_of->0, ObjModel::Int(t))),
        applies(s, names, r, n) && (forall|i: int|
            0 <= i < r.required.len() ==> (#[trigger] r.required[i]).as_of is None) ==> judged(
            s,
            names,
            r,
            n,
        ).as_of is None,
{
    if let Some(c) = r.scope {
        law_named_value(s, names, n, c.predicate, c.equals);
    }
    assert(hops.push(h).drop_last() =~= hops);
    if let Some(anchor) = h.as_of {
        law_named_value(s, names, n, anchor, ObjModel::Int(t));
    }
    if forall|i: int| 0 <= i < r.required.len() ==> (#[trigger] r.required[i]).as_of is None {
        lemma_timeless(s, names, n, r.required);
    }
}

proof fn lemma_timeless(s: SnapshotModel, names: Seq<Seq<char>>, s0: NodeId, hops: Seq<HopModel>)
    requires
        forall|i: int| 0 <= i < hops.len() ==> (#[trigger] hops[i]).as_of is None,
    ensures
        walk(s, names, s0, hops).as_of is None,
    decreases hops.len(),
{
    if hops.len() > 0 {
        let init = hops.drop_last();
        assert forall|i: int| 0 <= i < init.len() implies (#[trigger] init[i]).as_of is None by {
            assert(hops[i].as_of is None);
        }
        lemma_timeless(s, names, s0, init);
        assert(hops[hops.len() - 1].as_of is None);
    }
}

/// An evaluation judges every node of the rule's type that the labels let see, once and ascending, and
/// no other; under a type without a name, nothing.
pub proof fn law_all_subjects_judged(
    s: SnapshotModel,
    names: Seq<Seq<char>>,
    r: RuleModel,
    ty: FieldId,
    mask: u32,
    n: NodeId,
)
    requires
        told_apart(names),
        labels_fit(s),
        s.node_types.dom().finite(),
    ensures
        ({
            let vs = evaluated(s, names, r, mask);
            &&& forall|i: int|
                0 <= i < vs.len() ==> #[trigger] vs[i] == judged(s, names, r, vs[i].subject)
            &&& forall|i: int, j: int|
                0 <= i < j < vs.len() ==> (#[trigger] vs[i]).subject < (#[trigger] vs[j]).subject
            &&& is_named(names, ty, r.subject_type) ==> ((exists|i: int|
                0 <= i < vs.len() && (#[trigger] vs[i]).subject == n) <==> (
            s.node_types.contains_key(n) && s.node_types[n] == ty && (s.node_labels.contains_key(n)
                ==> mask & (1u32 << (s.node_labels[n] as u32)) != 0)))
            &&& (forall|i: int| 0 <= i < names.len() ==> #[trigger] names[i] != r.subject_type)
                ==> vs.len() == 0
        }),
{
    let vs = evaluated(s, names, r, mask);
    law_names_resolve(names, r.subject_type, ty);
    if let Some(id) = lookup(names, r.subject_type) {
        let set = typed_visible(s, id, mask);
        assert(set.subset_of(s.node_types.dom()));
        vstd::set_lib::lemma_set_subset_finite(s.node_types.dom(), set);
        lemma_sorted_items::<NodeId>(set);
        let items = sorted_items::<NodeId>(set);
        law_typed_nodes(s, id, id, n, mask);
        assert forall|i: int| 0 <= i < vs.len() implies (#[trigger] vs[i]).subject == items[i]
            && vs[i] == judged(s, names, r, items[i]) by {}
        if exists|i: int| 0 <= i < vs.len() && (#[trigger] vs[i]).subject == n {
            let i = choose|i: int| 0 <= i < vs.len() && (#[trigger] vs[i]).subject == n;
            assert(items.to_set().contains(items[i]));
        }
        if set.contains(n) {
            assert(items.to_set().contains(n));
            let i = choose|i: int| 0 <= i < items.len() && items[i] == n;
            assert(vs[i].subject == n);
        }
    }
}

/// The names that are not resolved are those of a list that the catalog does not have, in their order
/// and as often as they stand there.
pub proof fn law_unknown_names(
    names: Seq<Seq<char>>,
    a: Seq<Seq<char>>,
    x: Seq<char>,
    b: Seq<Seq<char>>,
)
    ensures
        unknown_names(names, Seq::empty()) == Seq::<Seq<char>>::empty(),
        names.contains(x) ==> unknown_names(names, seq![x]) == Seq::<Seq<char>>::empty(),
        !names.contains(x) ==> unknown_names(names, seq![x]) == seq![x],
        unknown_names(names, a + b) == unknown_names(names, a) + unknown_names(names, b),
    decreases b.len(),
{
    assert(seq![x].drop_last() =~= Seq::empty());
    assert(unknown_names(names, Seq::empty()) =~= Seq::<Seq<char>>::empty());
    if !names.contains(x) {
        assert(unknown_names(names, seq![x]) =~= seq![x]);
    }
    if b.len() == 0 {
        assert(a + b =~= a);
        assert(unknown_names(names, a) + unknown_names(names, b) =~= unknown_names(names, a));
    } else {
        law_unknown_names(names, a, x, b.drop_last());
        assert((a + b).drop_last() =~= a + b.drop_last());
        assert((a + b).last() == b.last());
        assert(unknown_names(names, a + b) =~= unknown_names(names, a) + unknown_names(names, b));
    }
}

/// The names of a rule are all that it mentions: its type, its actual predicate, those of its
/// conditions, and every predicate and anchor of its path; and no others.
pub proof fn law_rule_names_are_all(r: RuleModel, x: Seq<char>)
    ensures
        rule_names(r).contains(x) <==> {
            ||| x == r.subject_type
            ||| x == r.actual
            ||| r.scope is Some && x == (r.scope->0).predicate
            ||| r.absent_when is Some && x == (r.absent_when->0).predicate
            ||| exists|i: int|
                0 <= i < r.required.len() && ((#[trigger] r.required[i]).predicate == x
                    || r.required[i].as_of == Some(x))
        },
        rule_names(r)[0] == r.subject_type,
        rule_names(r)[1] == r.actual,
{
    lemma_path_names(r.required, x);
    let head = seq![r.subject_type, r.actual];
    let a = super::cond_names(r.scope);
    let b = super::cond_names(r.absent_when);
    let c = path_names(r.required);
    lemma_joined(head + a + b, c, x);
    lemma_joined(head + a, b, x);
    lemma_joined(head, a, x);
    assert(head[0] == r.subject_type && head[1] == r.actual);
    if let Some(s) = r.scope {
        assert(a[0] == s.predicate);
    }
    if let Some(s) = r.absent_when {
        assert(b[0] == s.predicate);
    }
}

proof fn lemma_joined(a: Seq<Seq<char>>, b: Seq<Seq<char>>, x: Seq<char>)
    ensures
        (a + b).contains(x) == (a.contains(x) || b.contains(x)),
{
    let c = a + b;
    if a.contains(x) {
        let i = choose|i: int| 0 <= i < a.len() && a[i] == x;
        assert(c[i] == x);
    }
    if b.contains(x) {
        let i = choose|i: int| 0 <= i < b.len() && b[i] == x;
        assert(c[a.len() + i] == x);
    }
    if c.contains(x) {
        let i = choose|i: int| 0 <= i < c.len() && c[i] == x;
        if i < a.len() {
            assert(a[i] == x);
        } else {
            assert(b[i - a.len()] == x);
        }
    }
}

proof fn lemma_path_names(hops: Seq<HopModel>, x: Seq<char>)
    ensures
        path_names(hops).contains(x) <==> exists|i: int|
            0 <= i < hops.len() && ((#[trigger] hops[i]).predicate == x || hops[i].as_of == Some(x)),
    decreases hops.len(),
{
    if hops.len() > 0 {
        let init = hops.drop_last();
        let h = hops.last();
        lemma_path_names(init, x);
        lemma_joined(path_names(init), hop_names(h), x);
        assert(hop_names(h).contains(x) == (h.predicate == x || h.as_of == Some(x))) by {
            assert(hop_names(h)[0] == h.predicate);
            if let Some(a) = h.as_of {
                assert(hop_names(h)[1] == a);
            }
        }
        if path_names(init).contains(x) {
            let i = choose|i: int|
                0 <= i < init.len() && ((#[trigger] init[i]).predicate == x || init[i].as_of == Some(
                    x,
                ));
            assert(hops[i] == init[i]);
        }
        assert(hops[hops.len() - 1] == h);
        if exists|i: int|
            0 <= i < hops.len() && ((#[trigger] hops[i]).predicate == x || hops[i].as_of == Some(
                x,
            )) {
            let i = choose|i: int|
                0 <= i < hops.len() && ((#[trigger] hops[i]).predicate == x || hops[i].as_of
                    == Some(x));
            if i < init.len() {
                assert(init[i] == hops[i]);
            }
        }
    }
}

/// A register held a node by an instant where a row of its history with that node starts then or
/// before; later rows do not count, and what was held by an instant was held by any later one.
pub proof fn law_held_by(s: SnapshotModel, k: GraphKey, n: NodeId, t: i64, later: i64)
    ensures
        held_by(s, k, n, t) <==> s.one_history.contains_key(k) && exists|i: int|
            0 <= i < s.one_history[k].len() && (#[trigger] s.one_history[k][i]).1 == Some(
                ObjModel::Node(n),
            ) && s.one_history[k][i].2 <= t,
        held_by(s, k, n, t) && t <= later ==> held_by(s, k, n, later),
{
    let rows = at_or(s.one_history, k, Seq::empty());
    if held_by(s, k, n, t) {
        let i = choose|i: int|
            0 <= i < rows.len() && (#[trigger] rows[i]).1 == Some(ObjModel::Node(n)) && rows[i].2
                <= t;
        assert(s.one_history.contains_key(k));
        assert(s.one_history[k][i].1 == Some(ObjModel::Node(n)));
    }
    if s.one_history.contains_key(k) && exists|i: int|
        0 <= i < s.one_history[k].len() && (#[trigger] s.one_history[k][i]).1 == Some(
            ObjModel::Node(n),
        ) && s.one_history[k][i].2 <= t {
        let i = choose|i: int|
            0 <= i < s.one_history[k].len() && (#[trigger] s.one_history[k][i]).1 == Some(
                ObjModel::Node(n),
            ) && s.one_history[k][i].2 <= t;
        assert(rows[i] == s.one_history[k][i]);
    }
}

} // verus!
