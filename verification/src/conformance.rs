//! Conformance: a declared rule, evaluated to one verdict per subject.
//!
//! For every subject of the rule's type: an optional scope condition decides whether it is judged;
//! a chain of hops derives the required value, a hop with an anchor being read as of the anchor's
//! instant; the actual value is read and compared.
pub mod laws;

use crate::access::{labels_fit, typed_visible, visible_of_type};
use crate::catalog::{lookup, Catalog};
use crate::completeness::{push_unknown, unknown_names};
use crate::fact::{FieldId, NodeId};
use crate::fold::model::{at_or, GraphKey, SnapshotModel};
use crate::fold::{ObjKey, Snapshot};
use crate::objkey::ObjModel;
use crate::order::{Dup, Key};
use crate::ordmap::{sorted_items, OrdSet};
use crate::query::{current_one, one_at, point_one, point_one_asof};
use vstd::prelude::*;

verus! {

/// A condition on a subject: its current value of a predicate is this.
#[derive(Clone, Debug, PartialEq, Eq)]
pub struct Cond {
    pub predicate: String,
    pub equals: ObjKey,
}

/// The model of a [`Cond`].
pub struct CondModel {
    pub predicate: Seq<char>,
    pub equals: ObjModel,
}

impl DeepView for Cond {
    type V = CondModel;

    open spec fn deep_view(&self) -> CondModel {
        CondModel { predicate: self.predicate@, equals: self.equals@ }
    }
}

/// One hop of the derived path: the current value of a predicate, or, with an anchor, its value as
/// of the instant that the anchor predicate holds on the subject judged.
#[derive(Clone, Debug, PartialEq, Eq)]
pub struct Hop {
    pub predicate: String,
    pub as_of: Option<String>,
}

/// The model of a [`Hop`].
pub struct HopModel {
    pub predicate: Seq<char>,
    pub as_of: Option<Seq<char>>,
}

impl DeepView for Hop {
    type V = HopModel;

    open spec fn deep_view(&self) -> HopModel {
        HopModel { predicate: self.predicate@, as_of: self.as_of.deep_view() }
    }
}

/// A declared rule. Types and predicates are named, and resolved when it is evaluated.
#[derive(Clone, Debug, PartialEq, Eq)]
pub struct Rule {
    pub subject_type: String,
    pub scope: Option<Cond>,
    pub required: Vec<Hop>,
    pub actual: String,
    pub absent_when: Option<Cond>,
}

/// The model of a [`Rule`].
pub struct RuleModel {
    pub subject_type: Seq<char>,
    pub scope: Option<CondModel>,
    pub required: Seq<HopModel>,
    pub actual: Seq<char>,
    pub absent_when: Option<CondModel>,
}

impl View for Rule {
    type V = RuleModel;

    open spec fn view(&self) -> RuleModel {
        RuleModel {
            subject_type: self.subject_type@,
            scope: self.scope.deep_view(),
            required: self.required.deep_view(),
            actual: self.actual@,
            absent_when: self.absent_when.deep_view(),
        }
    }
}

/// The outcome for a subject.
#[derive(Clone, Copy, Debug, PartialEq, Eq, Structural)]
pub enum Outcome {
    Okay,
    Absent,
    Mismatch,
    NotApplicable,
}

impl Outcome {
    /// The outcome's stable name.
    pub fn as_str(self) -> (r: &'static str)
        ensures
            r@ == match self {
                Outcome::Okay => "OK"@,
                Outcome::Absent => "ABSENT"@,
                Outcome::Mismatch => "MISMATCH"@,
                Outcome::NotApplicable => "NOT_APPLICABLE"@,
            },
    {
        match self {
            Outcome::Okay => "OK",
            Outcome::Absent => "ABSENT",
            Outcome::Mismatch => "MISMATCH",
            Outcome::NotApplicable => "NOT_APPLICABLE",
        }
    }
}

/// What kind of mismatch, told by the history of the last hop where that hop is anchored: stale where
/// the actual value satisfied the required derivation at an earlier valid time (it held the role
/// before, but not as of the anchor), wrong where it never did. A mismatch on a last hop without an
/// anchor is always wrong: there is no earlier time at which it could have held.
#[derive(Clone, Copy, Debug, PartialEq, Eq, Structural)]
pub enum MismatchKind {
    Stale,
    Wrong,
}

impl MismatchKind {
    /// The kind's stable name.
    pub fn as_str(self) -> (r: &'static str)
        ensures
            r@ == match self {
                MismatchKind::Stale => "stale"@,
                MismatchKind::Wrong => "wrong"@,
            },
    {
        match self {
            MismatchKind::Stale => "stale",
            MismatchKind::Wrong => "wrong",
        }
    }
}

/// The verdict on a subject: the derived and the actual value, and the instant that an anchored hop
/// was read at. A mismatch has a kind, nothing else does.
#[derive(Clone, Debug, PartialEq, Eq)]
pub struct Verdict {
    pub subject: NodeId,
    pub verdict: Outcome,
    pub mismatch_kind: Option<MismatchKind>,
    pub required: Option<ObjKey>,
    pub actual: Option<ObjKey>,
    pub as_of: Option<i64>,
}

/// The model of a [`Verdict`].
pub struct VerdictModel {
    pub subject: NodeId,
    pub verdict: Outcome,
    pub mismatch_kind: Option<MismatchKind>,
    pub required: Option<ObjModel>,
    pub actual: Option<ObjModel>,
    pub as_of: Option<i64>,
}

impl DeepView for Verdict {
    type V = VerdictModel;

    open spec fn deep_view(&self) -> VerdictModel {
        VerdictModel {
            subject: self.subject,
            verdict: self.verdict,
            mismatch_kind: self.mismatch_kind,
            required: self.required.deep_view(),
            actual: self.actual.deep_view(),
            as_of: self.as_of,
        }
    }
}

impl View for Verdict {
    type V = VerdictModel;

    open spec fn view(&self) -> VerdictModel {
        self.deep_view()
    }
}

impl Dup for Verdict {
    fn dup(&self) -> (r: Self) {
        Verdict {
            subject: self.subject,
            verdict: self.verdict,
            mismatch_kind: self.mismatch_kind,
            required: self.required.dup(),
            actual: self.actual.dup(),
            as_of: self.as_of,
        }
    }
}

/// The names of a hop: its predicate, then its anchor.
pub open spec fn hop_names(h: HopModel) -> Seq<Seq<char>> {
    match h.as_of {
        Some(a) => seq![h.predicate, a],
        None => seq![h.predicate],
    }
}

/// The names of a path.
pub open spec fn path_names(hops: Seq<HopModel>) -> Seq<Seq<char>>
    decreases hops.len(),
{
    if hops.len() == 0 {
        Seq::empty()
    } else {
        path_names(hops.drop_last()) + hop_names(hops.last())
    }
}

/// The name in an optional condition.
pub open spec fn cond_names(c: Option<CondModel>) -> Seq<Seq<char>> {
    match c {
        Some(c) => seq![c.predicate],
        None => Seq::empty(),
    }
}

/// The names in a rule: subject type, actual predicate, scope, absence condition, then the path.
pub open spec fn rule_names(r: RuleModel) -> Seq<Seq<char>> {
    seq![r.subject_type, r.actual] + cond_names(r.scope) + cond_names(r.absent_when) + path_names(
        r.required,
    )
}

/// One more name of a list.
proof fn lemma_unknown_push(names: Seq<Seq<char>>, list: Seq<Seq<char>>, n: Seq<char>)
    ensures
        unknown_names(names, list.push(n)) == (if names.contains(n) {
            unknown_names(names, list)
        } else {
            unknown_names(names, list).push(n)
        }),
{
    assert(list.push(n).drop_last() =~= list);
}

/// The names in a rule that the catalog does not know.
pub fn unresolved_names(rule: &Rule, cat: &Catalog) -> (r: Vec<String>)
    requires
        cat.wf(),
    ensures
        r.deep_view() == unknown_names(cat@.names, rule_names(rule@)),
{
    let ghost names = cat@.names;
    let mut out: Vec<String> = Vec::new();
    let ghost mut list: Seq<Seq<char>> = Seq::empty();
    assert(out.deep_view() =~= unknown_names(names, list));
    push_unknown(cat, rule.subject_type.as_str(), &mut out);
    proof {
        lemma_unknown_push(names, list, rule.subject_type@);
        list = list.push(rule.subject_type@);
    }
    push_unknown(cat, rule.actual.as_str(), &mut out);
    proof {
        lemma_unknown_push(names, list, rule.actual@);
        list = list.push(rule.actual@);
        assert(list =~= seq![rule.subject_type@, rule.actual@]);
    }
    if let Some(c) = &rule.scope {
        push_unknown(cat, c.predicate.as_str(), &mut out);
        proof {
            lemma_unknown_push(names, list, c.predicate@);
            list = list.push(c.predicate@);
        }
    }
    assert(list =~= seq![rule.subject_type@, rule.actual@] + cond_names(rule@.scope));
    if let Some(c) = &rule.absent_when {
        push_unknown(cat, c.predicate.as_str(), &mut out);
        proof {
            lemma_unknown_push(names, list, c.predicate@);
            list = list.push(c.predicate@);
        }
    }
    assert(list =~= seq![rule.subject_type@, rule.actual@] + cond_names(rule@.scope) + cond_names(
        rule@.absent_when,
    ));
    let ghost head = list;
    let ghost hops = rule@.required;
    let mut i: usize = 0;
    proof {
        assert(hops.take(0) =~= Seq::<HopModel>::empty());
        assert(head + path_names(hops.take(0)) =~= head);
    }
    while i < rule.required.len()
        invariant
            i <= rule.required.len(),
            cat.wf(),
            names == cat@.names,
            hops == rule@.required,
            list == head + path_names(hops.take(i as int)),
            out.deep_view() == unknown_names(names, list),
        decreases rule.required.len() - i,
    {
        let h = &rule.required[i];
        push_unknown(cat, h.predicate.as_str(), &mut out);
        proof {
            assert(hops[i as int] == h.deep_view());
            let t = hops.take(i + 1);
            assert(t.drop_last() =~= hops.take(i as int));
            assert(t.last() == hops[i as int]);
            lemma_unknown_push(names, list, h.predicate@);
            list = list.push(h.predicate@);
        }
        if let Some(anchor) = &h.as_of {
            push_unknown(cat, anchor.as_str(), &mut out);
            proof {
                lemma_unknown_push(names, list, anchor@);
                list = list.push(anchor@);
            }
        }
        assert(list =~= head + path_names(hops.take(i + 1)));
        i += 1;
    }
    proof {
        assert(hops.take(i as int) =~= hops);
        assert(list =~= rule_names(rule@));
    }
    out
}

/// The current value of a named predicate; an unknown name has none.
pub open spec fn read(s: SnapshotModel, names: Seq<Seq<char>>, n: NodeId, name: Seq<char>) -> Option<
    ObjModel,
> {
    match lookup(names, name) {
        Some(p) => current_one(s, (n, p)),
        None => None,
    }
}

/// Whether a condition holds of a subject.
pub open spec fn cond_true(
    s: SnapshotModel,
    names: Seq<Seq<char>>,
    n: NodeId,
    c: CondModel,
) -> bool {
    read(s, names, n, c.predicate) == Some(c.equals)
}

/// The node that a value is.
pub open spec fn as_node(o: Option<ObjModel>) -> Option<NodeId> {
    match o {
        Some(ObjModel::Node(n)) => Some(n),
        _ => None,
    }
}

/// The integer that a value is.
pub open spec fn as_int(o: Option<ObjModel>) -> Option<i64> {
    match o {
        Some(ObjModel::Int(i)) => Some(i),
        _ => None,
    }
}

/// Where a walk along a path stands: the node reached, the instant last read at, and the key of the
/// last hop where that hop was anchored.
pub struct Walk {
    pub cur: Option<NodeId>,
    pub as_of: Option<i64>,
    pub last: Option<GraphKey>,
}

/// One hop of a walk from subject `s0`. A walk that has nowhere to go on from stays where it is, and
/// does not reach its last hop.
pub open spec fn walk_hop(
    s: SnapshotModel,
    names: Seq<Seq<char>>,
    s0: NodeId,
    w: Walk,
    h: HopModel,
) -> Walk {
    match w.cur {
        None => Walk { last: None, ..w },
        Some(node) => match lookup(names, h.predicate) {
            None => Walk { cur: None, last: None, ..w },
            Some(p) => match h.as_of {
                None => Walk { cur: as_node(current_one(s, (node, p))), last: None, ..w },
                Some(anchor) => {
                    let t = as_int(read(s, names, s0, anchor));
                    Walk {
                        cur: match t {
                            Some(at) => as_node(one_at(s, (node, p), at)),
                            None => None,
                        },
                        as_of: t,
                        last: Some((node, p)),
                    }
                },
            },
        },
    }
}

/// The walk along a whole path.
pub open spec fn walk(
    s: SnapshotModel,
    names: Seq<Seq<char>>,
    s0: NodeId,
    hops: Seq<HopModel>,
) -> Walk
    decreases hops.len(),
{
    if hops.len() == 0 {
        Walk { cur: Some(s0), as_of: None, last: None }
    } else {
        walk_hop(s, names, s0, walk(s, names, s0, hops.drop_last()), hops.last())
    }
}

/// Whether a register held a node at `t` or earlier: some row of it starts by then.
pub open spec fn held_by(s: SnapshotModel, k: GraphKey, n: NodeId, t: i64) -> bool {
    exists|i: int|
        0 <= i < at_or(s.one_history, k, Seq::empty()).len() && (#[trigger] at_or(
            s.one_history,
            k,
            Seq::empty(),
        )[i]).1 == Some(ObjModel::Node(n)) && at_or(s.one_history, k, Seq::empty())[i].2 <= t
}

/// The verdict on a subject.
pub open spec fn judged(
    s: SnapshotModel,
    names: Seq<Seq<char>>,
    r: RuleModel,
    s0: NodeId,
) -> VerdictModel {
    if r.scope is Some && !cond_true(s, names, s0, r.scope->0) {
        VerdictModel {
            subject: s0,
            verdict: Outcome::NotApplicable,
            mismatch_kind: None,
            required: None,
            actual: None,
            as_of: None,
        }
    } else {
        let w = walk(s, names, s0, r.required);
        let required = match w.cur {
            Some(n) => Some(ObjModel::Node(n)),
            None => None,
        };
        let actual = read(s, names, s0, r.actual);
        let outcome = match actual {
            None => if r.absent_when is Some && cond_true(s, names, s0, r.absent_when->0) {
                Outcome::Absent
            } else {
                Outcome::Okay
            },
            Some(_) => if required == actual {
                Outcome::Okay
            } else {
                Outcome::Mismatch
            },
        };
        VerdictModel {
            subject: s0,
            verdict: outcome,
            mismatch_kind: if outcome == Outcome::Mismatch {
                match (w.last, w.as_of, as_node(actual)) {
                    (Some(k), Some(t), Some(a)) => if held_by(s, k, a, t) {
                        Some(MismatchKind::Stale)
                    } else {
                        Some(MismatchKind::Wrong)
                    },
                    _ => Some(MismatchKind::Wrong),
                }
            } else {
                None
            },
            required,
            actual,
            as_of: w.as_of,
        }
    }
}

fn node_of(o: &Option<ObjKey>) -> (r: Option<NodeId>)
    ensures
        r == as_node(o.deep_view()),
{
    match o {
        Some(ObjKey::Node(n)) => Some(*n),
        _ => None,
    }
}

fn int_of(o: &Option<ObjKey>) -> (r: Option<i64>)
    ensures
        r == as_int(o.deep_view()),
{
    match o {
        Some(ObjKey::Int(i)) => Some(*i),
        _ => None,
    }
}

/// The keys that a read of a named predicate looks at.
pub open spec fn read_keys(names: Seq<Seq<char>>, n: NodeId, name: Seq<char>) -> Set<GraphKey> {
    match lookup(names, name) {
        Some(p) => Set::empty().insert((n, p)),
        None => Set::empty(),
    }
}

fn read_named(
    snap: &Snapshot,
    cat: &Catalog,
    n: NodeId,
    name: &String,
    reads: &mut OrdSet<(NodeId, FieldId)>,
) -> (r: Option<ObjKey>)
    requires
        cat.wf(),
    ensures
        r.deep_view() == read(snap@, cat@.names, n, name@),
        final(reads)@ == old(reads)@.union(read_keys(cat@.names, n, name@)),
{
    match cat.field_id(name.as_str()) {
        Some(p) => {
            reads.insert((n, p));
            assert(reads@ =~= old(reads)@.union(read_keys(cat@.names, n, name@)));
            point_one(snap, n, p)
        },
        None => {
            assert(reads@ =~= old(reads)@.union(read_keys(cat@.names, n, name@)));
            None
        },
    }
}

/// The keys that a hop looks at.
pub open spec fn hop_keys(
    s: SnapshotModel,
    names: Seq<Seq<char>>,
    s0: NodeId,
    w: Walk,
    h: HopModel,
) -> Set<GraphKey> {
    match w.cur {
        None => Set::empty(),
        Some(node) => match lookup(names, h.predicate) {
            None => Set::empty(),
            Some(p) => match h.as_of {
                None => Set::empty().insert((node, p)),
                Some(anchor) => read_keys(names, s0, anchor).insert((node, p)),
            },
        },
    }
}

/// The keys that a walk looks at.
pub open spec fn walk_keys(
    s: SnapshotModel,
    names: Seq<Seq<char>>,
    s0: NodeId,
    hops: Seq<HopModel>,
) -> Set<GraphKey>
    decreases hops.len(),
{
    if hops.len() == 0 {
        Set::empty()
    } else {
        let init = hops.drop_last();
        walk_keys(s, names, s0, init).union(
            hop_keys(s, names, s0, walk(s, names, s0, init), hops.last()),
        )
    }
}

/// The key that an optional condition looks at.
pub open spec fn cond_keys(names: Seq<Seq<char>>, s0: NodeId, c: Option<CondModel>) -> Set<
    GraphKey,
> {
    match c {
        Some(c) => read_keys(names, s0, c.predicate),
        None => Set::empty(),
    }
}

/// The keys that judging a subject looks at.
pub open spec fn judged_keys(
    s: SnapshotModel,
    names: Seq<Seq<char>>,
    r: RuleModel,
    s0: NodeId,
) -> Set<GraphKey> {
    if r.scope is Some && !cond_true(s, names, s0, r.scope->0) {
        cond_keys(names, s0, r.scope)
    } else {
        cond_keys(names, s0, r.scope).union(walk_keys(s, names, s0, r.required)).union(
            read_keys(names, s0, r.actual),
        ).union(
            if read(s, names, s0, r.actual) is None {
                cond_keys(names, s0, r.absent_when)
            } else {
                Set::empty()
            },
        )
    }
}

fn cond_holds(
    snap: &Snapshot,
    cat: &Catalog,
    n: NodeId,
    c: &Cond,
    reads: &mut OrdSet<(NodeId, FieldId)>,
) -> (r: bool)
    requires
        cat.wf(),
    ensures
        r == cond_true(snap@, cat@.names, n, c.deep_view()),
        final(reads)@ == old(reads)@.union(read_keys(cat@.names, n, c.predicate@)),
{
    match read_named(snap, cat, n, &c.predicate, reads) {
        Some(v) => v.same(&c.equals),
        None => false,
    }
}

fn held_before(
    snap: &Snapshot,
    node: NodeId,
    predicate: FieldId,
    value: NodeId,
    t: i64,
) -> (r: bool)
    ensures
        r == held_by(snap@, (node, predicate), value, t),
{
    match snap.one_history.get(&(node, predicate)) {
        None => false,
        Some(rows) => {
            let ghost h = rows.deep_view();
            assert(h == at_or(snap@.one_history, (node, predicate), Seq::empty()));
            let mut i: usize = 0;
            while i < rows.len()
                invariant
                    i <= rows.len(),
                    h == rows.deep_view(),
                    h == at_or(snap@.one_history, (node, predicate), Seq::empty()),
                    forall|j: int|
                        0 <= j < i ==> !((#[trigger] h[j]).1 == Some(ObjModel::Node(value))
                            && h[j].2 <= t),
                decreases rows.len() - i,
            {
                assert(rows@[i as int].deep_view() == h[i as int]);
                if let Some(ObjKey::Node(n)) = &rows[i].1 {
                    if *n == value && rows[i].2 <= t {
                        return true;
                    }
                }
                i += 1;
            }
            false
        },
    }
}

fn walk_path(
    snap: &Snapshot,
    cat: &Catalog,
    hops: &Vec<Hop>,
    s: NodeId,
    reads: &mut OrdSet<(NodeId, FieldId)>,
) -> (r: (Option<NodeId>, Option<i64>, Option<(NodeId, FieldId)>))
    requires
        cat.wf(),
    ensures
        ({
            let w = walk(snap@, cat@.names, s, hops.deep_view());
            r.0 == w.cur && r.1 == w.as_of && r.2 == w.last
        }),
        final(reads)@ == old(reads)@.union(walk_keys(snap@, cat@.names, s, hops.deep_view())),
{
    let ghost hm = hops.deep_view();
    let ghost names = cat@.names;
    let mut cur = Some(s);
    let mut as_of: Option<i64> = None;
    let mut last: Option<(NodeId, FieldId)> = None;
    let mut i: usize = 0;
    proof {
        assert(hm.take(0) =~= Seq::<HopModel>::empty());
        assert(reads@ =~= old(reads)@.union(walk_keys(snap@, names, s, hm.take(0))));
    }
    while i < hops.len()
        invariant
            i <= hops.len(),
            cat.wf(),
            names == cat@.names,
            hm == hops.deep_view(),
            walk(snap@, names, s, hm.take(i as int)) == (Walk { cur, as_of, last }),
            reads@ == old(reads)@.union(walk_keys(snap@, names, s, hm.take(i as int))),
        decreases hops.len() - i,
    {
        let hop = &hops[i];
        let ghost w = Walk { cur, as_of, last };
        let ghost reads0 = reads@;
        proof {
            assert(hm[i as int] == hop.deep_view());
            let t = hm.take(i + 1);
            assert(t.drop_last() =~= hm.take(i as int));
            assert(t.last() == hm[i as int]);
        }
        last = None;
        if let Some(node) = cur {
            match cat.field_id(hop.predicate.as_str()) {
                None => {
                    cur = None;
                },
                Some(p) => {
                    reads.insert((node, p));
                    match &hop.as_of {
                        None => {
                            cur = node_of(&point_one(snap, node, p));
                        },
                        Some(anchor) => {
                            let t = int_of(&read_named(snap, cat, s, anchor, reads));
                            as_of = t;
                            last = Some((node, p));
                            cur = match t {
                                Some(at) => node_of(&point_one_asof(snap, node, p, at)),
                                None => None,
                            };
                        },
                    }
                },
            }
        }
        proof {
            assert(reads@ =~= reads0.union(hop_keys(snap@, names, s, w, hm[i as int])));
            assert(reads@ =~= old(reads)@.union(walk_keys(snap@, names, s, hm.take(i + 1))));
        }
        i += 1;
    }
    assert(hm.take(i as int) =~= hm);
    (cur, as_of, last)
}

/// Judge one subject, and tell every key that the judgment looked at.
pub fn judge_traced(snap: &Snapshot, cat: &Catalog, rule: &Rule, s: NodeId) -> (r: (
    Verdict,
    OrdSet<(NodeId, FieldId)>,
))
    requires
        cat.wf(),
    ensures
        r.0@ == judged(snap@, cat@.names, rule@, s),
        r.1@ == judged_keys(snap@, cat@.names, rule@, s),
{
    let ghost names = cat@.names;
    let mut reads: OrdSet<(NodeId, FieldId)> = OrdSet::new();
    if let Some(scope) = &rule.scope {
        if !cond_holds(snap, cat, s, scope, &mut reads) {
            assert(reads@ =~= cond_keys(names, s, rule@.scope));
            return (
                Verdict {
                    subject: s,
                    verdict: Outcome::NotApplicable,
                    mismatch_kind: None,
                    required: None,
                    actual: None,
                    as_of: None,
                },
                reads,
            );
        }
    }
    assert(reads@ =~= cond_keys(names, s, rule@.scope));
    let (cur, as_of, last) = walk_path(snap, cat, &rule.required, s, &mut reads);
    let required = match cur {
        Some(n) => Some(ObjKey::Node(n)),
        None => None,
    };
    let actual = read_named(snap, cat, s, &rule.actual, &mut reads);
    let ghost reads1 = reads@;
    let outcome = match &actual {
        None => {
            let absent = match &rule.absent_when {
                Some(c) => cond_holds(snap, cat, s, c, &mut reads),
                None => false,
            };
            if absent {
                Outcome::Absent
            } else {
                Outcome::Okay
            }
        },
        Some(a) => {
            let matches_required = match &required {
                Some(q) => q.same(a),
                None => false,
            };
            if matches_required {
                Outcome::Okay
            } else {
                Outcome::Mismatch
            }
        },
    };
    let mismatch_kind = if outcome == Outcome::Mismatch {
        match (last, as_of, node_of(&actual)) {
            (Some(k), Some(t), Some(a)) => if held_before(snap, k.0, k.1, a, t) {
                Some(MismatchKind::Stale)
            } else {
                Some(MismatchKind::Wrong)
            },
            _ => Some(MismatchKind::Wrong),
        }
    } else {
        None
    };
    assert(reads@ =~= judged_keys(snap@, names, rule@, s));
    (Verdict { subject: s, verdict: outcome, mismatch_kind, required, actual, as_of }, reads)
}

/// The verdicts on some subjects.
pub open spec fn verdicts_on(
    s: SnapshotModel,
    names: Seq<Seq<char>>,
    r: RuleModel,
    subjects: Seq<NodeId>,
) -> Seq<VerdictModel> {
    Seq::new(subjects.len(), |i: int| judged(s, names, r, subjects[i]))
}

/// What a rule evaluates to: the verdicts on the visible subjects of its type, ascending by subject.
/// An unknown type has no subjects; an unknown predicate has no values.
pub open spec fn evaluated(
    s: SnapshotModel,
    names: Seq<Seq<char>>,
    r: RuleModel,
    labels: u32,
) -> Seq<VerdictModel> {
    match lookup(names, r.subject_type) {
        None => Seq::empty(),
        Some(ty) => verdicts_on(
            s,
            names,
            r,
            sorted_items::<NodeId>(typed_visible(s, ty, labels)),
        ),
    }
}

/// Evaluate a rule: one verdict per visible subject of its type, ascending by subject.
pub fn evaluate(snap: &Snapshot, cat: &Catalog, rule: &Rule, principal_labels: u32) -> (r: Vec<
    Verdict,
>)
    requires
        cat.wf(),
        labels_fit(snap@),
    ensures
        r.deep_view() == evaluated(snap@, cat@.names, rule@, principal_labels),
{
    let mut out: Vec<Verdict> = Vec::new();
    assert(out.deep_view() =~= Seq::<VerdictModel>::empty());
    let ty: FieldId = match cat.field_id(rule.subject_type.as_str()) {
        Some(t) => t,
        None => {
            return out;
        },
    };
    let subjects = visible_of_type(snap, ty, principal_labels);
    let n: usize = subjects.len();
    let mut i: usize = 0;
    while i < n
        invariant
            i <= n,
            n == subjects.items().len(),
            cat.wf(),
            out.len() == i,
            forall|j: int|
                0 <= j < i ==> (#[trigger] out@[j]).deep_view() == judged(
                    snap@,
                    cat@.names,
                    rule@,
                    subjects.items()[j],
                ),
        decreases n - i,
    {
        let (v, _) = judge_traced(snap, cat, rule, *subjects.at(i));
        out.push(v);
        i += 1;
    }
    assert(out.deep_view() =~= verdicts_on(snap@, cat@.names, rule@, subjects.items()));
    out
}

/// Whether two snapshots agree on what is read of a key.
pub open spec fn reads_alike(a: SnapshotModel, b: SnapshotModel, k: GraphKey) -> bool {
    &&& at_or(a.one, k, None) == at_or(b.one, k, None)
    &&& at_or(a.one_history, k, Seq::empty()) == at_or(b.one_history, k, Seq::empty())
}

proof fn lemma_walk_alike(
    a: SnapshotModel,
    b: SnapshotModel,
    names: Seq<Seq<char>>,
    s0: NodeId,
    hops: Seq<HopModel>,
)
    requires
        forall|k: GraphKey| #[trigger]
            walk_keys(a, names, s0, hops).contains(k) ==> reads_alike(a, b, k),
    ensures
        walk(a, names, s0, hops) == walk(b, names, s0, hops),
        walk_keys(a, names, s0, hops) == walk_keys(b, names, s0, hops),
    decreases hops.len(),
{
    if hops.len() > 0 {
        let init = hops.drop_last();
        let h = hops.last();
        let w = walk(a, names, s0, init);
        assert forall|k: GraphKey| #[trigger]
            walk_keys(a, names, s0, init).contains(k) implies reads_alike(a, b, k) by {
            assert(walk_keys(a, names, s0, hops).contains(k));
        }
        lemma_walk_alike(a, b, names, s0, init);
        if let Some(node) = w.cur {
            if let Some(p) = lookup(names, h.predicate) {
                assert(walk_keys(a, names, s0, hops).contains((node, p)));
                if let Some(anchor) = h.as_of {
                    if let Some(ap) = lookup(names, anchor) {
                        assert(walk_keys(a, names, s0, hops).contains((s0, ap)));
                    }
                }
            }
        }
    }
}

/// The last key of a walk is among those that it looked at.
proof fn lemma_walk_last(
    s: SnapshotModel,
    names: Seq<Seq<char>>,
    s0: NodeId,
    hops: Seq<HopModel>,
)
    ensures
        walk(s, names, s0, hops).last matches Some(k) ==> walk_keys(s, names, s0, hops).contains(k),
    decreases hops.len(),
{
    if hops.len() > 0 {
        lemma_walk_last(s, names, s0, hops.drop_last());
    }
}

/// The key that a path ends at: what its last hop reads of the node that the hops before it reach.
pub open spec fn final_key(
    s: SnapshotModel,
    names: Seq<Seq<char>>,
    s0: NodeId,
    hops: Seq<HopModel>,
) -> Option<GraphKey> {
    match (walk(s, names, s0, hops.drop_last()).cur, lookup(names, hops.last().predicate)) {
        (Some(node), Some(p)) => Some((node, p)),
        _ => None,
    }
}

/// A mismatch is stale exactly where the last hop is anchored, the path reaches it, and the node that
/// is there held the role at the anchor's time or earlier, as it does not at that time itself. Any
/// other mismatch is wrong.
pub proof fn law_stale_was_held(
    s: SnapshotModel,
    names: Seq<Seq<char>>,
    r: RuleModel,
    s0: NodeId,
)
    requires
        judged(s, names, r, s0).verdict == Outcome::Mismatch,
    ensures
        ({
            let v = judged(s, names, r, s0);
            let stale = r.required.len() > 0 && r.required.last().as_of is Some && final_key(
                s,
                names,
                s0,
                r.required,
            ) is Some && v.as_of is Some && as_node(v.actual) is Some && held_by(
                s,
                final_key(s, names, s0, r.required)->0,
                as_node(v.actual)->0,
                v.as_of->0,
            );
            &&& v.mismatch_kind == Some(if stale { MismatchKind::Stale } else { MismatchKind::Wrong })
            &&& stale ==> one_at(s, final_key(s, names, s0, r.required)->0, v.as_of->0) != v.actual
        }),
{
    let w = walk(s, names, s0, r.required);
    if r.required.len() > 0 {
        let h = r.required.last();
        let init = walk(s, names, s0, r.required.drop_last());
        assert(w == walk_hop(s, names, s0, init, h));
    }
}

/// A verdict rests on the keys it looked at and on nothing else: where another snapshot agrees on
/// those, it gives the same verdict, from the same keys.
pub proof fn law_verdict_rests_on_reads(
    a: SnapshotModel,
    b: SnapshotModel,
    names: Seq<Seq<char>>,
    r: RuleModel,
    s0: NodeId,
)
    requires
        forall|k: GraphKey| #[trigger]
            judged_keys(a, names, r, s0).contains(k) ==> reads_alike(a, b, k),
    ensures
        judged(a, names, r, s0) == judged(b, names, r, s0),
        judged_keys(a, names, r, s0) == judged_keys(b, names, r, s0),
{
    let keys = judged_keys(a, names, r, s0);
    if let Some(c) = r.scope {
        if let Some(p) = lookup(names, c.predicate) {
            assert(cond_keys(names, s0, r.scope).contains((s0, p)));
            assert(keys.contains((s0, p)));
        }
    }
    if !(r.scope is Some && !cond_true(a, names, s0, r.scope->0)) {
        assert forall|k: GraphKey| #[trigger]
            walk_keys(a, names, s0, r.required).contains(k) implies reads_alike(a, b, k) by {
            assert(keys.contains(k));
        }
        lemma_walk_alike(a, b, names, s0, r.required);
        lemma_walk_last(a, names, s0, r.required);
        if let Some(p) = lookup(names, r.actual) {
            assert(read_keys(names, s0, r.actual).contains((s0, p)));
            assert(keys.contains((s0, p)));
        }
        if read(a, names, s0, r.actual) is None {
            if let Some(c) = r.absent_when {
                if let Some(p) = lookup(names, c.predicate) {
                    assert(cond_keys(names, s0, r.absent_when).contains((s0, p)));
                    assert(keys.contains((s0, p)));
                }
            }
        }
        if let Some(k) = walk(a, names, s0, r.required).last {
            assert(keys.contains(k));
            assert(reads_alike(a, b, k));
        }
    }
}

} // verus!
