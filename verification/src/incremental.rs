//! Standing rules kept up to date from what changed, in place of evaluating them anew.
//!
//! [`Maintained`] re-checks the candidates that a rule names for each changed key.
//! [`MaintainedConformance`] keeps, with each verdict, the keys that the judgment looked at, and
//! judges anew exactly the subjects whose keys changed.
use crate::access::{allows, labels_fit, nodes_of_type, typed, typed_visible};
use crate::catalog::{lookup, Catalog};
use crate::conformance::{
    evaluated, judge_traced, judged, judged_keys, law_verdict_rests_on_reads, reads_alike, Rule,
    RuleModel, Verdict, VerdictModel,
};
use crate::fact::{FieldId, NodeId};
use crate::fold::model::{GraphKey, SnapshotModel};
use crate::fold::{ObjKey, Snapshot};
use crate::live::{diff_of, Diff};
use crate::order::{Dup, Key};
use crate::ordmap::{lemma_sorted_items, lemma_take_contains, sorted_items, OrdMap, OrdSet};
use vstd::prelude::*;

verus! {

/// A standing rule: which subjects are gaps, and which may become or cease to be one when a key
/// changes.
pub trait CompletenessRule {
    /// Every gap, found from scratch.
    fn seed(&self, snap: &Snapshot) -> OrdSet<NodeId>;

    /// The subjects that a change of `changed` may concern; none that it does concern may be
    /// missing.
    fn candidates(&self, snap: &Snapshot, changed: (NodeId, FieldId)) -> Vec<NodeId>;

    /// Whether `subject` is a gap.
    fn holds(&self, snap: &Snapshot, subject: NodeId) -> bool;
}

/// A rule with its gaps, kept up to date.
pub struct Maintained<R: CompletenessRule> {
    rule: R,
    gaps: OrdSet<NodeId>,
}

/// Whether the rule can answer that the gaps are `gaps`.
pub open spec fn seeds<R: CompletenessRule>(rule: R, snap: &Snapshot, gaps: Set<NodeId>) -> bool {
    exists|g: OrdSet<NodeId>| #[trigger] call_ensures(R::seed, (&rule, snap), g) && g@ == gaps
}

/// Answers of the rule on the candidates of each key.
pub open spec fn answered<R: CompletenessRule>(
    rule: R,
    snap: &Snapshot,
    keys: Seq<GraphKey>,
    answers: Seq<Vec<NodeId>>,
) -> bool {
    answers.len() == keys.len() && forall|i: int|
        0 <= i < keys.len() ==> call_ensures(
            R::candidates,
            (&rule, snap, keys[i]),
            #[trigger] answers[i],
        )
}

/// The subjects that some answer names.
pub open spec fn named(answers: Seq<Vec<NodeId>>) -> Set<NodeId> {
    Set::new(
        |x: NodeId| exists|i: int| 0 <= i < answers.len() && (#[trigger] answers[i])@.contains(x),
    )
}

fn add_all(out: &mut OrdSet<NodeId>, v: &Vec<NodeId>)
    ensures
        final(out)@ == old(out)@.union(v@.to_set()),
{
    let mut i: usize = 0;
    assert(out@ =~= old(out)@.union(v@.take(0).to_set()));
    while i < v.len()
        invariant
            i <= v.len(),
            out@ == old(out)@.union(v@.take(i as int).to_set()),
        decreases v.len() - i,
    {
        out.insert(v[i]);
        proof {
            assert(v@.take(i + 1) =~= v@.take(i as int).push(v@[i as int]));
            crate::codec::lemma_push_to_set(v@.take(i as int), v@[i as int]);
            assert(out@ =~= old(out)@.union(v@.take(i + 1).to_set()));
        }
        i += 1;
    }
    assert(v@.take(i as int) =~= v@);
}

impl<R: CompletenessRule> Maintained<R> {
    /// The rule.
    pub closed spec fn rule(&self) -> R {
        self.rule
    }

    /// The gaps.
    pub closed spec fn gap_set(&self) -> Set<NodeId> {
        self.gaps@
    }

    /// Start from the rule's own evaluation of a snapshot.
    pub fn new(rule: R, snap: &Snapshot) -> (r: Self)
        requires
            call_requires(R::seed, (&rule, snap)),
        ensures
            r.rule() == rule,
            seeds(rule, snap, r.gap_set()),
    {
        let gaps = rule.seed(snap);
        Maintained { rule, gaps }
    }

    /// The current gaps.
    pub fn gaps(&self) -> (r: &OrdSet<NodeId>)
        ensures
            r@ == self.gap_set(),
    {
        &self.gaps
    }

    /// Re-check the candidates of the touched keys: the change of the gaps.
    pub fn apply(&mut self, snap: &Snapshot, touched: &OrdSet<(NodeId, FieldId)>) -> (r: Diff)
        requires
            forall|k: GraphKey| #[trigger]
                touched@.contains(k) ==> call_requires(
                    R::candidates,
                    (&old(self).rule(), snap, k),
                ),
            forall|x: NodeId| #[trigger] call_requires(R::holds, (&old(self).rule(), snap, x)),
        ensures
            final(self).rule() == old(self).rule(),
            exists|answers: Seq<Vec<NodeId>>|
                #![trigger named(answers)]
                answered(
                    old(self).rule(),
                    snap,
                    sorted_items::<(NodeId, FieldId)>(touched@),
                    answers,
                ) && (forall|x: NodeId|
                    #![trigger final(self).gap_set().contains(x)]
                    (named(answers).contains(x) ==> call_ensures(
                        R::holds,
                        (&old(self).rule(), snap, x),
                        final(self).gap_set().contains(x),
                    )) && (!named(answers).contains(x) ==> final(self).gap_set().contains(x)
                        == old(self).gap_set().contains(x))),
            r@ == diff_of(old(self).gap_set(), final(self).gap_set()),
    {
        let ghost keys = touched.items();
        let ghost rule = self.rule;
        let mut candidates: OrdSet<NodeId> = OrdSet::new();
        let n: usize = touched.len();
        let ghost mut answers: Seq<Vec<NodeId>> = Seq::empty();
        let mut i: usize = 0;
        assert(candidates@ =~= named(answers));
        while i < n
            invariant
                i <= n,
                n == keys.len(),
                keys == touched.items(),
                rule == self.rule,
                *self == *old(self),
                forall|k: GraphKey| #[trigger]
                    touched@.contains(k) ==> call_requires(R::candidates, (&rule, snap, k)),
                forall|k: GraphKey| #[trigger] touched@.contains(k) <==> keys.contains(k),
                answered(rule, snap, keys.take(i as int), answers),
                candidates@ == named(answers),
            decreases n - i,
        {
            let k = *touched.at(i);
            assert(touched@.contains(k));
            let v = self.rule.candidates(snap, k);
            let ghost before = answers;
            add_all(&mut candidates, &v);
            proof {
                assert(call_ensures(R::candidates, (&rule, snap, k), v));
                answers = before.push(v);
                let t = keys.take(i + 1);
                assert forall|x: int| 0 <= x < t.len() implies call_ensures(
                    R::candidates,
                    (&rule, snap, t[x]),
                    #[trigger] answers[x],
                ) by {
                    if x < i {
                        assert(before[x] == answers[x]);
                        assert(keys.take(i as int)[x] == t[x]);
                    }
                }
                assert forall|x: NodeId| #[trigger] candidates@.contains(x) == named(
                    answers,
                ).contains(x) by {
                    if named(before).contains(x) {
                        let y = choose|y: int|
                            0 <= y < before.len() && (#[trigger] before[y])@.contains(x);
                        assert(answers[y]@.contains(x));
                    }
                    assert(answers[i as int] == v);
                    if named(answers).contains(x) {
                        let y = choose|y: int|
                            0 <= y < answers.len() && (#[trigger] answers[y])@.contains(x);
                        if y < i {
                            assert(before[y]@.contains(x));
                        }
                    }
                }
                assert(candidates@ =~= named(answers));
            }
            i += 1;
        }
        assert(keys.take(i as int) =~= keys);
        let ghost gaps0 = self.gaps@;
        let ghost c = candidates@;
        let mut added: OrdSet<NodeId> = OrdSet::new();
        let mut removed: OrdSet<NodeId> = OrdSet::new();
        let m: usize = candidates.len();
        let ghost items = candidates.items();
        let mut j: usize = 0;
        proof {
            assert(added@ =~= diff_of(gaps0, self.gaps@).added);
            assert(removed@ =~= diff_of(gaps0, self.gaps@).removed);
        }
        while j < m
            invariant
                j <= m,
                m == items.len(),
                items == candidates.items(),
                rule == self.rule,
                forall|p: int, q: int|
                    0 <= p < q < items.len() ==> u64::before(
                        #[trigger] items[p],
                        #[trigger] items[q],
                    ),
                forall|x: NodeId| #[trigger] call_requires(R::holds, (&rule, snap, x)),
                forall|x: NodeId|
                    #![trigger self.gaps@.contains(x)]
                    (items.take(j as int).contains(x) ==> call_ensures(
                        R::holds,
                        (&rule, snap, x),
                        self.gaps@.contains(x),
                    )) && (!items.take(j as int).contains(x) ==> self.gaps@.contains(x)
                        == gaps0.contains(x)),
                added@ == diff_of(gaps0, self.gaps@).added,
                removed@ == diff_of(gaps0, self.gaps@).removed,
            decreases m - j,
        {
            let x: NodeId = *candidates.at(j);
            proof {
                lemma_take_contains(items, j as int);
                assert(!items.take(j as int).contains(x)) by {
                    if items.take(j as int).contains(x) {
                        let p = choose|p: int| 0 <= p < j && items.take(j as int)[p] == x;
                        assert(items[p] == x);
                        assert(u64::before(items[p], items[j as int]));
                    }
                }
            }
            let ghost g0 = self.gaps@;
            let now = self.rule.holds(snap, x);
            let was = self.gaps.contains(&x);
            if now && !was {
                self.gaps.insert(x);
                added.insert(x);
            } else if !now && was {
                self.gaps.remove(&x);
                removed.insert(x);
            }
            proof {
                assert(self.gaps@.contains(x) == now);
                assert(call_ensures(R::holds, (&rule, snap, x), now));
                assert forall|y: NodeId| y != x implies #[trigger] self.gaps@.contains(y)
                    == g0.contains(y) by {
                }
                assert(g0.contains(x) == gaps0.contains(x));
                assert(added@ =~= diff_of(gaps0, self.gaps@).added);
                assert(removed@ =~= diff_of(gaps0, self.gaps@).removed);
            }
            j += 1;
        }
        assert(items.take(j as int) =~= items);
        assert forall|x: NodeId|
            #![trigger self.gaps@.contains(x)]
            (c.contains(x) ==> call_ensures(
                R::holds,
                (&rule, snap, x),
                self.gaps@.contains(x),
            )) && (!c.contains(x) ==> self.gaps@.contains(x) == gaps0.contains(x)) by {
            assert(c.contains(x) == items.contains(x));
        }
        assert(answered(rule, snap, sorted_items::<(NodeId, FieldId)>(touched@), answers));
        assert(c == named(answers));
        Diff { added, removed }
    }
}

/// Maintenance is recomputation: where the gaps were those of the old state, the candidates hold
/// every subject whose membership changed, and each candidate is re-checked against the new state,
/// the gaps are those of the new state.
pub proof fn law_maintained_is_recomputed(
    was: spec_fn(NodeId) -> bool,
    is: spec_fn(NodeId) -> bool,
    before: Set<NodeId>,
    after: Set<NodeId>,
    c: Set<NodeId>,
)
    requires
        before == Set::new(was),
        forall|x: NodeId| !(#[trigger] c.contains(x)) ==> was(x) == is(x),
        forall|x: NodeId| #[trigger] c.contains(x) ==> after.contains(x) == is(x),
        forall|x: NodeId|
            !(#[trigger] c.contains(x)) ==> after.contains(x) == before.contains(x),
    ensures
        after == Set::new(is),
{
    assert forall|x: NodeId| #[trigger] after.contains(x) == Set::new(is).contains(x) by {
        assert(before.contains(x) == was(x));
        if c.contains(x) {
            assert(after.contains(x) == is(x));
        } else {
            assert(was(x) == is(x));
        }
    }
    assert(after =~= Set::new(is));
}

/// Whether the rule decides as `now` does on a snapshot.
pub open spec fn decides<R: CompletenessRule>(
    rule: R,
    snap: &Snapshot,
    now: spec_fn(NodeId) -> bool,
) -> bool {
    forall|x: NodeId, b: bool| #[trigger] call_ensures(R::holds, (&rule, snap, x), b) ==> b == now(x)
}

/// The same of a rule, from what it answers: where it named as candidates of the touched keys every
/// subject whose membership changed, and was asked of each, the gaps are the new ones and the diff is
/// what entered and what left.
pub proof fn law_maintained_rule<R: CompletenessRule>(
    rule: R,
    snap: &Snapshot,
    was: spec_fn(NodeId) -> bool,
    now: spec_fn(NodeId) -> bool,
    keys: Seq<GraphKey>,
    answers: Seq<Vec<NodeId>>,
    before: Set<NodeId>,
    after: Set<NodeId>,
)
    requires
        decides(rule, snap, now),
        before == Set::new(was),
        answered(rule, snap, keys, answers),
        forall|x: NodeId| was(x) != now(x) ==> #[trigger] named(answers).contains(x),
        forall|x: NodeId|
            #![trigger after.contains(x)]
            (named(answers).contains(x) ==> call_ensures(
                R::holds,
                (&rule, snap, x),
                after.contains(x),
            )) && (!named(answers).contains(x) ==> after.contains(x) == before.contains(x)),
    ensures
        after == Set::new(now),
        diff_of(before, after).added == Set::new(|x: NodeId| now(x) && !was(x)),
        diff_of(before, after).removed == Set::new(|x: NodeId| was(x) && !now(x)),
{
    let c = named(answers);
    assert forall|x: NodeId| #[trigger] c.contains(x) implies after.contains(x) == now(x) by {
        assert(call_ensures(R::holds, (&rule, snap, x), after.contains(x)));
    }
    assert forall|x: NodeId| !(#[trigger] c.contains(x)) implies after.contains(x)
        == before.contains(x) by {}
    law_maintained_is_recomputed(was, now, before, after, c);
    assert(diff_of(before, after).added =~= Set::new(|x: NodeId| now(x) && !was(x)));
    assert(diff_of(before, after).removed =~= Set::new(|x: NodeId| was(x) && !now(x)));
}

/// The change of what is judged of one subject. It is a new subject where there is nothing old, and
/// no subject any more where there is nothing new.
#[derive(Clone, Debug, PartialEq, Eq)]
pub struct VerdictDiff {
    pub subject: NodeId,
    pub old: Option<Verdict>,
    pub new: Option<Verdict>,
}

/// The model of a [`VerdictDiff`]: subject, old verdict, new verdict.
pub type VerdictDiffModel = (NodeId, Option<VerdictModel>, Option<VerdictModel>);

impl DeepView for VerdictDiff {
    type V = VerdictDiffModel;

    open spec fn deep_view(&self) -> VerdictDiffModel {
        (self.subject, self.old.deep_view(), self.new.deep_view())
    }
}

/// The model of a [`MaintainedConformance`].
pub struct MaintainedModel {
    pub rule: RuleModel,
    pub verdicts: Map<NodeId, VerdictModel>,
    /// Per key, the subjects whose last judgment looked at it.
    pub dependents: Map<GraphKey, Set<NodeId>>,
    /// Per subject, the keys that its last judgment looked at.
    pub supports: Map<NodeId, Set<GraphKey>>,
}

/// Whether a subject depends on a key.
pub open spec fn depends(dep: Map<GraphKey, Set<NodeId>>, k: GraphKey, s: NodeId) -> bool {
    dep.contains_key(k) && dep[k].contains(s)
}

/// Whether a key supports a subject.
pub open spec fn supports(sup: Map<NodeId, Set<GraphKey>>, s: NodeId, k: GraphKey) -> bool {
    sup.contains_key(s) && sup[s].contains(k)
}

/// The two indexes are each other's inverse.
pub open spec fn inverse(dep: Map<GraphKey, Set<NodeId>>, sup: Map<NodeId, Set<GraphKey>>) -> bool {
    forall|k: GraphKey, s: NodeId| #[trigger] depends(dep, k, s) <==> supports(sup, s, k)
}

/// A conformance rule with the verdicts on all its subjects, kept up to date.
pub struct MaintainedConformance {
    rule: Rule,
    verdicts: OrdMap<NodeId, Verdict>,
    dependents: OrdMap<(NodeId, FieldId), OrdSet<NodeId>>,
    supports: OrdMap<NodeId, OrdSet<(NodeId, FieldId)>>,
}

impl View for MaintainedConformance {
    type V = MaintainedModel;

    closed spec fn view(&self) -> MaintainedModel {
        MaintainedModel {
            rule: self.rule@,
            verdicts: self.verdicts@,
            dependents: self.dependents@,
            supports: self.supports@,
        }
    }
}

/// The subjects to judge anew: those that depend on a touched key; subjects without a verdict that
/// a touched key is of; and touched nodes that are, or were, subjects.
pub open spec fn rejudged(
    m: MaintainedModel,
    s: SnapshotModel,
    ty: FieldId,
    keys: Set<GraphKey>,
    nodes: Set<NodeId>,
) -> Set<NodeId> {
    Set::new(
        |x: NodeId|
            {
                ||| exists|k: GraphKey| keys.contains(k) && #[trigger] depends(m.dependents, k, x)
                ||| typed(s, ty).contains(x) && !m.verdicts.contains_key(x) && exists|k: GraphKey| #[trigger]
                    keys.contains(k) && k.0 == x
                ||| nodes.contains(x) && (typed(s, ty).contains(x) || m.verdicts.contains_key(x))
            },
    )
}

/// The state after judging the subjects `c` anew: those that are of the type have the verdict and
/// the support of the snapshot, the others are gone; every other subject stays.
pub open spec fn judged_anew(
    m: MaintainedModel,
    s: SnapshotModel,
    names: Seq<Seq<char>>,
    ty: FieldId,
    c: Set<NodeId>,
) -> MaintainedModel {
    MaintainedModel {
        rule: m.rule,
        verdicts: Map::new(
            |x: NodeId|
                if c.contains(x) {
                    typed(s, ty).contains(x)
                } else {
                    m.verdicts.contains_key(x)
                },
            |x: NodeId|
                if c.contains(x) {
                    judged(s, names, m.rule, x)
                } else {
                    m.verdicts[x]
                },
        ),
        supports: Map::new(
            |x: NodeId|
                if c.contains(x) {
                    typed(s, ty).contains(x)
                } else {
                    m.supports.contains_key(x)
                },
            |x: NodeId|
                if c.contains(x) {
                    judged_keys(s, names, m.rule, x)
                } else {
                    m.supports[x]
                },
        ),
        dependents: m.dependents,
    }
}

/// The verdict in a map.
pub open spec fn verdict_at(m: Map<NodeId, VerdictModel>, x: NodeId) -> Option<VerdictModel> {
    if m.contains_key(x) {
        Some(m[x])
    } else {
        None
    }
}

/// The changes between two verdict maps at some subjects, in order.
pub open spec fn verdict_changes(
    before: Map<NodeId, VerdictModel>,
    after: Map<NodeId, VerdictModel>,
    subjects: Seq<NodeId>,
) -> Seq<VerdictDiffModel>
    decreases subjects.len(),
{
    if subjects.len() == 0 {
        Seq::empty()
    } else {
        let init = verdict_changes(before, after, subjects.drop_last());
        let x = subjects.last();
        if verdict_at(before, x) == verdict_at(after, x) {
            init
        } else {
            init.push((x, verdict_at(before, x), verdict_at(after, x)))
        }
    }
}

fn same_value(a: &Option<ObjKey>, b: &Option<ObjKey>) -> (r: bool)
    ensures
        r == (a.deep_view() == b.deep_view()),
{
    match (a, b) {
        (None, None) => true,
        (Some(x), Some(y)) => x.same(y),
        _ => false,
    }
}

fn same_verdict(a: &Verdict, b: &Verdict) -> (r: bool)
    ensures
        r == (a@ == b@),
{
    let same_kind = match (a.mismatch_kind, b.mismatch_kind) {
        (None, None) => true,
        (Some(x), Some(y)) => x == y,
        _ => false,
    };
    let same_instant = match (a.as_of, b.as_of) {
        (None, None) => true,
        (Some(x), Some(y)) => x == y,
        _ => false,
    };
    a.subject == b.subject && a.verdict == b.verdict && same_kind && same_instant && same_value(
        &a.required,
        &b.required,
    ) && same_value(&a.actual, &b.actual)
}

fn same_verdicts(a: &Option<Verdict>, b: &Option<Verdict>) -> (r: bool)
    ensures
        r == (a.deep_view() == b.deep_view()),
{
    match (a, b) {
        (None, None) => true,
        (Some(x), Some(y)) => same_verdict(x, y),
        _ => false,
    }
}

fn has_type(snap: &Snapshot, x: NodeId, ty: FieldId) -> (r: bool)
    ensures
        r == typed(snap@, ty).contains(x),
{
    match snap.node_types.get(&x) {
        Some(t) => *t == ty,
        None => false,
    }
}

impl MaintainedConformance {
    /// The indexes of support are each other's inverse, and cover exactly the subjects judged.
    pub closed spec fn wf(&self) -> bool {
        &&& inverse(self.dependents@, self.supports@)
        &&& self.verdicts@.dom() == self.supports@.dom()
    }

    /// What well-formedness says of the model.
    pub proof fn lemma_wf(&self)
        requires
            self.wf(),
        ensures
            inverse(self@.dependents, self@.supports),
            self@.verdicts.dom() == self@.supports.dom(),
    {
    }

    /// Start from the verdicts on every subject of a snapshot.
    pub fn new(rule: Rule, snap: &Snapshot, cat: &Catalog) -> (r: Self)
        requires
            cat.wf(),
        ensures
            r.wf(),
            r@.rule == rule@,
            r@.verdicts == match lookup(cat@.names, rule@.subject_type) {
                None => Map::<NodeId, VerdictModel>::empty(),
                Some(ty) => Map::new(
                    |x: NodeId| typed(snap@, ty).contains(x),
                    |x: NodeId| judged(snap@, cat@.names, rule@, x),
                ),
            },
            forall|x: NodeId| #[trigger]
                r@.supports.contains_key(x) ==> r@.supports[x] == judged_keys(
                    snap@,
                    cat@.names,
                    rule@,
                    x,
                ),
            lookup(cat@.names, rule@.subject_type) matches Some(ty) ==> up_to_date(
                r@,
                snap@,
                cat@.names,
                ty,
            ),
    {
        let ghost rm = rule@;
        let ghost names = cat@.names;
        let mut m = MaintainedConformance {
            rule,
            verdicts: OrdMap::new(),
            dependents: OrdMap::new(),
            supports: OrdMap::new(),
        };
        assert(m.verdicts@.dom() =~= m.supports@.dom());
        let ty: FieldId = match cat.field_id(m.rule.subject_type.as_str()) {
            Some(t) => t,
            None => {
                return m;
            },
        };
        let subjects = nodes_of_type(snap, ty);
        let n: usize = subjects.len();
        let ghost items = subjects.items();
        let mut i: usize = 0;
        while i < n
            invariant
                i <= n,
                n == items.len(),
                items == subjects.items(),
                cat.wf(),
                names == cat@.names,
                m.wf(),
                m.rule@ == rm,
                forall|x: NodeId| #[trigger]
                    m.verdicts@.contains_key(x) <==> items.take(i as int).contains(x),
                forall|x: NodeId| #[trigger]
                    m.verdicts@.contains_key(x) ==> m.verdicts@[x] == judged(snap@, names, rm, x),
                forall|x: NodeId| #[trigger]
                    m.supports@.contains_key(x) ==> m.supports@[x] == judged_keys(
                        snap@,
                        names,
                        rm,
                        x,
                    ),
            decreases n - i,
        {
            proof {
                lemma_take_contains(items, i as int);
            }
            let _ = m.judge_into(snap, cat, *subjects.at(i));
            i += 1;
        }
        proof {
            assert(items.take(n as int) =~= items);
            assert(m.verdicts@ =~= Map::new(
                |x: NodeId| typed(snap@, ty).contains(x),
                |x: NodeId| judged(snap@, names, rm, x),
            ));
            assert(m.supports@ =~= Map::new(
                |x: NodeId| typed(snap@, ty).contains(x),
                |x: NodeId| judged_keys(snap@, names, rm, x),
            ));
        }
        m
    }

    /// The verdicts on all subjects, whatever their labels.
    pub fn verdicts(&self) -> (r: &OrdMap<NodeId, Verdict>)
        ensures
            r@ == self@.verdicts,
    {
        &self.verdicts
    }

    /// Judge anew what the touched keys and nodes concern: the changes, ascending by subject.
    pub fn apply(
        &mut self,
        snap: &Snapshot,
        cat: &Catalog,
        keys: &OrdSet<(NodeId, FieldId)>,
        nodes: &OrdSet<NodeId>,
    ) -> (r: Vec<VerdictDiff>)
        requires
            old(self).wf(),
            cat.wf(),
        ensures
            final(self).wf(),
            final(self)@.rule == old(self)@.rule,
            match lookup(cat@.names, old(self)@.rule.subject_type) {
                None => final(self)@ == old(self)@ && r@.len() == 0,
                Some(ty) => {
                    let c = rejudged(old(self)@, snap@, ty, keys@, nodes@);
                    let goal = judged_anew(old(self)@, snap@, cat@.names, ty, c);
                    &&& final(self)@.verdicts == goal.verdicts
                    &&& final(self)@.supports == goal.supports
                    &&& r.deep_view() == verdict_changes(
                        old(self)@.verdicts,
                        goal.verdicts,
                        sorted_items::<NodeId>(c),
                    )
                },
            },
    {
        let ty: FieldId = match cat.field_id(self.rule.subject_type.as_str()) {
            Some(t) => t,
            None => {
                return Vec::new();
            },
        };
        let ghost m0 = self@;
        let ghost names = cat@.names;
        let candidates = self.to_rejudge(snap, ty, keys, nodes);
        let ghost c = candidates@;
        let ghost items = candidates.items();
        let ghost goal = judged_anew(m0, snap@, names, ty, c);
        let mut diffs: Vec<VerdictDiff> = Vec::new();
        let n: usize = candidates.len();
        let mut i: usize = 0;
        proof {
            assert(items.take(0) =~= Seq::<NodeId>::empty());
            assert(diffs.deep_view() =~= Seq::<VerdictDiffModel>::empty());
            let g0 = judged_anew(m0, snap@, names, ty, Set::empty());
            assert(self.verdicts@ =~= g0.verdicts);
            assert(self.supports@ =~= g0.supports);
            assert(items.take(0).to_set() =~= Set::empty());
        }
        while i < n
            invariant
                i <= n,
                n == items.len(),
                items == candidates.items(),
                c == candidates@,
                forall|x: NodeId| #[trigger] c.contains(x) <==> items.contains(x),
                forall|p: int, q: int|
                    0 <= p < q < items.len() ==> u64::before(
                        #[trigger] items[p],
                        #[trigger] items[q],
                    ),
                cat.wf(),
                self.wf(),
                names == cat@.names,
                self.rule@ == m0.rule,
                goal == judged_anew(m0, snap@, names, ty, c),
                ({
                    let g = judged_anew(m0, snap@, names, ty, items.take(i as int).to_set());
                    self.verdicts@ == g.verdicts && self.supports@ == g.supports
                }),
                diffs.deep_view() == verdict_changes(
                    m0.verdicts,
                    goal.verdicts,
                    items.take(i as int),
                ),
            decreases n - i,
        {
            let x: NodeId = *candidates.at(i);
            let ghost done = items.take(i as int).to_set();
            let ghost g = judged_anew(m0, snap@, names, ty, done);
            proof {
                lemma_take_contains(items, i as int);
                assert(!done.contains(x)) by {
                    if items.take(i as int).contains(x) {
                        let p = choose|p: int| 0 <= p < i && items.take(i as int)[p] == x;
                        assert(items[p] == x);
                        assert(u64::before(items[p], items[i as int]));
                    }
                }
            }
            let old_verdict = match self.verdicts.get(&x) {
                Some(v) => Some(v.dup()),
                None => None,
            };
            let new_verdict = if has_type(snap, x, ty) {
                Some(self.judge_into(snap, cat, x))
            } else {
                self.remove(x);
                None
            };
            let ghost d0 = diffs.deep_view();
            let ghost om = old_verdict.deep_view();
            let ghost nm = new_verdict.deep_view();
            proof {
                let next = items.take(i + 1).to_set();
                let g1 = judged_anew(m0, snap@, names, ty, next);
                assert forall|y: NodeId| #[trigger] next.contains(y) == (done.contains(y) || y
                    == x) by {
                }
                assert(self.verdicts@ =~= g1.verdicts);
                assert(self.supports@ =~= g1.supports);
                assert(om == verdict_at(m0.verdicts, x));
                assert(items.contains(x));
                assert(c.contains(x));
                assert(nm == verdict_at(goal.verdicts, x));
                let t = items.take(i + 1);
                assert(t.drop_last() =~= items.take(i as int));
                assert(t.last() == x);
            }
            if !same_verdicts(&old_verdict, &new_verdict) {
                diffs.push(VerdictDiff { subject: x, old: old_verdict, new: new_verdict });
                assert(diffs.deep_view() =~= d0.push((x, om, nm)));
            }
            i += 1;
        }
        proof {
            assert(items.take(i as int) =~= items);
            assert(items.to_set() =~= c);
        }
        diffs
    }

    fn to_rejudge(
        &self,
        snap: &Snapshot,
        ty: FieldId,
        keys: &OrdSet<(NodeId, FieldId)>,
        nodes: &OrdSet<NodeId>,
    ) -> (r: OrdSet<NodeId>)
        ensures
            r@ == rejudged(self@, snap@, ty, keys@, nodes@),
    {
        let mut out: OrdSet<NodeId> = OrdSet::new();
        let n: usize = keys.len();
        let ghost ks = keys.items();
        let mut i: usize = 0;
        while i < n
            invariant
                i <= n,
                n == ks.len(),
                ks == keys.items(),
                forall|x: NodeId| #[trigger]
                    out@.contains(x) <==> exists|j: int|
                        0 <= j < i && key_concerns(self@, snap@, ty, #[trigger] ks[j], x),
            decreases n - i,
        {
            let k = *keys.at(i);
            let ghost out0 = out@;
            if let Some(deps) = self.dependents.get(&k) {
                out.extend_from(deps);
            }
            if has_type(snap, k.0, ty) && !self.verdicts.contains_key(&k.0) {
                out.insert(k.0);
            }
            proof {
                assert forall|x: NodeId| #[trigger] out@.contains(x) == (out0.contains(x)
                    || key_concerns(self@, snap@, ty, k, x)) by {
                }
                assert(ks[i as int] == k);
            }
            i += 1;
        }
        let ghost out1 = out@;
        let m: usize = nodes.len();
        let ghost ns = nodes.items();
        let mut j: usize = 0;
        while j < m
            invariant
                j <= m,
                m == ns.len(),
                ns == nodes.items(),
                forall|x: NodeId| #[trigger]
                    out@.contains(x) <==> out1.contains(x) || (ns.take(j as int).contains(x) && (
                    typed(snap@, ty).contains(x) || self.verdicts@.contains_key(x))),
            decreases m - j,
        {
            proof {
                lemma_take_contains(ns, j as int);
            }
            let x: NodeId = *nodes.at(j);
            if has_type(snap, x, ty) || self.verdicts.contains_key(&x) {
                out.insert(x);
            }
            j += 1;
        }
        proof {
            assert(ns.take(m as int) =~= ns);
            let goal = rejudged(self@, snap@, ty, keys@, nodes@);
            assert forall|x: NodeId| #[trigger] out@.contains(x) == goal.contains(x) by {
                if out1.contains(x) {
                    let y = choose|y: int|
                        0 <= y < n && key_concerns(self@, snap@, ty, #[trigger] ks[y], x);
                    assert(ks.contains(ks[y]));
                    assert(keys@.contains(ks[y]));
                    if depends(self@.dependents, ks[y], x) {
                        assert(goal.contains(x));
                    }
                }
                if exists|k: GraphKey|
                    keys@.contains(k) && #[trigger] depends(self@.dependents, k, x) {
                    let k = choose|k: GraphKey|
                        keys@.contains(k) && #[trigger] depends(self@.dependents, k, x);
                    assert(ks.contains(k));
                    let y = choose|y: int| 0 <= y < ks.len() && ks[y] == k;
                    assert(key_concerns(self@, snap@, ty, ks[y], x));
                }
                if typed(snap@, ty).contains(x) && !self@.verdicts.contains_key(x)
                    && exists|k: GraphKey| #[trigger] keys@.contains(k) && k.0 == x {
                    let k = choose|k: GraphKey| #[trigger] keys@.contains(k) && k.0 == x;
                    assert(ks.contains(k));
                    let y = choose|y: int| 0 <= y < ks.len() && ks[y] == k;
                    assert(key_concerns(self@, snap@, ty, ks[y], x));
                }
                assert(nodes@.contains(x) == ns.contains(x));
            }
            assert(out@ =~= goal);
        }
        out
    }

    fn judge_into(&mut self, snap: &Snapshot, cat: &Catalog, s: NodeId) -> (r: Verdict)
        requires
            old(self).wf(),
            cat.wf(),
        ensures
            final(self).wf(),
            final(self).rule == old(self).rule,
            r@ == judged(snap@, cat@.names, old(self).rule@, s),
            final(self).verdicts@ == old(self).verdicts@.insert(s, r@),
            final(self).supports@ == old(self).supports@.insert(
                s,
                judged_keys(snap@, cat@.names, old(self).rule@, s),
            ),
    {
        self.clear_supports(s);
        let (v, reads) = judge_traced(snap, cat, &self.rule, s);
        let ghost sup0 = self.supports@;
        self.index_reads(&reads, s);
        let out = v.dup();
        self.supports.insert(s, reads);
        self.verdicts.insert(s, v);
        proof {
            assert(self.supports@ =~= old(self).supports@.insert(s, reads@));
            assert forall|k: GraphKey, x: NodeId| #[trigger] depends(self.dependents@, k, x)
                == supports(self.supports@, x, k) by {
                assert(supports(sup0, x, k) == (x != s && supports(self.supports@, x, k)));
            }
            assert(self.verdicts@.dom() =~= self.supports@.dom());
        }
        out
    }

    fn index_reads(&mut self, reads: &OrdSet<(NodeId, FieldId)>, s: NodeId)
        requires
            inverse(old(self).dependents@, old(self).supports@),
            !old(self).supports@.contains_key(s),
        ensures
            final(self).rule == old(self).rule,
            final(self).verdicts == old(self).verdicts,
            final(self).supports == old(self).supports,
            forall|k: GraphKey, x: NodeId| #[trigger]
                depends(final(self).dependents@, k, x) <==> supports(old(self).supports@, x, k) || (
                x == s && reads@.contains(k)),
    {
        let n: usize = reads.len();
        let ghost items = reads.items();
        let mut i: usize = 0;
        while i < n
            invariant
                i <= n,
                n == items.len(),
                items == reads.items(),
                self.rule == old(self).rule,
                self.verdicts == old(self).verdicts,
                self.supports == old(self).supports,
                forall|k: GraphKey, x: NodeId| #[trigger]
                    depends(self.dependents@, k, x) <==> supports(old(self).supports@, x, k) || (x
                        == s && items.take(i as int).contains(k)),
            decreases n - i,
        {
            proof {
                lemma_take_contains(items, i as int);
            }
            let k = *reads.at(i);
            let ghost dep0 = self.dependents@;
            let mut set = match self.dependents.take(&k) {
                Some(set) => set,
                None => OrdSet::new(),
            };
            set.insert(s);
            let ghost sv = set@;
            self.dependents.insert(k, set);
            proof {
                assert forall|q: GraphKey, x: NodeId| #[trigger] depends(self.dependents@, q, x)
                    == (depends(dep0, q, x) || (q == k && x == s)) by {
                }
            }
            i += 1;
        }
        assert(items.take(n as int) =~= items);
    }

    fn remove(&mut self, s: NodeId)
        requires
            old(self).wf(),
        ensures
            final(self).wf(),
            final(self).rule == old(self).rule,
            final(self).verdicts@ == old(self).verdicts@.remove(s),
            final(self).supports@ == old(self).supports@.remove(s),
    {
        self.clear_supports(s);
        self.verdicts.remove(&s);
        assert(self.verdicts@.dom() =~= self.supports@.dom());
    }

    fn clear_supports(&mut self, s: NodeId)
        requires
            inverse(old(self).dependents@, old(self).supports@),
        ensures
            inverse(final(self).dependents@, final(self).supports@),
            final(self).rule == old(self).rule,
            final(self).verdicts == old(self).verdicts,
            final(self).supports@ == old(self).supports@.remove(s),
    {
        let ghost sup0 = self.supports@;
        let ghost dep0 = self.dependents@;
        let keys = match self.supports.take(&s) {
            Some(k) => k,
            None => OrdSet::new(),
        };
        let n: usize = keys.len();
        let ghost items = keys.items();
        let mut i: usize = 0;
        while i < n
            invariant
                i <= n,
                n == items.len(),
                items == keys.items(),
                self.rule == old(self).rule,
                self.verdicts == old(self).verdicts,
                self.supports@ == sup0.remove(s),
                forall|k: GraphKey, x: NodeId| #[trigger]
                    depends(self.dependents@, k, x) <==> depends(dep0, k, x) && !(x == s
                        && items.take(i as int).contains(k)),
            decreases n - i,
        {
            proof {
                lemma_take_contains(items, i as int);
            }
            let k = *keys.at(i);
            let ghost dep1 = self.dependents@;
            if let Some(mut set) = self.dependents.take(&k) {
                set.remove(&s);
                let none = set.is_empty();
                let ghost sv = set@;
                if !none {
                    self.dependents.insert(k, set);
                }
                proof {
                    assert forall|q: GraphKey, x: NodeId| #[trigger] depends(
                        self.dependents@,
                        q,
                        x,
                    ) == (depends(dep1, q, x) && !(q == k && x == s)) by {
                        if q == k {
                            assert(sv.contains(x) == (dep1[k].contains(x) && x != s));
                            if none {
                                assert(!sv.contains(x));
                            }
                        }
                    }
                }
            } else {
                proof {
                    assert forall|q: GraphKey, x: NodeId| #[trigger] depends(
                        self.dependents@,
                        q,
                        x,
                    ) == (depends(dep1, q, x) && !(q == k && x == s)) by {
                    }
                }
            }
            i += 1;
        }
        proof {
            assert(items.take(n as int) =~= items);
            assert forall|k: GraphKey, x: NodeId| #[trigger] depends(self.dependents@, k, x)
                == supports(self.supports@, x, k) by {
                assert(depends(dep0, k, x) == supports(sup0, x, k));
                if x == s && sup0.contains_key(s) {
                    assert(keys@.contains(k) == items.contains(k));
                }
            }
        }
    }
}

/// Whether a touched key makes `x` a subject to judge anew.
spec fn key_concerns(
    m: MaintainedModel,
    s: SnapshotModel,
    ty: FieldId,
    k: GraphKey,
    x: NodeId,
) -> bool {
    depends(m.dependents, k, x) || (x == k.0 && typed(s, ty).contains(x) && !m.verdicts.contains_key(
        x,
    ))
}

/// Whether the maintained verdicts are those of a full evaluation of the snapshot, each with the
/// support of its judgment.
pub open spec fn up_to_date(
    m: MaintainedModel,
    s: SnapshotModel,
    names: Seq<Seq<char>>,
    ty: FieldId,
) -> bool {
    &&& m.verdicts == Map::new(
        |x: NodeId| typed(s, ty).contains(x),
        |x: NodeId| judged(s, names, m.rule, x),
    )
    &&& m.supports == Map::new(
        |x: NodeId| typed(s, ty).contains(x),
        |x: NodeId| judged_keys(s, names, m.rule, x),
    )
}

/// Maintenance is evaluation: where the verdicts were those of a full evaluation of the old
/// snapshot, and the new snapshot differs from it only at the touched keys and nodes, judging anew
/// what those concern gives the verdicts of a full evaluation of the new snapshot.
pub proof fn law_maintained_is_evaluated(
    m: MaintainedModel,
    a: SnapshotModel,
    b: SnapshotModel,
    names: Seq<Seq<char>>,
    ty: FieldId,
    keys: Set<GraphKey>,
    nodes: Set<NodeId>,
)
    requires
        inverse(m.dependents, m.supports),
        up_to_date(m, a, names, ty),
        forall|k: GraphKey| !(#[trigger] keys.contains(k)) ==> reads_alike(a, b, k),
        forall|n: NodeId|
            !(#[trigger] nodes.contains(n)) ==> typed(a, ty).contains(n) == typed(b, ty).contains(
                n,
            ),
    ensures
        up_to_date(judged_anew(m, b, names, ty, rejudged(m, b, ty, keys, nodes)), b, names, ty),
{
    let c = rejudged(m, b, ty, keys, nodes);
    let g = judged_anew(m, b, names, ty, c);
    assert forall|x: NodeId| !(#[trigger] c.contains(x)) implies typed(a, ty).contains(x) == typed(
        b,
        ty,
    ).contains(x) && (typed(a, ty).contains(x) ==> judged(a, names, m.rule, x) == judged(
        b,
        names,
        m.rule,
        x,
    ) && judged_keys(a, names, m.rule, x) == judged_keys(b, names, m.rule, x)) by {
        if typed(a, ty).contains(x) {
            assert(m.verdicts.contains_key(x));
            assert(!nodes.contains(x));
            assert forall|k: GraphKey| #[trigger]
                judged_keys(a, names, m.rule, x).contains(k) implies reads_alike(a, b, k) by {
                assert(supports(m.supports, x, k));
                assert(depends(m.dependents, k, x));
                if keys.contains(k) {
                    assert(c.contains(x));
                }
            }
            law_verdict_rests_on_reads(a, b, names, m.rule, x);
        } else if nodes.contains(x) {
            assert(!typed(b, ty).contains(x));
        }
    }
    assert(g.verdicts =~= Map::new(
        |x: NodeId| typed(b, ty).contains(x),
        |x: NodeId| judged(b, names, m.rule, x),
    ));
    assert(g.supports =~= Map::new(
        |x: NodeId| typed(b, ty).contains(x),
        |x: NodeId| judged_keys(b, names, m.rule, x),
    ));
}

/// Verdicts by their subjects.
pub open spec fn by_subject(vs: Seq<VerdictModel>) -> Map<NodeId, VerdictModel> {
    Map::new(
        |x: NodeId| exists|i: int| 0 <= i < vs.len() && (#[trigger] vs[i]).subject == x,
        |x: NodeId| vs[choose|i: int| 0 <= i < vs.len() && (#[trigger] vs[i]).subject == x],
    )
}

/// The verdicts of a full evaluation with all labels, by their subjects.
pub open spec fn full(s: SnapshotModel, names: Seq<Seq<char>>, r: RuleModel) -> Map<
    NodeId,
    VerdictModel,
> {
    by_subject(evaluated(s, names, r, u32::MAX))
}

/// All labels see everything.
proof fn lemma_all_labels(s: SnapshotModel, ty: FieldId)
    requires
        labels_fit(s),
    ensures
        typed_visible(s, ty, u32::MAX) == typed(s, ty),
{
    assert forall|n: NodeId| #[trigger] s.node_labels.contains_key(n) implies allows(
        u32::MAX,
        s.node_labels[n],
    ) by {
        let l = s.node_labels[n] as u32;
        assert((0xffff_ffffu32 >> l) & 1 == 1) by (bit_vector)
            requires
                l < 32,
        ;
    }
    assert(typed_visible(s, ty, u32::MAX) =~= typed(s, ty));
}

proof fn lemma_typed_finite(s: SnapshotModel, ty: FieldId)
    requires
        s.node_types.dom().finite(),
    ensures
        typed(s, ty).finite(),
{
    assert(typed(s, ty).subset_of(s.node_types.dom()));
    vstd::set_lib::lemma_len_subset(typed(s, ty), s.node_types.dom());
}

/// A subject type without a name has no subjects: nothing is judged, in full or by maintenance, which
/// then changes nothing.
pub proof fn law_unnamed_type_is_empty(s: SnapshotModel, names: Seq<Seq<char>>, r: RuleModel)
    requires
        lookup(names, r.subject_type) is None,
    ensures
        full(s, names, r) == Map::<NodeId, VerdictModel>::empty(),
{
    assert(full(s, names, r) =~= Map::<NodeId, VerdictModel>::empty());
}

/// Verdicts that are up to date are those of a full evaluation with all labels.
pub proof fn law_up_to_date_is_full(
    m: MaintainedModel,
    s: SnapshotModel,
    names: Seq<Seq<char>>,
    ty: FieldId,
)
    requires
        labels_fit(s),
        s.node_types.dom().finite(),
        lookup(names, m.rule.subject_type) == Some(ty),
        up_to_date(m, s, names, ty),
    ensures
        m.verdicts == full(s, names, m.rule),
{
    lemma_all_labels(s, ty);
    lemma_typed_finite(s, ty);
    let items = sorted_items::<NodeId>(typed(s, ty));
    lemma_sorted_items::<NodeId>(typed(s, ty));
    let vs = evaluated(s, names, m.rule, u32::MAX);
    assert forall|i: int| 0 <= i < vs.len() implies (#[trigger] vs[i]) == judged(
        s,
        names,
        m.rule,
        items[i],
    ) && vs[i].subject == items[i] by {}
    let f = full(s, names, m.rule);
    assert forall|x: NodeId|
        #![trigger f.dom().contains(x)]
        #![trigger m.verdicts.dom().contains(x)]
        f.dom().contains(x) == m.verdicts.dom().contains(x) && (f.dom().contains(x) ==> f[x]
            == m.verdicts[x]) by {
        if f.contains_key(x) {
            let i = choose|i: int| 0 <= i < vs.len() && (#[trigger] vs[i]).subject == x;
            assert(items.to_set().contains(items[i]));
            assert(vs[i].subject == items[i]);
        }
        if m.verdicts.contains_key(x) {
            assert(items.to_set().contains(x));
            let i = choose|i: int| 0 <= i < items.len() && items[i] == x;
            assert(vs[i].subject == x);
        }
    }
    assert(m.verdicts =~= f);
}

/// The changes are exact: ascending by subject, one for each subject whose verdict differs, with the
/// two verdicts, and none for any other.
pub proof fn law_changes_are_exact(
    before: Map<NodeId, VerdictModel>,
    after: Map<NodeId, VerdictModel>,
    c: Set<NodeId>,
)
    requires
        c.finite(),
        forall|x: NodeId| !(#[trigger] c.contains(x)) ==> verdict_at(before, x) == verdict_at(after, x),
    ensures
        exact_changes(
            before,
            after,
            verdict_changes(before, after, sorted_items::<NodeId>(c)),
        ),
{
    let items = sorted_items::<NodeId>(c);
    lemma_sorted_items::<NodeId>(c);
    lemma_changes(before, after, items);
    let d = verdict_changes(before, after, items);
    assert forall|x: NodeId| verdict_at(before, x) != verdict_at(after, x) implies #[trigger]
    changes_at(d, x) by {
        assert(c.contains(x));
        assert(items.to_set().contains(x));
        assert(items.contains(x));
    }
}

/// Whether some change is of the subject `x`.
pub open spec fn changes_at(d: Seq<VerdictDiffModel>, x: NodeId) -> bool {
    exists|i: int| 0 <= i < d.len() && (#[trigger] d[i]).0 == x
}

/// Whether changes are exactly those between two verdict maps, ascending by subject.
pub open spec fn exact_changes(
    before: Map<NodeId, VerdictModel>,
    after: Map<NodeId, VerdictModel>,
    d: Seq<VerdictDiffModel>,
) -> bool {
    &&& forall|i: int, j: int| 0 <= i < j < d.len() ==> (#[trigger] d[i]).0 < (#[trigger] d[j]).0
    &&& forall|i: int|
        0 <= i < d.len() ==> (#[trigger] d[i]).1 == verdict_at(before, d[i].0) && d[i].2
            == verdict_at(after, d[i].0) && d[i].1 != d[i].2
    &&& forall|x: NodeId|
        verdict_at(before, x) != verdict_at(after, x) ==> #[trigger] changes_at(d, x)
}

proof fn lemma_changes(
    before: Map<NodeId, VerdictModel>,
    after: Map<NodeId, VerdictModel>,
    items: Seq<NodeId>,
)
    requires
        forall|i: int, j: int|
            0 <= i < j < items.len() ==> u64::before(#[trigger] items[i], #[trigger] items[j]),
    ensures
        ({
            let d = verdict_changes(before, after, items);
            &&& forall|i: int| 0 <= i < d.len() ==> items.contains((#[trigger] d[i]).0)
            &&& forall|i: int, j: int|
                0 <= i < j < d.len() ==> (#[trigger] d[i]).0 < (#[trigger] d[j]).0
            &&& forall|i: int|
                0 <= i < d.len() ==> (#[trigger] d[i]).1 == verdict_at(before, d[i].0) && d[i].2
                    == verdict_at(after, d[i].0) && d[i].1 != d[i].2
            &&& forall|x: NodeId|
                items.contains(x) && verdict_at(before, x) != verdict_at(after, x) ==> #[trigger]
                changes_at(d, x)
        }),
    decreases items.len(),
{
    if items.len() > 0 {
        let init = items.drop_last();
        let z = items.last();
        lemma_changes(before, after, init);
        let d0 = verdict_changes(before, after, init);
        let d = verdict_changes(before, after, items);
        assert forall|i: int| 0 <= i < d0.len() implies items.contains((#[trigger] d0[i]).0)
            && d0[i].0 < z by {
            let j = choose|j: int| 0 <= j < init.len() && init[j] == d0[i].0;
            assert(items[j] == d0[i].0);
            assert(u64::before(items[j], items[items.len() - 1]));
        }
        assert(items[items.len() - 1] == z);
        assert forall|x: NodeId|
            items.contains(x) && verdict_at(before, x) != verdict_at(after, x) implies #[trigger]
        changes_at(d, x) by {
            if x == z {
                assert(d[d.len() - 1].0 == z);
            } else {
                let j = choose|j: int| 0 <= j < items.len() && items[j] == x;
                assert(init[j] == x);
                assert(changes_at(d0, x));
                let i = choose|i: int| 0 <= i < d0.len() && (#[trigger] d0[i]).0 == x;
                assert(d[i].0 == x);
            }
        }
    }
}

/// The correctness of maintenance, by evaluation: where the verdicts were those of a full evaluation
/// of the old snapshot with all labels, they are those of one of the new snapshot, and the changes
/// are exactly the subjects whose verdict differs between the two evaluations.
pub proof fn law_maintained_matches_evaluation(
    m: MaintainedModel,
    a: SnapshotModel,
    b: SnapshotModel,
    names: Seq<Seq<char>>,
    ty: FieldId,
    keys: Set<GraphKey>,
    nodes: Set<NodeId>,
)
    requires
        labels_fit(a),
        labels_fit(b),
        a.node_types.dom().finite(),
        b.node_types.dom().finite(),
        lookup(names, m.rule.subject_type) == Some(ty),
        inverse(m.dependents, m.supports),
        up_to_date(m, a, names, ty),
        forall|k: GraphKey| !(#[trigger] keys.contains(k)) ==> reads_alike(a, b, k),
        forall|n: NodeId|
            !(#[trigger] nodes.contains(n)) ==> typed(a, ty).contains(n) == typed(b, ty).contains(
                n,
            ),
    ensures
        ({
            let c = rejudged(m, b, ty, keys, nodes);
            let g = judged_anew(m, b, names, ty, c);
            &&& m.verdicts == full(a, names, m.rule)
            &&& g.verdicts == full(b, names, m.rule)
            &&& exact_changes(
                full(a, names, m.rule),
                full(b, names, m.rule),
                verdict_changes(m.verdicts, g.verdicts, sorted_items::<NodeId>(c)),
            )
        }),
{
    let c = rejudged(m, b, ty, keys, nodes);
    let g = judged_anew(m, b, names, ty, c);
    law_maintained_is_evaluated(m, a, b, names, ty, keys, nodes);
    law_up_to_date_is_full(m, a, names, ty);
    law_up_to_date_is_full(g, b, names, ty);
    lemma_typed_finite(a, ty);
    lemma_typed_finite(b, ty);
    let all = typed(a, ty).union(typed(b, ty));
    assert forall|x: NodeId| #[trigger] c.contains(x) implies all.contains(x) by {
        if exists|k: GraphKey| keys.contains(k) && #[trigger] depends(m.dependents, k, x) {
            let k = choose|k: GraphKey| keys.contains(k) && #[trigger] depends(m.dependents, k, x);
            assert(supports(m.supports, x, k));
        }
    }
    vstd::set_lib::lemma_len_subset(c, all);
    assert forall|x: NodeId| !(#[trigger] c.contains(x)) implies verdict_at(m.verdicts, x)
        == verdict_at(g.verdicts, x) by {}
    law_changes_are_exact(m.verdicts, g.verdicts, c);
}

/// What maintenance does with each subject. One that is of the type is judged anew where its node was
/// touched, where its last judgment looked at a touched key, and, not having a verdict yet, where any
/// key of its own was touched; it then has the verdict of the snapshot. One that was touched and is
/// not of the type any more has none. Every other keeps what it had.
pub proof fn law_maintenance_by_subject(
    m: MaintainedModel,
    s: SnapshotModel,
    names: Seq<Seq<char>>,
    ty: FieldId,
    keys: Set<GraphKey>,
    nodes: Set<NodeId>,
    x: NodeId,
)
    requires
        inverse(m.dependents, m.supports),
    ensures
        ({
            let after = judged_anew(m, s, names, ty, rejudged(m, s, ty, keys, nodes)).verdicts;
            let subject = s.node_types.contains_key(x) && s.node_types[x] == ty;
            let relied = exists|k: GraphKey|
                keys.contains(k) && m.supports.contains_key(x) && #[trigger] m.supports[x].contains(
                    k,
                );
            let late = !m.verdicts.contains_key(x) && exists|k: GraphKey| #[trigger]
                keys.contains(k) && k.0 == x;
            &&& subject && (nodes.contains(x) || relied || late) ==> after.contains_key(x)
                && after[x] == judged(s, names, m.rule, x)
            &&& !subject && (nodes.contains(x) || relied) ==> !after.contains_key(x)
            &&& !nodes.contains(x) && !relied && !(subject && late) ==> {
                &&& after.contains_key(x) == m.verdicts.contains_key(x)
                &&& after.contains_key(x) ==> after[x] == m.verdicts[x]
            }
        }),
{
    let c = rejudged(m, s, ty, keys, nodes);
    if exists|k: GraphKey|
        keys.contains(k) && m.supports.contains_key(x) && #[trigger] m.supports[x].contains(k) {
        let k = choose|k: GraphKey|
            keys.contains(k) && m.supports.contains_key(x) && #[trigger] m.supports[x].contains(k);
        assert(supports(m.supports, x, k));
        assert(depends(m.dependents, k, x));
        assert(c.contains(x));
    }
    if exists|k: GraphKey| keys.contains(k) && #[trigger] depends(m.dependents, k, x) {
        let k = choose|k: GraphKey| keys.contains(k) && #[trigger] depends(m.dependents, k, x);
        assert(supports(m.supports, x, k));
        assert(m.supports[x].contains(k));
    }
}

} // verus!
