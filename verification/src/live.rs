//! Live queries: registered queries whose result changes are pushed as the graph changes.
use crate::fact::NodeId;
use crate::fold::Snapshot;
use crate::order::Dup;
use crate::ordmap::{lemma_take_contains, OrdSet};
use vstd::prelude::*;

verus! {

/// A change of a result: the nodes that entered, and those that left.
#[derive(Clone, Debug, PartialEq, Eq)]
pub struct Diff {
    pub added: OrdSet<NodeId>,
    pub removed: OrdSet<NodeId>,
}

/// The model of a [`Diff`].
pub struct DiffModel {
    pub added: Set<NodeId>,
    pub removed: Set<NodeId>,
}

impl View for Diff {
    type V = DiffModel;

    open spec fn view(&self) -> DiffModel {
        DiffModel { added: self.added@, removed: self.removed@ }
    }
}

impl Default for Diff {
    fn default() -> (r: Self)
        ensures
            r@.added == Set::<NodeId>::empty(),
            r@.removed == Set::<NodeId>::empty(),
    {
        Diff { added: OrdSet::new(), removed: OrdSet::new() }
    }
}

/// The change from one result to another.
pub open spec fn diff_of(old_set: Set<NodeId>, new_set: Set<NodeId>) -> DiffModel {
    DiffModel { added: new_set.difference(old_set), removed: old_set.difference(new_set) }
}

/// Applying a change to the old result gives the new one, and where it is empty the results are
/// the same.
pub proof fn law_diff_applies(old_set: Set<NodeId>, new_set: Set<NodeId>)
    ensures
        ({
            let d = diff_of(old_set, new_set);
            &&& old_set.difference(d.removed).union(d.added) == new_set
            &&& d.added.disjoint(d.removed)
            &&& (d.added == Set::<NodeId>::empty() && d.removed == Set::<NodeId>::empty()
                <==> old_set == new_set)
        }),
{
    let d = diff_of(old_set, new_set);
    assert(old_set.difference(d.removed).union(d.added) =~= new_set);
    if d.added == Set::<NodeId>::empty() && d.removed == Set::<NodeId>::empty() {
        assert forall|n: NodeId| old_set.contains(n) == new_set.contains(n) by {
            assert(!d.added.contains(n));
            assert(!d.removed.contains(n));
        }
        assert(old_set =~= new_set);
    }
    if old_set == new_set {
        assert(d.added =~= Set::<NodeId>::empty());
        assert(d.removed =~= Set::<NodeId>::empty());
    }
}

fn difference(a: &OrdSet<NodeId>, b: &OrdSet<NodeId>) -> (r: OrdSet<NodeId>)
    ensures
        r@ == a@.difference(b@),
{
    let mut out: OrdSet<NodeId> = OrdSet::new();
    let n: usize = a.len();
    let mut i: usize = 0;
    while i < n
        invariant
            i <= n,
            n == a.items().len(),
            forall|x: NodeId| #[trigger]
                out@.contains(x) <==> a.items().take(i as int).contains(x) && !b@.contains(x),
        decreases n - i,
    {
        proof {
            lemma_take_contains(a.items(), i as int);
        }
        let x: NodeId = *a.at(i);
        if !b.contains(&x) {
            out.insert(x);
        }
        i += 1;
    }
    assert(a.items().take(n as int) =~= a.items());
    assert(out@ =~= a@.difference(b@));
    out
}

impl Diff {
    /// Whether nothing changed.
    pub fn is_empty(&self) -> (r: bool)
        ensures
            r == (self@.added == Set::<NodeId>::empty() && self@.removed
                == Set::<NodeId>::empty()),
    {
        self.added.is_empty() && self.removed.is_empty()
    }

    /// The change from `old_set` to `new_set`.
    pub fn between(old_set: &OrdSet<NodeId>, new_set: &OrdSet<NodeId>) -> (r: Diff)
        ensures
            r@ == diff_of(old_set@, new_set@),
    {
        Diff { added: difference(new_set, old_set), removed: difference(old_set, new_set) }
    }
}

/// The id of a registered query.
pub type QueryId = u64;

/// As many queries are registered as may be.
#[derive(Clone, Copy, Debug, PartialEq, Eq, Structural)]
pub struct AtCapacity;

struct Live<F> {
    id: QueryId,
    eval: F,
    last: OrdSet<NodeId>,
}

/// A registered query: its id, how it is evaluated, and its last result.
pub struct LiveModel<F> {
    pub id: QueryId,
    pub eval: F,
    pub last: Set<NodeId>,
}

/// A bounded registry of live queries. A query is a function from a snapshot to a set of nodes.
pub struct LiveQueries<F: Fn(&Snapshot) -> OrdSet<NodeId>> {
    next: QueryId,
    queries: Vec<Live<F>>,
    max: usize,
}

/// The model of [`LiveQueries`].
pub struct LiveQueriesModel<F> {
    pub next: QueryId,
    pub queries: Seq<LiveModel<F>>,
    pub max: nat,
}

impl<F: Fn(&Snapshot) -> OrdSet<NodeId>> View for LiveQueries<F> {
    type V = LiveQueriesModel<F>;

    closed spec fn view(&self) -> LiveQueriesModel<F> {
        LiveQueriesModel {
            next: self.next,
            queries: live_models(self.queries@),
            max: self.max as nat,
        }
    }
}

spec fn live_models<F>(qs: Seq<Live<F>>) -> Seq<LiveModel<F>> {
    Seq::new(qs.len(), |i: int| LiveModel { id: qs[i].id, eval: qs[i].eval, last: qs[i].last@ })
}

/// Whether a query can evaluate to a set on a snapshot.
pub open spec fn evaluates<F: Fn(&Snapshot) -> OrdSet<NodeId>>(
    eval: F,
    snapshot: &Snapshot,
    set: Set<NodeId>,
) -> bool {
    exists|res: OrdSet<NodeId>| #[trigger] call_ensures(eval, (snapshot,), res) && res@ == set
}

/// The changes to push when the results go from those of `before` to those of `after`: of the
/// queries whose result changed, in registration order.
pub open spec fn pushed<F>(before: Seq<LiveModel<F>>, after: Seq<LiveModel<F>>) -> Seq<
    (QueryId, DiffModel),
>
    decreases before.len(),
{
    if before.len() == 0 || after.len() != before.len() {
        Seq::empty()
    } else {
        let init = pushed(before.drop_last(), after.drop_last());
        if before.last().last == after.last().last {
            init
        } else {
            init.push((before.last().id, diff_of(before.last().last, after.last().last)))
        }
    }
}

/// The models of pushed changes.
pub open spec fn push_models(v: Seq<(QueryId, Diff)>) -> Seq<(QueryId, DiffModel)> {
    Seq::new(v.len(), |i: int| (v[i].0, v[i].1@))
}

/// The queries that are not `id`.
pub open spec fn without<F>(qs: Seq<LiveModel<F>>, id: QueryId) -> Seq<LiveModel<F>>
    decreases qs.len(),
{
    if qs.len() == 0 {
        Seq::empty()
    } else {
        let init = without(qs.drop_last(), id);
        if qs.last().id == id {
            init
        } else {
            init.push(qs.last())
        }
    }
}

/// What holds of every registry: the ids of its queries are distinct and given out already, and
/// there are no more queries than may be.
pub open spec fn registered<F>(m: LiveQueriesModel<F>) -> bool {
    &&& m.queries.len() <= m.max
    &&& forall|i: int| 0 <= i < m.queries.len() ==> (#[trigger] m.queries[i]).id < m.next
    &&& forall|i: int, j: int|
        0 <= i < j < m.queries.len() ==> (#[trigger] m.queries[i]).id != (
        #[trigger] m.queries[j]).id
}

/// The queries left are some of those before, in their order.
proof fn lemma_without<F>(qs: Seq<LiveModel<F>>, id: QueryId, next: QueryId, max: nat)
    requires
        registered(LiveQueriesModel { next, queries: qs, max }),
    ensures
        registered(LiveQueriesModel { next, queries: without(qs, id), max }),
        without(qs, id).len() <= qs.len(),
        forall|i: int|
            0 <= i < without(qs, id).len() ==> (#[trigger] without(qs, id)[i]).id != id
                && qs.contains(without(qs, id)[i]),
    decreases qs.len(),
{
    if qs.len() > 0 {
        let init = qs.drop_last();
        let left = without(init, id);
        lemma_without(init, id, next, max);
        assert forall|i: int| 0 <= i < left.len() implies qs.contains(#[trigger] left[i])
            && left[i].id != qs.last().id by {
            let j = choose|j: int| 0 <= j < init.len() && init[j] == left[i];
            assert(qs[j] == left[i]);
            assert(qs[qs.len() - 1] == qs.last());
        }
        assert(qs.contains(qs.last())) by {
            assert(qs[qs.len() - 1] == qs.last());
        }
    }
}

/// Deregistering takes out exactly the one query that has the id, or none where none has it.
pub proof fn law_deregister_takes_one<F>(m: LiveQueriesModel<F>, id: QueryId)
    requires
        registered(m),
    ensures
        forall|i: int|
            0 <= i < m.queries.len() && (#[trigger] m.queries[i]).id == id ==> without(m.queries, id)
                == m.queries.remove(i),
        (forall|i: int| 0 <= i < m.queries.len() ==> (#[trigger] m.queries[i]).id != id) ==> without(
            m.queries,
            id,
        ) == m.queries,
    decreases m.queries.len(),
{
    let qs = m.queries;
    if qs.len() > 0 {
        let init = qs.drop_last();
        law_deregister_takes_one(LiveQueriesModel { queries: init, ..m }, id);
        assert forall|i: int| 0 <= i < qs.len() && (#[trigger] qs[i]).id == id implies without(qs, id)
            == qs.remove(i) by {
            if i == qs.len() - 1 {
                assert forall|j: int| 0 <= j < init.len() implies (#[trigger] init[j]).id != id by {
                    assert(qs[j].id != qs[i].id);
                }
                assert(qs.remove(i) =~= init);
            } else {
                assert(init[i].id == id);
                assert(qs[i].id != qs[qs.len() - 1].id);
                assert(qs.remove(i) =~= init.remove(i).push(qs.last()));
            }
        }
        if forall|i: int| 0 <= i < qs.len() ==> (#[trigger] qs[i]).id != id {
            assert forall|j: int| 0 <= j < init.len() implies (#[trigger] init[j]).id != id by {
                assert(qs[j].id != id);
            }
            assert(qs[qs.len() - 1].id != id);
            assert(init.push(qs.last()) =~= qs);
        }
    }
}

impl<F: Fn(&Snapshot) -> OrdSet<NodeId>> LiveQueries<F> {
    /// An empty registry for at most `max` queries.
    pub fn new(max: usize) -> (r: Self)
        ensures
            r@.next == 0,
            r@.queries == Seq::<LiveModel<F>>::empty(),
            r@.max == max,
            registered(r@),
    {
        let r = LiveQueries { next: 0, queries: Vec::new(), max };
        assert(r@.queries =~= Seq::<LiveModel<F>>::empty());
        r
    }

    /// The number of registered queries.
    pub fn len(&self) -> (r: usize)
        ensures
            r == self@.queries.len(),
    {
        self.queries.len()
    }

    /// Whether no query is registered.
    pub fn is_empty(&self) -> (r: bool)
        ensures
            r == (self@.queries.len() == 0),
    {
        self.queries.len() == 0
    }

    /// Register a query: its id, and its first result as nodes that entered. Refused where as many
    /// are registered as may be.
    pub fn register(&mut self, snapshot: &Snapshot, eval: F) -> (r: Result<
        (QueryId, Diff),
        AtCapacity,
    >)
        requires
            call_requires(eval, (snapshot,)),
            old(self)@.next < u64::MAX,
        ensures
            registered(old(self)@) ==> registered(final(self)@),
            r is Err == (old(self)@.queries.len() >= old(self)@.max),
            r is Err ==> final(self)@ == old(self)@,
            r matches Ok(x) ==> {
                &&& x.0 == old(self)@.next
                &&& x.1@.removed == Set::<NodeId>::empty()
                &&& evaluates(eval, snapshot, x.1@.added)
                &&& final(self)@ == (LiveQueriesModel {
                    next: (old(self)@.next + 1) as u64,
                    queries: old(self)@.queries.push(
                        LiveModel { id: x.0, eval, last: x.1@.added },
                    ),
                    max: old(self)@.max,
                })
            },
    {
        if self.queries.len() >= self.max {
            return Err(AtCapacity);
        }
        let id: QueryId = self.next;
        self.next = self.next + 1;
        let last = eval(snapshot);
        let initial = Diff { added: last.dup(), removed: OrdSet::new() };
        self.queries.push(Live { id, eval, last });
        assert(self@.queries =~= old(self)@.queries.push(
            LiveModel { id, eval, last: initial@.added },
        ));
        Ok((id, initial))
    }

    /// Take a query out.
    pub fn deregister(&mut self, id: QueryId)
        ensures
            final(self)@ == (LiveQueriesModel {
                queries: without(old(self)@.queries, id),
                ..old(self)@
            }),
            registered(old(self)@) ==> registered(final(self)@),
    {
        let ghost m0 = self@;
        proof {
            if registered(m0) {
                lemma_without(m0.queries, id, m0.next, m0.max);
            }
        }
        let ghost q0 = self@.queries;
        let ghost all = self.queries@;
        let n: usize = self.queries.len();
        let mut rest: Vec<Live<F>> = Vec::new();
        std::mem::swap(&mut rest, &mut self.queries);
        let mut back: Vec<Live<F>> = Vec::new();
        let mut i: usize = 0;
        while i < n
            invariant
                i <= n,
                n == all.len(),
                rest@ == all.take(n - i),
                back.len() == i,
                forall|j: int| 0 <= j < i ==> #[trigger] back@[j] == all[n - 1 - j],
            decreases n - i,
        {
            match rest.pop() {
                Some(q) => {
                    back.push(q);
                },
                None => {},
            }
            assert(rest@ =~= all.take(n - (i + 1)));
            i += 1;
        }
        let mut kept: Vec<Live<F>> = Vec::new();
        let mut j: usize = 0;
        assert(live_models(kept@) =~= Seq::<LiveModel<F>>::empty());
        assert(q0.take(0) =~= Seq::<LiveModel<F>>::empty());
        while j < n
            invariant
                j <= n,
                n == all.len(),
                q0 == live_models(all),
                back.len() == n - j,
                forall|x: int| 0 <= x < n - j ==> #[trigger] back@[x] == all[n - 1 - x],
                live_models(kept@) == without(q0.take(j as int), id),
            decreases n - j,
        {
            let ghost kept0 = live_models(kept@);
            match back.pop() {
                Some(q) => {
                    proof {
                        let t = q0.take(j + 1);
                        assert(t.drop_last() =~= q0.take(j as int));
                        assert(q == all[j as int]);
                        assert(t.last() == q0[j as int]);
                    }
                    if q.id != id {
                        kept.push(q);
                        assert(live_models(kept@) =~= kept0.push(q0[j as int]));
                    }
                },
                None => {},
            }
            j += 1;
        }
        assert(q0.take(n as int) =~= q0);
        self.queries = kept;
    }

    /// Evaluate every query on a new snapshot: the changes of those whose result changed.
    pub fn on_change(&mut self, snapshot: &Snapshot) -> (r: Vec<(QueryId, Diff)>)
        requires
            forall|i: int|
                0 <= i < old(self)@.queries.len() ==> call_requires(
                    (#[trigger] old(self)@.queries[i]).eval,
                    (snapshot,),
                ),
        ensures
            registered(old(self)@) ==> registered(final(self)@),
            final(self)@.next == old(self)@.next,
            final(self)@.max == old(self)@.max,
            final(self)@.queries.len() == old(self)@.queries.len(),
            forall|i: int|
                0 <= i < old(self)@.queries.len() ==> {
                    let a = old(self)@.queries[i];
                    let b = #[trigger] final(self)@.queries[i];
                    &&& b.id == a.id
                    &&& b.eval == a.eval
                    &&& evaluates(a.eval, snapshot, b.last)
                },
            push_models(r@) == pushed(old(self)@.queries, final(self)@.queries),
    {
        let mut out: Vec<(QueryId, Diff)> = Vec::new();
        let ghost q0 = self@.queries;
        let mut i: usize = 0;
        assert(push_models(out@) =~= pushed(q0.take(0), self@.queries.take(0)));
        while i < self.queries.len()
            invariant
                i <= self.queries.len(),
                self.queries.len() == q0.len(),
                self.next == old(self).next,
                self.max == old(self).max,
                forall|x: int|
                    0 <= x < q0.len() ==> call_requires((#[trigger] q0[x]).eval, (snapshot,)),
                forall|x: int|
                    0 <= x < q0.len() ==> (#[trigger] self@.queries[x]).id == q0[x].id
                        && self@.queries[x].eval == q0[x].eval,
                forall|x: int| i <= x < q0.len() ==> #[trigger] self@.queries[x] == q0[x],
                forall|x: int|
                    0 <= x < i ==> evaluates(
                        q0[x].eval,
                        snapshot,
                        (#[trigger] self@.queries[x]).last,
                    ),
                push_models(out@) == pushed(q0.take(i as int), self@.queries.take(i as int)),
            decreases self.queries.len() - i,
        {
            let ghost before = self@.queries;
            let ghost out0 = push_models(out@);
            let q = &self.queries[i];
            assert(before[i as int] == q0[i as int]);
            let fresh = (q.eval)(snapshot);
            assert(evaluates(q0[i as int].eval, snapshot, fresh@));
            let id: QueryId = q.id;
            let diff = Diff::between(&q.last, &fresh);
            proof {
                law_diff_applies(q.last@, fresh@);
            }
            let changed = !diff.is_empty();
            let ghost fv = fresh@;
            let ghost dm = diff@;
            if changed {
                let mut slot = &mut self.queries[i];
                slot.last = fresh;
                out.push((id, diff));
                assert(push_models(out@) =~= out0.push((id, dm)));
            }
            proof {
                assert forall|x: int| 0 <= x < q0.len() && x != i implies
                    #[trigger] self@.queries[x] == before[x] by {
                }
                assert(self@.queries[i as int].last == fv);
                let a = q0.take(i + 1);
                let b = self@.queries.take(i + 1);
                assert(a.drop_last() =~= q0.take(i as int));
                assert(b.drop_last() =~= before.take(i as int));
                assert(a.last() == q0[i as int]);
                assert(b.last() == self@.queries[i as int]);
            }
            i += 1;
        }
        assert(q0.take(i as int) =~= q0);
        assert(self@.queries.take(i as int) =~= self@.queries);
        out
    }
}

/// Whether a change is that of one query: under its id, of exactly the nodes that entered its result
/// and those that left it.
pub open spec fn tells<F>(c: (QueryId, DiffModel), before: LiveModel<F>, after: LiveModel<F>) -> bool {
    &&& c.0 == before.id
    &&& forall|n: NodeId| #[trigger]
        c.1.added.contains(n) <==> after.last.contains(n) && !before.last.contains(n)
    &&& forall|n: NodeId| #[trigger]
        c.1.removed.contains(n) <==> before.last.contains(n) && !after.last.contains(n)
}

/// What is pushed, by the results before and after, is told query by query in the order of
/// registration: of one whose result changed its change, of one whose result is the same nothing.
pub proof fn law_pushed_changes<F>(
    before: Seq<LiveModel<F>>,
    after: Seq<LiveModel<F>>,
    b: LiveModel<F>,
    a: LiveModel<F>,
    later_before: Seq<LiveModel<F>>,
    later_after: Seq<LiveModel<F>>,
)
    requires
        before.len() == after.len(),
        later_before.len() == later_after.len(),
    ensures
        b.last == a.last ==> pushed(seq![b], seq![a]).len() == 0,
        b.last != a.last ==> pushed(seq![b], seq![a]).len() == 1 && tells(
            pushed(seq![b], seq![a])[0],
            b,
            a,
        ),
        pushed(before + later_before, after + later_after) == pushed(before, after) + pushed(
            later_before,
            later_after,
        ),
    decreases later_before.len(),
{
    assert(seq![b].drop_last() =~= Seq::empty());
    assert(pushed(Seq::<LiveModel<F>>::empty(), seq![a].drop_last()).len() == 0);
    let (x, y) = (later_before, later_after);
    if x.len() == 0 {
        assert(before + x =~= before);
        assert(after + y =~= after);
        assert(pushed(before, after) + pushed(x, y) =~= pushed(before, after));
    } else {
        law_pushed_changes(before, after, b, a, x.drop_last(), y.drop_last());
        assert((before + x).drop_last() =~= before + x.drop_last());
        assert((after + y).drop_last() =~= after + y.drop_last());
        assert((before + x).last() == x.last());
        assert((after + y).last() == y.last());
        assert(pushed(before + x, after + y) =~= pushed(before, after) + pushed(x, y));
    }
}

} // verus!
