//! Point reads over a snapshot: current values, valid-time as-of values, provenance, confidence and
//! edge properties. Expansion along edges is in [`graph`].
pub mod graph;
pub mod laws;
pub mod stored;

pub use graph::{
    describe, edge_strengths, expand, expand_asof, expand_rel, expand_rel_asof, expand_set,
    neighbors, two_hop, undirected_adjacency,
};

use crate::fact::{FieldId, NodeId};
use crate::fold::model::{at_or, GraphKey, RowModel, SnapshotModel};
use crate::fold::{ObjKey, Snapshot, VersionRow};
use crate::objkey::{older, ObjModel};
use crate::order::{Dup, Key};
use crate::ordmap::{OrdMap, OrdSet};
use vstd::prelude::*;

verus! {

/// The current value of a register.
pub open spec fn current_one(s: SnapshotModel, k: GraphKey) -> Option<ObjModel> {
    at_or(s.one, k, None)
}

/// The current value of a register; `None` where it was never set or is closed.
pub fn point_one(snap: &Snapshot, subject: NodeId, predicate: FieldId) -> (r: Option<ObjKey>)
    ensures
        r.deep_view() == current_one(snap@, (subject, predicate)),
{
    match snap.one.get(&(subject, predicate)) {
        Some(v) => v.dup(),
        None => None,
    }
}

/// Whether a row's interval covers the instant `at`.
pub open spec fn covers(row: RowModel, at: i64) -> bool {
    row.2 <= at && (row.3 matches Some(to) ==> at < to)
}

/// Whether row `a` wins over row `b`: the later start, then the later write.
pub open spec fn beats(a: RowModel, b: RowModel) -> bool {
    b.2 < a.2 || (a.2 == b.2 && older(b.0, a.0))
}

/// Whether the row at `i` is the one in effect at `at`: it covers `at`, and no covering row wins
/// over it; of equal rows the last counts.
pub open spec fn is_winner(rows: Seq<RowModel>, at: i64, i: int) -> bool {
    &&& 0 <= i < rows.len()
    &&& covers(rows[i], at)
    &&& forall|j: int|
        0 <= j < rows.len() && covers(#[trigger] rows[j], at) ==> if j <= i {
            !beats(rows[j], rows[i])
        } else {
            beats(rows[i], rows[j])
        }
}

/// The row in effect at `at`.
pub open spec fn winner(rows: Seq<RowModel>, at: i64) -> Option<RowModel> {
    if exists|i: int| is_winner(rows, at, i) {
        Some(rows[choose|i: int| is_winner(rows, at, i)])
    } else {
        None
    }
}

/// At most one row is in effect.
proof fn lemma_winner(rows: Seq<RowModel>, at: i64, i: int)
    requires
        is_winner(rows, at, i),
    ensures
        winner(rows, at) == Some(rows[i]),
{
    let j = choose|j: int| is_winner(rows, at, j);
    assert(is_winner(rows, at, j));
    if i < j {
        assert(covers(rows[j], at));
        assert(beats(rows[i], rows[j]));
        assert(!beats(rows[i], rows[j]));
    } else if j < i {
        assert(covers(rows[i], at));
        assert(beats(rows[j], rows[i]));
        assert(!beats(rows[j], rows[i]));
    }
}

spec fn best_of(rows: Seq<RowModel>, at: i64, n: int) -> int
    decreases n,
{
    if n <= 0 {
        -1
    } else {
        let b = best_of(rows, at, n - 1);
        if covers(rows[n - 1], at) && (b < 0 || !beats(rows[b], rows[n - 1])) {
            n - 1
        } else {
            b
        }
    }
}

proof fn lemma_best_of(rows: Seq<RowModel>, at: i64, n: int)
    requires
        0 <= n <= rows.len(),
    ensures
        ({
            let b = best_of(rows, at, n);
            if b < 0 {
                forall|j: int| 0 <= j < n ==> !covers(#[trigger] rows[j], at)
            } else {
                &&& b < n
                &&& covers(rows[b], at)
                &&& forall|j: int|
                    0 <= j < n && covers(#[trigger] rows[j], at) ==> if j <= b {
                        !beats(rows[j], rows[b])
                    } else {
                        beats(rows[b], rows[j])
                    }
            }
        }),
    decreases n,
{
    if n > 0 {
        lemma_best_of(rows, at, n - 1);
    }
}

/// Where some row covers an instant, some row is in effect then; where none does, none is.
pub proof fn law_covered_instants(rows: Seq<RowModel>, at: i64)
    ensures
        winner(rows, at) is Some <==> exists|i: int|
            0 <= i < rows.len() && covers(#[trigger] rows[i], at),
        winner(rows, at) matches Some(row) ==> covers(row, at) && forall|j: int|
            0 <= j < rows.len() && covers(#[trigger] rows[j], at) ==> row.2 >= rows[j].2,
{
    let n = rows.len() as int;
    lemma_best_of(rows, at, n);
    let b = best_of(rows, at, n);
    if b >= 0 {
        assert(is_winner(rows, at, b));
        lemma_winner(rows, at, b);
    } else if winner(rows, at) is Some {
        let i = choose|i: int| is_winner(rows, at, i);
        assert(covers(rows[i], at));
    }
}

/// Whether the interval of a row covers `at`.
fn row_covers(row: &VersionRow, at: i64) -> (r: bool)
    ensures
        r == covers(row.deep_view(), at),
{
    row.2 <= at && match row.3 {
        Some(to) => at < to,
        None => true,
    }
}

fn row_beats(a: &VersionRow, b: &VersionRow) -> (r: bool)
    ensures
        r == beats(a.deep_view(), b.deep_view()),
{
    b.2 < a.2 || (a.2 == b.2 && b.0.precedes(&a.0))
}

/// The row in effect at `at`.
fn winner_at(rows: &Vec<VersionRow>, at: i64) -> (r: Option<&VersionRow>)
    ensures
        r is Some == winner(rows.deep_view(), at) is Some,
        r matches Some(row) ==> winner(rows.deep_view(), at) == Some(row.deep_view()),
{
    let ghost m = rows.deep_view();
    let mut best: Option<usize> = None;
    let mut i: usize = 0;
    while i < rows.len()
        invariant
            i <= rows.len(),
            m == rows.deep_view(),
            best is None ==> forall|j: int| 0 <= j < i ==> !covers(#[trigger] m[j], at),
            best matches Some(b) ==> b < i && covers(m[b as int], at) && (forall|j: int|
                0 <= j < i && covers(#[trigger] m[j], at) ==> if j <= b {
                    !beats(m[j], m[b as int])
                } else {
                    beats(m[b as int], m[j])
                }),
        decreases rows.len() - i,
    {
        let row = &rows[i];
        assert(row.deep_view() == m[i as int]);
        if row_covers(row, at) {
            match best {
                None => {
                    best = Some(i);
                },
                Some(b) => {
                    assert(rows@[b as int].deep_view() == m[b as int]);
                    if !row_beats(&rows[b], row) {
                        best = Some(i);
                    }
                },
            }
        }
        i += 1;
    }
    match best {
        None => {
            assert(winner(m, at) is None) by {
                if exists|i: int| is_winner(m, at, i) {
                    let j = choose|j: int| is_winner(m, at, j);
                    assert(covers(m[j], at));
                }
            }
            None
        },
        Some(b) => {
            proof {
                assert(is_winner(m, at, b as int));
                lemma_winner(m, at, b as int);
            }
            Some(&rows[b])
        },
    }
}

/// The value of a register in effect at `at`.
pub open spec fn one_at(s: SnapshotModel, k: GraphKey, at: i64) -> Option<ObjModel> {
    match winner(at_or(s.one_history, k, Seq::empty()), at) {
        Some(row) => row.1,
        None => None,
    }
}

proof fn lemma_no_rows_no_winner(at: i64)
    ensures
        winner(Seq::<RowModel>::empty(), at) is None,
{
}

/// The value of a register in effect at valid time `at`: of the rows whose interval covers `at` the
/// one with the latest start, and of those the latest write. `None` where no row covers `at`, or
/// the row in effect is a close.
pub fn point_one_asof(snap: &Snapshot, subject: NodeId, predicate: FieldId, at: i64) -> (r: Option<
    ObjKey,
>)
    ensures
        r.deep_view() == one_at(snap@, (subject, predicate), at),
{
    proof {
        lemma_no_rows_no_winner(at);
    }
    match snap.one_history.get(&(subject, predicate)) {
        None => None,
        Some(rows) => match winner_at(rows, at) {
            Some(row) => row.1.dup(),
            None => None,
        },
    }
}

/// The winning row of a register: its latest write.
pub open spec fn head_row(s: SnapshotModel, k: GraphKey) -> Option<RowModel> {
    let rows = at_or(s.one_history, k, Seq::empty());
    if rows.len() > 0 {
        Some(rows.last())
    } else {
        None
    }
}

/// The winning row of a register.
pub fn point_one_head(snap: &Snapshot, subject: NodeId, predicate: FieldId) -> (r: Option<
    &VersionRow,
>)
    ensures
        r is Some == head_row(snap@, (subject, predicate)) is Some,
        r matches Some(row) ==> head_row(snap@, (subject, predicate)) == Some(row.deep_view()),
{
    match snap.one_history.get(&(subject, predicate)) {
        None => None,
        Some(rows) => if rows.len() > 0 {
            assert(rows.deep_view().last() == rows@.last().deep_view());
            Some(&rows[rows.len() - 1])
        } else {
            None
        },
    }
}

/// The source of the winning row; 0 stands for an unset source.
pub fn point_one_source(snap: &Snapshot, subject: NodeId, predicate: FieldId) -> (r: Option<FieldId>)
    ensures
        r == match head_row(snap@, (subject, predicate)) {
            Some(row) => Some(row.0.source),
            None => None,
        },
{
    match point_one_head(snap, subject, predicate) {
        Some(row) => Some(row.0.source),
        None => None,
    }
}

/// The start of validity of the winning row.
pub fn point_one_valid_from(snap: &Snapshot, subject: NodeId, predicate: FieldId) -> (r: Option<
    i64,
>)
    ensures
        r == match head_row(snap@, (subject, predicate)) {
            Some(row) => Some(row.2),
            None => None,
        },
{
    match point_one_head(snap, subject, predicate) {
        Some(row) => Some(row.2),
        None => None,
    }
}

/// The start of validity of the winning row where that row is a close: tells a register that was
/// ended from one that was never set.
pub fn point_one_closed_from(snap: &Snapshot, subject: NodeId, predicate: FieldId) -> (r: Option<
    i64,
>)
    ensures
        r == match head_row(snap@, (subject, predicate)) {
            Some(row) => if row.1 is None {
                Some(row.2)
            } else {
                None
            },
            None => None,
        },
{
    match point_one_head(snap, subject, predicate) {
        Some(row) => if row.1.is_none() {
            Some(row.2)
        } else {
            None
        },
        None => None,
    }
}

/// A coarse confidence tier.
#[derive(Clone, Copy, Debug, PartialEq, Eq, Structural)]
pub enum Tier {
    Low,
    Medium,
    High,
}

impl Tier {
    /// The tier's stable name.
    pub fn as_str(self) -> (r: &'static str)
        ensures
            r@ == match self {
                Tier::Low => "low"@,
                Tier::Medium => "medium"@,
                Tier::High => "high"@,
            },
    {
        match self {
            Tier::Low => "low",
            Tier::Medium => "medium",
            Tier::High => "high",
        }
    }
}

/// What is known of the confidence in a register's current value.
#[derive(Clone, Copy, Debug, PartialEq, Eq, Structural)]
pub struct ConfidenceSignals {
    /// How many distinct sources, apart from the unset one, asserted the current value.
    pub corroboration: usize,
    /// Whether the winning row has a source.
    pub has_source: bool,
    /// How old the winning row is, where a time to measure from was given.
    pub age: Option<i64>,
    pub tier: Tier,
}

/// The sources, apart from the unset one, whose rows carry the object `o`.
pub open spec fn sources_of(rows: Seq<RowModel>, o: Option<ObjModel>) -> Set<FieldId> {
    Set::new(
        |src: FieldId|
            src != 0 && exists|i: int|
                0 <= i < rows.len() && (#[trigger] rows[i]).1 == o && rows[i].0.source == src,
    )
}

/// The tier: low without a source or when stale, high with two sources or more, else medium.
pub open spec fn tier_of(has_source: bool, stale: bool, corroboration: nat) -> Tier {
    if !has_source || stale {
        Tier::Low
    } else if corroboration >= 2 {
        Tier::High
    } else {
        Tier::Medium
    }
}

/// Whether the age of the winning row at `now` is representable.
pub open spec fn age_fits(s: SnapshotModel, k: GraphKey, now: Option<i64>) -> bool {
    match (head_row(s, k), now) {
        (Some(row), Some(n)) => i64::MIN <= n - row.2 <= i64::MAX,
        _ => true,
    }
}

fn same_object(a: &Option<ObjKey>, b: &Option<ObjKey>) -> (r: bool)
    ensures
        r == (a.deep_view() == b.deep_view()),
{
    match (a, b) {
        (None, None) => true,
        (Some(x), Some(y)) => x.same(y),
        _ => false,
    }
}

fn corroborating(rows: &Vec<VersionRow>, o: &Option<ObjKey>) -> (r: usize)
    ensures
        r == sources_of(rows.deep_view(), o.deep_view()).len(),
{
    let ghost m = rows.deep_view();
    let ghost om = o.deep_view();
    let mut seen: OrdSet<FieldId> = OrdSet::new();
    let mut i: usize = 0;
    while i < rows.len()
        invariant
            i <= rows.len(),
            m == rows.deep_view(),
            om == o.deep_view(),
            forall|src: FieldId| #[trigger]
                seen@.contains(src) <==> src != 0 && exists|j: int|
                    0 <= j < i && (#[trigger] m[j]).1 == om && m[j].0.source == src,
        decreases rows.len() - i,
    {
        let row = &rows[i];
        assert(row.deep_view() == m[i as int]);
        let src: FieldId = row.0.source;
        if src != 0 && same_object(&row.1, o) {
            seen.insert(src);
        }
        i += 1;
    }
    assert(seen@ =~= sources_of(m, om));
    seen.len()
}

/// Confidence signals, in numbers of any size.
pub struct SignalsModel {
    pub corroboration: nat,
    pub has_source: bool,
    pub age: Option<i64>,
    pub tier: Tier,
}

impl View for ConfidenceSignals {
    type V = SignalsModel;

    open spec fn view(&self) -> SignalsModel {
        SignalsModel {
            corroboration: self.corroboration as nat,
            has_source: self.has_source,
            age: self.age,
            tier: self.tier,
        }
    }
}

/// The confidence signals of a register's current value: of its winning row, and of the rows that
/// carry the value of that.
pub open spec fn signals_of(
    s: SnapshotModel,
    k: GraphKey,
    now: Option<i64>,
    max_age: Option<i64>,
) -> SignalsModel {
    match head_row(s, k) {
        None => SignalsModel { corroboration: 0, has_source: false, age: None, tier: Tier::Low },
        Some(row) => {
            let has_source = row.0.source != 0;
            let age = match now {
                Some(n) => Some((n - row.2) as i64),
                None => None,
            };
            let corroboration = sources_of(s.one_history[k], row.1).len();
            let stale = age is Some && max_age is Some && age->0 > max_age->0;
            SignalsModel {
                corroboration,
                has_source,
                age,
                tier: tier_of(has_source, stale, corroboration),
            }
        },
    }
}

/// The confidence signals of a register's current value. `corroboration` counts the distinct
/// sources of the live rows that carry the winning value; `age` is known only where `now` is given,
/// and the value is stale where `max_age` is given too and exceeded.
pub fn confidence_signals(
    snap: &Snapshot,
    subject: NodeId,
    predicate: FieldId,
    now: Option<i64>,
    max_age: Option<i64>,
) -> (r: ConfidenceSignals)
    requires
        age_fits(snap@, (subject, predicate), now),
    ensures
        r@ == signals_of(snap@, (subject, predicate), now, max_age),
        ({
            let k = (subject, predicate);
            match head_row(snap@, k) {
                None => r == (ConfidenceSignals {
                    corroboration: 0,
                    has_source: false,
                    age: None,
                    tier: Tier::Low,
                }),
                Some(row) => {
                    &&& r.corroboration == sources_of(snap@.one_history[k], row.1).len()
                    &&& r.has_source == (row.0.source != 0)
                    &&& r.age == match now {
                        Some(n) => Some((n - row.2) as i64),
                        None => None,
                    }
                    &&& r.tier == tier_of(
                        r.has_source,
                        r.age is Some && max_age is Some && r.age->0 > max_age->0,
                        r.corroboration as nat,
                    )
                },
            }
        }),
{
    let rows = match snap.one_history.get(&(subject, predicate)) {
        Some(rows) => rows,
        None => {
            return ConfidenceSignals {
                corroboration: 0,
                has_source: false,
                age: None,
                tier: Tier::Low,
            };
        },
    };
    if rows.len() == 0 {
        return ConfidenceSignals {
            corroboration: 0,
            has_source: false,
            age: None,
            tier: Tier::Low,
        };
    }
    assert(rows.deep_view().last() == rows@.last().deep_view());
    let top = &rows[rows.len() - 1];
    let has_source = top.0.source != 0;
    let corroboration: usize = corroborating(rows, &top.1);
    let age = match now {
        Some(n) => Some(n - top.2),
        None => None,
    };
    let stale = match (age, max_age) {
        (Some(a), Some(m)) => a > m,
        _ => false,
    };
    let tier = if !has_source || stale {
        Tier::Low
    } else if corroboration >= 2 {
        Tier::High
    } else {
        Tier::Medium
    };
    ConfidenceSignals { corroboration, has_source, age, tier }
}

/// The properties of an edge, where it has any.
pub open spec fn props_of(s: SnapshotModel, k: GraphKey, o: ObjModel) -> Option<
    Map<Seq<char>, ObjModel>,
> {
    if s.edge_props.contains_key(k) && s.edge_props[k].contains_key(o) {
        Some(s.edge_props[k][o])
    } else {
        None
    }
}

/// The properties of an edge.
pub fn edge_props<'a>(
    snap: &'a Snapshot,
    subject: NodeId,
    predicate: FieldId,
    object: &ObjKey,
) -> (r: Option<&'a OrdMap<String, ObjKey>>)
    ensures
        r is Some == props_of(snap@, (subject, predicate), object@) is Some,
        r matches Some(m) ==> props_of(snap@, (subject, predicate), object@) == Some(m@),
{
    match snap.edge_props.get(&(subject, predicate)) {
        Some(objs) => objs.get(object),
        None => None,
    }
}

/// One property of an edge.
pub fn edge_prop(
    snap: &Snapshot,
    subject: NodeId,
    predicate: FieldId,
    object: &ObjKey,
    key: &str,
) -> (r: Option<ObjKey>)
    ensures
        r.deep_view() == match props_of(snap@, (subject, predicate), object@) {
            Some(m) => if m.contains_key(key@) {
                Some(m[key@])
            } else {
                None
            },
            None => None,
        },
{
    match edge_props(snap, subject, predicate, object) {
        Some(m) => match m.get(&key.to_owned()) {
            Some(v) => Some(v.dup()),
            None => None,
        },
        None => None,
    }
}

/// The elements of a set at present.
pub open spec fn current_many(s: SnapshotModel, k: GraphKey) -> Set<ObjModel> {
    at_or(s.many, k, Set::empty())
}

/// The elements of a set at present.
pub fn point_many(snap: &Snapshot, subject: NodeId, predicate: FieldId) -> (r: OrdSet<ObjKey>)
    ensures
        r@ == current_many(snap@, (subject, predicate)),
{
    match snap.many.get(&(subject, predicate)) {
        Some(s) => s.dup(),
        None => OrdSet::new(),
    }
}

/// Whether an element with these rows is in effect at `at`: the row in effect is an add.
pub open spec fn elem_at(rows: Seq<RowModel>, at: i64) -> bool {
    winner(rows, at) matches Some(row) && row.1 is Some
}

fn elem_in_effect_at(rows: &Vec<VersionRow>, at: i64) -> (r: bool)
    ensures
        r == elem_at(rows.deep_view(), at),
{
    match winner_at(rows, at) {
        Some(row) => row.1.is_some(),
        None => false,
    }
}

/// The elements of a set in effect at `at`.
pub open spec fn many_at(s: SnapshotModel, k: GraphKey, at: i64) -> Set<ObjModel> {
    Set::new(
        |o: ObjModel|
            s.many_history.contains_key(k) && s.many_history[k].contains_key(o) && elem_at(
                s.many_history[k][o],
                at,
            ),
    )
}

/// The elements of a set in effect at valid time `at`: each by the rule of [`point_one_asof`] over
/// its own rows. A retracted element has no rows and never answers.
pub fn point_many_asof(snap: &Snapshot, subject: NodeId, predicate: FieldId, at: i64) -> (r: OrdSet<
    ObjKey,
>)
    ensures
        r@ == many_at(snap@, (subject, predicate), at),
{
    let mut out: OrdSet<ObjKey> = OrdSet::new();
    let ghost k = (subject, predicate);
    if let Some(elems) = snap.many_history.get(&(subject, predicate)) {
        let n: usize = elems.len();
        let mut i: usize = 0;
        while i < n
            invariant
                i <= n,
                n == elems.rows().len(),
                forall|o: ObjModel| #[trigger]
                    out@.contains(o) <==> exists|j: int|
                        0 <= j < i && (#[trigger] elems.rows()[j]).0 == o && elem_at(
                            elems.rows()[j].1,
                            at,
                        ),
            decreases n - i,
        {
            if elem_in_effect_at(elems.value_at(i), at) {
                out.insert(elems.key_at(i).dup());
            }
            i += 1;
        }
        proof {
            let s = elems.rows();
            assert forall|o: ObjModel| #[trigger] out@.contains(o) == many_at(snap@, k, at).contains(
                o,
            ) by {
                if out@.contains(o) {
                    let j = choose|j: int|
                        0 <= j < n && (#[trigger] s[j]).0 == o && elem_at(s[j].1, at);
                    crate::ordmap::lemma_row::<ObjKey, Seq<RowModel>>(s, j);
                }
                if elems@.contains_key(o) {
                    crate::ordmap::lemma_key_row::<ObjKey, Seq<RowModel>>(s, o);
                    let j = crate::ordmap::row_of(s, o);
                    assert(s[j].0 == o);
                }
            }
        }
    }
    assert(out@ =~= many_at(snap@, k, at));
    out
}

/// The start of validity of an element's greatest row where that row is a close: tells an element
/// that was ended from one that is present or was never written.
pub fn many_closed_from(
    snap: &Snapshot,
    subject: NodeId,
    predicate: FieldId,
    object: &ObjKey,
) -> (r: Option<i64>)
    ensures
        ({
            let k = (subject, predicate);
            let rows = at_or(at_or(snap@.many_history, k, Map::empty()), object@, Seq::empty());
            r == (if rows.len() > 0 && rows.last().1 is None {
                Some(rows.last().2)
            } else {
                None
            })
        }),
{
    match snap.many_history.get(&(subject, predicate)) {
        None => None,
        Some(elems) => match elems.get(object) {
            None => None,
            Some(rows) => {
                if rows.len() == 0 {
                    return None;
                }
                assert(rows.deep_view().last() == rows@.last().deep_view());
                let top = &rows[rows.len() - 1];
                if top.1.is_none() {
                    Some(top.2)
                } else {
                    None
                }
            },
        },
    }
}

} // verus!
