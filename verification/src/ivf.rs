//! An inverted-file index with product-quantized postings and exact re-ranking.
//!
//! A coarse quantizer parts the vectors into cells; a query probes the cells nearest to it, ranks
//! their postings by a score of their codes, and may rank the best again by the vectors themselves.
//! Numbers stand as the IEEE 754 single-precision bits of numbers that are not negative, whose order
//! is that of the integers. Distances and scores are the caller's to compute, by functions that give
//! the same for the same argument.
use crate::fact::NodeId;
use crate::order::Dup;
use crate::ordmap::OrdMap;
use vstd::prelude::*;

pub mod laws;
pub mod search;

verus! {

/// The most entries of a codebook: a code is one byte.
pub const KSUB: usize = 256;

/// How many cells a two-level probe gathers for each one that it picks.
pub const COARSE_FANOUT: usize = 8;

/// From this many cells on the probe goes by two levels.
pub const TWO_LEVEL_FROM: usize = 512;

/// The bits of positive infinity.
pub const INFINITE: u32 = 0x7f80_0000;

// ---------------------------------------------------------------------------------------------
// Numbers

/// The splitmix64 generator: the same seed gives the same numbers.
pub struct Rng {
    state: u64,
}

/// The state after one step.
pub open spec fn stepped(state: u64) -> u64 {
    state.wrapping_add(0x9E37_79B9_7F4A_7C15)
}

/// The number that a state gives.
pub open spec fn mixed(state: u64) -> u64 {
    let a = (state ^ (state >> 30)).wrapping_mul(0xBF58_476D_1CE4_E5B9);
    let b = (a ^ (a >> 27)).wrapping_mul(0x94D0_49BB_1331_11EB);
    b ^ (b >> 31)
}

impl Rng {
    /// The generator's state.
    pub closed spec fn state(&self) -> u64 {
        self.state
    }

    /// A generator from a seed.
    pub fn new(seed: u64) -> (r: Self)
        ensures
            r.state() == seed,
    {
        Rng { state: seed }
    }

    /// The next number.
    pub fn next_u64(&mut self) -> (r: u64)
        ensures
            final(self).state() == stepped(old(self).state()),
            r == mixed(stepped(old(self).state())),
    {
        self.state = self.state.wrapping_add(0x9E37_79B9_7F4A_7C15);
        let s: u64 = self.state;
        let a: u64 = (s ^ (s >> 30)).wrapping_mul(0xBF58_476D_1CE4_E5B9);
        let b: u64 = (a ^ (a >> 27)).wrapping_mul(0x94D0_49BB_1331_11EB);
        b ^ (b >> 31)
    }

    /// The next number, taken into `0..n`.
    pub fn below(&mut self, n: usize) -> (r: usize)
        requires
            n > 0,
        ensures
            final(self).state() == stepped(old(self).state()),
            r == mixed(stepped(old(self).state())) % (n as u64),
    {
        (self.next_u64() % (n as u64)) as usize
    }
}

/// Whether `r` is the integer square root of `x`.
pub open spec fn is_sqrt(x: int, r: int) -> bool {
    0 <= r && r * r <= x < (r + 1) * (r + 1)
}

/// The integer square root of a number below 2^62.
pub fn isqrt(x: u64) -> (r: u64)
    requires
        x < 0x4000_0000_0000_0000,
    ensures
        is_sqrt(x as int, r as int),
{
    let mut lo: u64 = 0;
    let mut hi: u64 = 0x8000_0000;
    assert(0x8000_0000 * 0x8000_0000 == 0x4000_0000_0000_0000) by (nonlinear_arith);
    while hi - lo > 1
        invariant
            lo < hi <= 0x8000_0000,
            lo * lo <= x < hi * hi,
        decreases hi - lo,
    {
        let mid: u64 = lo + (hi - lo) / 2;
        assert(mid * mid <= 0x4000_0000_0000_0000) by (nonlinear_arith)
            requires
                mid <= 0x8000_0000,
        ;
        if mid * mid <= x {
            lo = mid;
        } else {
            hi = mid;
        }
    }
    assert(hi == lo + 1);
    lo
}

/// How many super-centroids route to a number of cells: none to a few cells, else about the square
/// root.
pub open spec fn supers_for(nlist: int, s: int) -> bool {
    if nlist >= TWO_LEVEL_FROM {
        is_sqrt(nlist, s)
    } else {
        s == 0
    }
}

/// The number of super-centroids for a number of cells.
pub fn super_count(nlist: usize) -> (r: usize)
    requires
        nlist <= u32::MAX,
    ensures
        supers_for(nlist as int, r as int),
{
    if nlist >= TWO_LEVEL_FROM {
        let r: u64 = isqrt(nlist as u64);
        assert(r <= nlist) by (nonlinear_arith)
            requires
                r * r <= nlist,
                nlist >= 1,
        ;
        r as usize
    } else {
        0
    }
}

// ---------------------------------------------------------------------------------------------
// The caller's functions

/// The distances of vectors to a query.
pub type DistFn = spec_fn(Seq<u32>) -> u32;

/// The distances of pairs of vectors.
pub type MetricFn = spec_fn(Seq<u32>, Seq<u32>) -> u32;

/// The distances of a vector's parts to the entries of their codebooks.
pub type PartFn = spec_fn(usize, usize) -> u32;

/// Whether `dist` answers for every vector.
pub open spec fn total_dist<D: Fn(&Vec<u32>) -> u32>(dist: D) -> bool {
    forall|e: &Vec<u32>| call_requires(dist, (e,))
}

/// Whether `dist` computes the distances `m`.
pub open spec fn dist_agrees<D: Fn(&Vec<u32>) -> u32>(dist: D, m: DistFn) -> bool {
    forall|e: Vec<u32>, r: u32| #[trigger] call_ensures(dist, (&e,), r) ==> r == m(e@)
}

/// Whether `dist` answers for all vectors.
pub open spec fn total_metric<D: Fn(&Vec<u32>, &Vec<u32>) -> u32>(dist: D) -> bool {
    forall|u: &Vec<u32>, v: &Vec<u32>| call_requires(dist, (u, v))
}

/// Whether `dist` computes the distances `m`.
pub open spec fn metric_agrees<D: Fn(&Vec<u32>, &Vec<u32>) -> u32>(dist: D, m: MetricFn) -> bool {
    forall|u: Vec<u32>, v: Vec<u32>, r: u32| #[trigger]
        call_ensures(dist, (&u, &v), r) ==> r == m(u@, v@)
}

/// Whether `part` answers for every part and entry.
pub open spec fn total_part<P: Fn(usize, usize) -> u32>(part: P) -> bool {
    forall|j: usize, c: usize| call_requires(part, (j, c))
}

/// Whether `part` computes the distances `m`.
pub open spec fn part_agrees<P: Fn(usize, usize) -> u32>(part: P, m: PartFn) -> bool {
    forall|j: usize, c: usize, r: u32| #[trigger] call_ensures(part, (j, c), r) ==> r == m(j, c)
}

/// How postings are read: their score, the sequence number to stay below, the labels allowed and
/// the nodes to keep.
pub struct Scan<S, L, K> {
    pub score: S,
    pub max_seqno: Option<u64>,
    pub allowed: L,
    pub keep: K,
}

/// The model of a [`Scan`].
pub struct ScanModel {
    pub score: spec_fn(Seq<u8>) -> u32,
    pub max_seqno: Option<u64>,
    pub allowed: spec_fn(u32) -> bool,
    pub keep: spec_fn(NodeId) -> bool,
}

/// Whether a scan's functions always answer.
pub open spec fn total_scan<S: Fn(&Vec<u8>) -> u32, L: Fn(u32) -> bool, K: Fn(NodeId) -> bool>(
    f: Scan<S, L, K>,
) -> bool {
    &&& forall|c: &Vec<u8>| call_requires(f.score, (c,))
    &&& forall|l: u32| call_requires(f.allowed, (l,))
    &&& forall|n: NodeId| call_requires(f.keep, (n,))
}

/// Whether `keep` decides as `m` does.
pub open spec fn keep_agrees<K: Fn(NodeId) -> bool>(keep: K, m: spec_fn(NodeId) -> bool) -> bool {
    forall|n: NodeId, b: bool| #[trigger] call_ensures(keep, (n,), b) ==> b == m(n)
}

/// Whether a scan's functions compute what its model says.
pub open spec fn scan_agrees<S: Fn(&Vec<u8>) -> u32, L: Fn(u32) -> bool, K: Fn(NodeId) -> bool>(
    f: Scan<S, L, K>,
    m: ScanModel,
) -> bool {
    &&& m.max_seqno == f.max_seqno
    &&& forall|c: Vec<u8>, r: u32| #[trigger] call_ensures(f.score, (&c,), r) ==> r == (m.score)(c@)
    &&& forall|l: u32, b: bool| #[trigger] call_ensures(f.allowed, (l,), b) ==> b == (m.allowed)(l)
    &&& keep_agrees(f.keep, m.keep)
}

// ---------------------------------------------------------------------------------------------
// Nearest of a list

/// The first of the least keys below infinity, with its key; the first position where there is none.
pub open spec fn first_min(keys: Seq<u32>) -> (int, u32)
    decreases keys.len(),
{
    if keys.len() == 0 {
        (0, INFINITE)
    } else {
        let best = first_min(keys.drop_last());
        if keys.last() < best.1 {
            (keys.len() - 1, keys.last())
        } else {
            best
        }
    }
}

/// The position that is picked is the nearest: no key is less, and an equal one stands later.
pub proof fn law_first_min(keys: Seq<u32>)
    requires
        keys.len() > 0,
    ensures
        0 <= first_min(keys).0 < keys.len(),
        first_min(keys).1 <= INFINITE,
        forall|i: int| 0 <= i < keys.len() ==> first_min(keys).1 <= #[trigger] keys[i],
        first_min(keys).1 < INFINITE ==> keys[first_min(keys).0] == first_min(keys).1,
        forall|i: int|
            0 <= i < first_min(keys).0 ==> first_min(keys).1 < #[trigger] keys[i],
    decreases keys.len(),
{
    let init = keys.drop_last();
    if init.len() > 0 {
        law_first_min(init);
        assert forall|i: int| 0 <= i < keys.len() implies first_min(keys).1 <= #[trigger] keys[i] by {
            if i < init.len() {
                assert(init[i] == keys[i]);
            }
        }
        assert forall|i: int| 0 <= i < first_min(keys).0 implies first_min(keys).1
            < #[trigger] keys[i] by {
            assert(init[i] == keys[i]);
        }
    } else {
        assert(first_min(init) == (0int, INFINITE));
    }
}

proof fn lemma_first_min_range(keys: Seq<u32>)
    ensures
        0 <= first_min(keys).0,
        keys.len() > 0 ==> first_min(keys).0 < keys.len(),
{
    if keys.len() > 0 {
        law_first_min(keys);
    }
}

// ---------------------------------------------------------------------------------------------
// The index

/// A posting: a vector's code, with what a scan tests.
pub struct Posting {
    pub code: Vec<u8>,
    pub node: NodeId,
    pub seqno: u64,
    pub label: u32,
}

/// The model of a [`Posting`].
pub struct PostingModel {
    pub code: Seq<u8>,
    pub node: NodeId,
    pub seqno: u64,
    pub label: u32,
}

impl View for Posting {
    type V = PostingModel;

    open spec fn view(&self) -> PostingModel {
        PostingModel {
            code: self.code@,
            node: self.node,
            seqno: self.seqno,
            label: self.label,
        }
    }
}

/// The model of a cell.
pub open spec fn postings(cell: Seq<Posting>) -> Seq<PostingModel> {
    Seq::new(cell.len(), |i: int| cell[i]@)
}

/// The model of the cells.
pub open spec fn all_postings(lists: Seq<Vec<Posting>>) -> Seq<Seq<PostingModel>> {
    Seq::new(lists.len(), |i: int| postings(lists[i]@))
}

/// The model of an [`IvfPq`].
#[verifier::ext_equal]
pub struct IvfModel {
    pub dim: nat,
    /// Bytes to a code.
    pub m: nat,
    pub nlist: nat,
    /// Entries of a codebook.
    pub ksub: nat,
    /// The centroids of the cells.
    pub coarse: Seq<Seq<u32>>,
    /// The super-centroids, none where the probe is linear.
    pub supers: Seq<Seq<u32>>,
    /// The cells under each super-centroid.
    pub members: Seq<Seq<u32>>,
    pub lists: Seq<Seq<PostingModel>>,
    /// The vectors as they were received.
    pub rows: Seq<Seq<u32>>,
    /// The row of each node.
    pub row_of: Map<NodeId, u32>,
}

/// How many postings there are.
pub open spec fn total(lists: Seq<Seq<PostingModel>>) -> nat
    decreases lists.len(),
{
    if lists.len() == 0 {
        0
    } else {
        total(lists.drop_last()) + lists.last().len()
    }
}

/// The index: cells of postings, and the vectors themselves.
pub struct IvfPq {
    dim: usize,
    m: usize,
    nlist: usize,
    ksub: usize,
    coarse: Vec<Vec<u32>>,
    super_coarse: Vec<Vec<u32>>,
    super_members: Vec<Vec<u32>>,
    lists: Vec<Vec<Posting>>,
    raw: Vec<Vec<u32>>,
    row_of: OrdMap<NodeId, u32>,
}

impl View for IvfPq {
    type V = IvfModel;

    closed spec fn view(&self) -> IvfModel {
        IvfModel {
            dim: self.dim as nat,
            m: self.m as nat,
            nlist: self.nlist as nat,
            ksub: self.ksub as nat,
            coarse: self.coarse.deep_view(),
            supers: self.super_coarse.deep_view(),
            members: self.super_members.deep_view(),
            lists: all_postings(self.lists@),
            rows: self.raw.deep_view(),
            row_of: self.row_of@,
        }
    }
}

/// Whether an index is trained.
pub open spec fn is_trained(x: IvfModel) -> bool {
    x.coarse.len() > 0
}

/// What every index keeps: as many cells as centroids, members that are cells, and for every posting
/// a row of its node.
pub open spec fn index_wf(x: IvfModel) -> bool {
    &&& x.m > 0
    &&& x.nlist > 0
    &&& x.ksub <= KSUB
    &&& is_trained(x) ==> x.coarse.len() == x.nlist && x.ksub > 0
    &&& x.lists.len() == x.coarse.len()
    &&& x.members.len() == x.supers.len()
    &&& forall|s: int, i: int|
        0 <= s < x.members.len() && 0 <= i < x.members[s].len() ==> (#[trigger] x.members[s][i])
            < x.coarse.len()
    &&& total(x.lists) <= x.rows.len()
    &&& forall|i: int| 0 <= i < x.rows.len() ==> (#[trigger] x.rows[i]).len() == x.dim
    &&& forall|n: NodeId| #[trigger] x.row_of.contains_key(n) ==> x.row_of[n] < x.rows.len()
    &&& forall|c: int, i: int|
        0 <= c < x.lists.len() && 0 <= i < x.lists[c].len() ==> x.row_of.contains_key(
            (#[trigger] x.lists[c][i]).node,
        )
}

/// Cells without postings.
pub open spec fn empty_cells(n: nat) -> Seq<Seq<PostingModel>> {
    Seq::new(n, |i: int| Seq::<PostingModel>::empty())
}

/// The distances of vectors.
pub open spec fn keys_of(dist: DistFn, vs: Seq<Seq<u32>>) -> Seq<u32> {
    Seq::new(vs.len(), |i: int| dist(vs[i]))
}

/// The distances of vectors to one vector.
pub open spec fn keys_to(dist: MetricFn, u: Seq<u32>, vs: Seq<Seq<u32>>) -> Seq<u32> {
    Seq::new(vs.len(), |i: int| dist(u, vs[i]))
}

/// The cells under each super-centroid, where each cell goes to the nearest.
pub open spec fn routed(
    dist: MetricFn,
    coarse: Seq<Seq<u32>>,
    supers: Seq<Seq<u32>>,
) -> Seq<Seq<u32>>
    decreases coarse.len(),
{
    if coarse.len() == 0 {
        Seq::new(supers.len(), |i: int| Seq::<u32>::empty())
    } else {
        let init = routed(dist, coarse.drop_last(), supers);
        let s = first_min(keys_to(dist, coarse.last(), supers)).0;
        init.update(s, init[s].push((coarse.len() - 1) as u32))
    }
}

/// A vector's code: for each part the nearest entry of its codebook.
pub open spec fn code_of(part: PartFn, m: nat, ksub: nat) -> Seq<u8> {
    Seq::new(
        m,
        |j: int|
            first_min(Seq::new(ksub, |c: int| part(j as usize, c as usize))).0 as u8,
    )
}

/// The index with one more vector.
pub open spec fn added(
    x: IvfModel,
    node: NodeId,
    seqno: u64,
    emb: Seq<u32>,
    label: u32,
    cell: int,
    code: Seq<u8>,
) -> IvfModel {
    IvfModel {
        lists: x.lists.update(
            cell,
            x.lists[cell].push(PostingModel { code, node, seqno, label }),
        ),
        rows: x.rows.push(emb),
        row_of: x.row_of.insert(node, x.rows.len() as u32),
        ..x
    }
}

proof fn lemma_total_update(lists: Seq<Seq<PostingModel>>, c: int, p: PostingModel)
    requires
        0 <= c < lists.len(),
    ensures
        total(lists.update(c, lists[c].push(p))) == total(lists) + 1,
    decreases lists.len(),
{
    let u = lists.update(c, lists[c].push(p));
    if c == lists.len() - 1 {
        assert(u.drop_last() =~= lists.drop_last());
    } else {
        lemma_total_update(lists.drop_last(), c, p);
        assert(u.drop_last() =~= lists.drop_last().update(c, lists.drop_last()[c].push(p)));
    }
}

proof fn lemma_total_empty(n: nat)
    ensures
        total(empty_cells(n)) == 0,
    decreases n,
{
    if n > 0 {
        lemma_total_empty((n - 1) as nat);
        assert(empty_cells(n).drop_last() =~= empty_cells((n - 1) as nat));
    }
}

proof fn lemma_inner(v: Vec<Vec<u32>>, i: int)
    requires
        0 <= i < v@.len(),
    ensures
        v.deep_view().len() == v@.len(),
        v.deep_view()[i] == v@[i]@,
{
    assert(v.deep_view()[i] =~= v@[i]@);
}

fn measure_all<D: Fn(&Vec<u32>) -> u32>(dist: &D, vs: &Vec<Vec<u32>>) -> (r: Vec<u32>)
    requires
        total_dist(*dist),
    ensures
        r.len() == vs.len(),
        forall|m: DistFn| #[trigger] dist_agrees(*dist, m) ==> r@ == keys_of(m, vs.deep_view()),
{
    let mut out: Vec<u32> = Vec::new();
    let mut i: usize = 0;
    while i < vs.len()
        invariant
            i <= vs.len(),
            total_dist(*dist),
            out.len() == i,
            forall|j: int| 0 <= j < i ==> call_ensures(*dist, (&vs@[j],), #[trigger] out@[j]),
        decreases vs.len() - i,
    {
        let d: u32 = dist(&vs[i]);
        out.push(d);
        i += 1;
    }
    assert forall|m: DistFn| #[trigger] dist_agrees(*dist, m) implies out@ == keys_of(
        m,
        vs.deep_view(),
    ) by {
        assert forall|j: int| 0 <= j < out.len() implies #[trigger] out@[j] == m(
            vs.deep_view()[j],
        ) by {
            lemma_inner(*vs, j);
        }
        assert(out@ =~= keys_of(m, vs.deep_view()));
    }
    out
}

fn separate_all<D: Fn(&Vec<u32>, &Vec<u32>) -> u32>(
    dist: &D,
    u: &Vec<u32>,
    vs: &Vec<Vec<u32>>,
) -> (r: Vec<u32>)
    requires
        total_metric(*dist),
    ensures
        r.len() == vs.len(),
        forall|m: MetricFn| #[trigger]
            metric_agrees(*dist, m) ==> r@ == keys_to(m, u@, vs.deep_view()),
{
    let mut out: Vec<u32> = Vec::new();
    let mut i: usize = 0;
    while i < vs.len()
        invariant
            i <= vs.len(),
            total_metric(*dist),
            out.len() == i,
            forall|j: int| 0 <= j < i ==> call_ensures(*dist, (u, &vs@[j]), #[trigger] out@[j]),
        decreases vs.len() - i,
    {
        let d: u32 = dist(u, &vs[i]);
        out.push(d);
        i += 1;
    }
    assert forall|m: MetricFn| #[trigger] metric_agrees(*dist, m) implies out@ == keys_to(
        m,
        u@,
        vs.deep_view(),
    ) by {
        assert forall|j: int| 0 <= j < out.len() implies #[trigger] out@[j] == m(
            u@,
            vs.deep_view()[j],
        ) by {
            lemma_inner(*vs, j);
        }
        assert(out@ =~= keys_to(m, u@, vs.deep_view()));
    }
    out
}

/// The nearest of some vectors to one, with its distance.
pub fn nearest_centroid<D: Fn(&Vec<u32>, &Vec<u32>) -> u32>(
    dist: &D,
    u: &Vec<u32>,
    centroids: &Vec<Vec<u32>>,
) -> (r: (usize, u32))
    requires
        total_metric(*dist),
    ensures
        forall|m: MetricFn| #[trigger]
            metric_agrees(*dist, m) ==> (r.0 as int, r.1) == first_min(
                keys_to(m, u@, centroids.deep_view()),
            ),
        centroids.len() > 0 ==> r.0 < centroids.len(),
{
    let keys: Vec<u32> = separate_all(dist, u, centroids);
    proof {
        lemma_first_min_range(keys@);
    }
    pick_min(&keys)
}

fn pick_min(keys: &Vec<u32>) -> (r: (usize, u32))
    ensures
        (r.0 as int, r.1) == first_min(keys@),
{
    let mut best: usize = 0;
    let mut key: u32 = INFINITE;
    let mut i: usize = 0;
    assert(keys@.take(0) =~= Seq::<u32>::empty());
    while i < keys.len()
        invariant
            i <= keys.len(),
            (best as int, key) == first_min(keys@.take(i as int)),
        decreases keys.len() - i,
    {
        proof {
            let t = keys@.take(i + 1);
            assert(t.drop_last() =~= keys@.take(i as int));
            assert(t.last() == keys@[i as int]);
        }
        if keys[i] < key {
            best = i;
            key = keys[i];
        }
        i += 1;
    }
    assert(keys@.take(i as int) =~= keys@);
    (best, key)
}

fn no_postings(n: usize) -> (r: Vec<Vec<Posting>>)
    ensures
        all_postings(r@) == empty_cells(n as nat),
{
    let mut out: Vec<Vec<Posting>> = Vec::new();
    let mut i: usize = 0;
    while i < n
        invariant
            i <= n,
            out.len() == i,
            forall|j: int| 0 <= j < i ==> (#[trigger] out@[j])@ == Seq::<Posting>::empty(),
        decreases n - i,
    {
        out.push(Vec::new());
        i += 1;
    }
    assert forall|j: int| 0 <= j < n implies #[trigger] all_postings(out@)[j]
        == empty_cells(n as nat)[j] by {
        assert(postings(out@[j]@) =~= Seq::<PostingModel>::empty());
    }
    assert(all_postings(out@) =~= empty_cells(n as nat));
    out
}

fn route<D: Fn(&Vec<u32>, &Vec<u32>) -> u32>(
    dist: &D,
    coarse: &Vec<Vec<u32>>,
    supers: &Vec<Vec<u32>>,
) -> (r: Vec<Vec<u32>>)
    requires
        total_metric(*dist),
        coarse.len() <= u32::MAX,
        supers.len() > 0,
    ensures
        forall|m: MetricFn| #[trigger]
            metric_agrees(*dist, m) ==> r.deep_view() == routed(
                m,
                coarse.deep_view(),
                supers.deep_view(),
            ),
        r.len() == supers.len(),
        forall|s: int, i: int|
            0 <= s < r.len() && 0 <= i < r.deep_view()[s].len() ==> (
            #[trigger] r.deep_view()[s][i]) < coarse.len(),
{
    let ghost cs = coarse.deep_view();
    let ghost ss = supers.deep_view();
    let mut out: Vec<Vec<u32>> = Vec::new();
    let mut s: usize = 0;
    while s < supers.len()
        invariant
            s <= supers.len(),
            out.len() == s,
            forall|j: int| 0 <= j < s ==> (#[trigger] out@[j])@ == Seq::<u32>::empty(),
        decreases supers.len() - s,
    {
        out.push(Vec::new());
        s += 1;
    }
    let mut i: usize = 0;
    proof {
        assert(cs.take(0) =~= Seq::<Seq<u32>>::empty());
        assert forall|j: int| 0 <= j < out.len() implies #[trigger] out.deep_view()[j] == Seq::<
            u32,
        >::empty() by {
            lemma_inner(out, j);
        }
        assert(out.deep_view() =~= Seq::new(ss.len(), |i: int| Seq::<u32>::empty()));
    }
    while i < coarse.len()
        invariant
            i <= coarse.len(),
            coarse.len() <= u32::MAX,
            supers.len() > 0,
            total_metric(*dist),
            cs == coarse.deep_view(),
            ss == supers.deep_view(),
            out.len() == supers.len(),
            forall|m: MetricFn| #[trigger]
                metric_agrees(*dist, m) ==> out.deep_view() == routed(m, cs.take(i as int), ss),
            forall|s: int, x: int|
                0 <= s < out.len() && 0 <= x < out.deep_view()[s].len() ==> (
                #[trigger] out.deep_view()[s][x]) < coarse.len(),
        decreases coarse.len() - i,
    {
        let ghost before = out.deep_view();
        let (s, _) = nearest_centroid(dist, &coarse[i], supers);
        proof {
            lemma_inner(out, s as int);
        }
        let ghost o = out;
        let mut row: Vec<u32> = Vec::new();
        std::mem::swap(&mut row, &mut out[s]);
        row.push(i as u32);
        out[s] = row;
        proof {
            assert forall|x: int| 0 <= x < out.len() implies #[trigger] out.deep_view()[x]
                == before.update(s as int, before[s as int].push(i as u32))[x] by {
                lemma_inner(out, x);
                lemma_inner(o, x);
            }
            assert(out.deep_view() =~= before.update(s as int, before[s as int].push(i as u32)));
            assert forall|m: MetricFn| #[trigger] metric_agrees(*dist, m) implies out.deep_view()
                == routed(m, cs.take(i + 1), ss) by {
                let t = cs.take(i + 1);
                assert(t.drop_last() =~= cs.take(i as int));
                assert(t.last() == cs[i as int]);
                lemma_inner(*coarse, i as int);
            }
        }
        i += 1;
    }
    assert(cs.take(i as int) =~= cs);
    out
}

/// A vector to add: its node, the sequence number at which it came, its coordinates, its label.
pub struct Item {
    pub node: NodeId,
    pub seqno: u64,
    pub embedding: Vec<u32>,
    pub label: u32,
}

/// The index with more vectors, added one after the other, each to its cell under its code.
pub open spec fn added_all(
    x: IvfModel,
    items: Seq<Item>,
    cells: Seq<int>,
    codes: Seq<Seq<u8>>,
) -> IvfModel
    decreases items.len(),
{
    if items.len() == 0 {
        x
    } else {
        let n = items.len() - 1;
        let it = items[n];
        added(
            added_all(x, items.drop_last(), cells, codes),
            it.node,
            it.seqno,
            it.embedding@,
            it.label,
            cells[n],
            codes[n],
        )
    }
}

/// The cell whose centroid is nearest to a vector.
pub open spec fn cell_for(x: IvfModel, dist: MetricFn, emb: Seq<u32>) -> int {
    first_min(keys_to(dist, emb, x.coarse)).0
}

/// The cells nearest to some vectors.
pub open spec fn cells_for(x: IvfModel, dist: MetricFn, items: Seq<Item>) -> Seq<int> {
    Seq::new(items.len(), |i: int| cell_for(x, dist, items[i].embedding@))
}

/// Only the cells of the items that are there count.
proof fn lemma_added_all_prefix(
    x: IvfModel,
    items: Seq<Item>,
    a: Seq<int>,
    b: Seq<int>,
    codes: Seq<Seq<u8>>,
)
    requires
        forall|i: int| 0 <= i < items.len() ==> #[trigger] a[i] == b[i],
    ensures
        added_all(x, items, a, codes) == added_all(x, items, b, codes),
    decreases items.len(),
{
    if items.len() > 0 {
        lemma_added_all_prefix(x, items.drop_last(), a, b, codes);
        assert(a[items.len() - 1] == b[items.len() - 1]);
    }
}

/// Adding in bulk is adding one after the other: the last vector goes to the cell that is nearest to
/// it in the index with all before it.
pub proof fn law_batch_is_serial(
    x: IvfModel,
    dist: MetricFn,
    items: Seq<Item>,
    codes: Seq<Seq<u8>>,
)
    requires
        items.len() > 0,
    ensures
        ({
            let init = items.drop_last();
            let before = added_all(x, init, cells_for(x, dist, init), codes);
            let it = items.last();
            added_all(x, items, cells_for(x, dist, items), codes) == added(
                before,
                it.node,
                it.seqno,
                it.embedding@,
                it.label,
                cell_for(before, dist, it.embedding@),
                codes[items.len() - 1],
            )
        }),
{
    let init = items.drop_last();
    lemma_added_all_prefix(x, init, cells_for(x, dist, items), cells_for(x, dist, init), codes);
    lemma_added_all_coarse(x, init, cells_for(x, dist, init), codes);
}

proof fn lemma_added_all_coarse(
    x: IvfModel,
    items: Seq<Item>,
    cells: Seq<int>,
    codes: Seq<Seq<u8>>,
)
    ensures
        added_all(x, items, cells, codes).coarse == x.coarse,
    decreases items.len(),
{
    if items.len() > 0 {
        lemma_added_all_coarse(x, items.drop_last(), cells, codes);
    }
}

proof fn lemma_added_wf(
    x: IvfModel,
    node: NodeId,
    seqno: u64,
    emb: Seq<u32>,
    label: u32,
    cell: int,
    code: Seq<u8>,
)
    requires
        index_wf(x),
        is_trained(x),
        emb.len() == x.dim,
        0 <= cell < x.lists.len(),
        x.rows.len() < u32::MAX,
    ensures
        index_wf(added(x, node, seqno, emb, label, cell, code)),
{
    let y = added(x, node, seqno, emb, label, cell, code);
    let p = PostingModel { code, node, seqno, label };
    lemma_total_update(x.lists, cell, p);
    assert forall|c: int, i: int| 0 <= c < y.lists.len() && 0 <= i < y.lists[c].len() implies
        y.row_of.contains_key((#[trigger] y.lists[c][i]).node) by {
        if c == cell {
            if i < x.lists[c].len() {
                assert(x.row_of.contains_key(x.lists[c][i].node));
            }
        } else {
            assert(x.row_of.contains_key(x.lists[c][i].node));
        }
    }
}

impl IvfPq {
    /// The index is well-formed.
    pub closed spec fn wf(&self) -> bool {
        index_wf(self@)
    }

    /// A well-formed index keeps what [`index_wf`] says.
    pub proof fn lemma_wf(&self)
        ensures
            self.wf() == index_wf(self@),
    {
    }

    /// A number of cells for `n` vectors: four times the square root, from 16 to 65,536.
    pub fn suggested_nlist(n: usize) -> (r: usize)
        ensures
            exists|s: int|
                #[trigger] is_sqrt(16 * n, s) && r == if s < 16 {
                    16
                } else if s > 65_536 {
                    65_536
                } else {
                    s
                },
    {
        if n >= 0x1000_0000 {
            proof {
                let s = lemma_sqrt_exists(16 * n as int);
                assert(s >= 65_536) by (nonlinear_arith)
                    requires
                        s >= 0,
                        16 * n < (s + 1) * (s + 1),
                        n >= 0x1000_0000,
                ;
                assert(is_sqrt(16 * n as int, s));
            }
            return 65_536;
        }
        let s: u64 = isqrt(16 * (n as u64));
        assert(s < 65_536) by (nonlinear_arith)
            requires
                s * s <= 16 * n,
                n < 0x1000_0000,
        ;
        assert(is_sqrt(16 * n as int, s as int));
        if s < 16 {
            16
        } else {
            s as usize
        }
    }

    /// An untrained index of vectors of `dim` coordinates, with codes of `m` bytes.
    pub fn new(dim: usize, nlist: usize, m: usize) -> (r: Self)
        requires
            m > 0,
            dim % m == 0,
        ensures
            r.wf(),
            r@ == (IvfModel {
                dim: dim as nat,
                m: m as nat,
                nlist: if nlist == 0 {
                    1
                } else {
                    nlist as nat
                },
                ksub: 0,
                coarse: Seq::empty(),
                supers: Seq::empty(),
                members: Seq::empty(),
                lists: Seq::empty(),
                rows: Seq::empty(),
                row_of: Map::empty(),
            }),
    {
        let r = IvfPq {
            dim,
            m,
            nlist: if nlist == 0 {
                1
            } else {
                nlist
            },
            ksub: 0,
            coarse: Vec::new(),
            super_coarse: Vec::new(),
            super_members: Vec::new(),
            lists: Vec::new(),
            raw: Vec::new(),
            row_of: OrdMap::new(),
        };
        proof {
            assert(r@.coarse =~= Seq::empty());
            assert(r@.supers =~= Seq::empty());
            assert(r@.members =~= Seq::empty());
            assert(r@.lists =~= Seq::empty());
            assert(r@.rows =~= Seq::empty());
            assert(r@.row_of =~= Map::empty());
        }
        r
    }

    /// The number of coordinates.
    pub fn dim(&self) -> (r: usize)
        ensures
            r == self@.dim,
    {
        self.dim
    }

    /// The number of vectors added.
    pub fn len(&self) -> (r: usize)
        ensures
            r == self@.rows.len(),
    {
        self.raw.len()
    }

    /// Whether no vector was added.
    pub fn is_empty(&self) -> (r: bool)
        ensures
            r == (self@.rows.len() == 0),
    {
        self.raw.len() == 0
    }

    /// The number of cells.
    pub fn nlist(&self) -> (r: usize)
        ensures
            r == self@.nlist,
    {
        self.nlist
    }

    /// Whether the probe goes by two levels.
    pub fn two_level(&self) -> (r: bool)
        ensures
            r == (self@.supers.len() > 0),
    {
        self.super_coarse.len() > 0
    }

    /// The bytes of the codes.
    pub fn code_bytes(&self) -> (r: usize)
        requires
            self@.rows.len() * self@.m <= usize::MAX,
        ensures
            r == self@.rows.len() * self@.m,
    {
        self.raw.len() * self.m
    }

    /// The bytes of the vectors.
    pub fn raw_bytes(&self) -> (r: usize)
        requires
            self@.rows.len() * self@.dim * 4 <= usize::MAX,
        ensures
            r == self@.rows.len() * self@.dim * 4,
    {
        self.raw.len() * self.dim * 4
    }

    /// Take the centroids that training found: one cell to each, without postings, and under the
    /// super-centroids the cells nearest to each.
    pub fn train<D: Fn(&Vec<u32>, &Vec<u32>) -> u32>(
        &mut self,
        coarse: Vec<Vec<u32>>,
        supers: Vec<Vec<u32>>,
        ksub: usize,
        dist: D,
    )
        requires
            old(self).wf(),
            0 < coarse.len() <= u32::MAX,
            supers_for(coarse.len() as int, supers.len() as int),
            0 < ksub <= KSUB,
            total_metric(dist),
        ensures
            final(self).wf(),
            final(self)@ == (IvfModel {
                nlist: coarse.len() as nat,
                ksub: ksub as nat,
                coarse: coarse.deep_view(),
                supers: supers.deep_view(),
                members: final(self)@.members,
                lists: empty_cells(coarse.len() as nat),
                ..old(self)@
            }),
            supers.len() == 0 ==> final(self)@.members == Seq::<Seq<u32>>::empty(),
            forall|m: MetricFn| #[trigger]
                metric_agrees(dist, m) && supers.len() > 0 ==> final(self)@.members == routed(
                    m,
                    coarse.deep_view(),
                    supers.deep_view(),
                ),
    {
        let n: usize = coarse.len();
        let members: Vec<Vec<u32>> = if supers.len() == 0 {
            Vec::new()
        } else {
            route(&dist, &coarse, &supers)
        };
        self.nlist = n;
        self.ksub = ksub;
        self.super_members = members;
        self.coarse = coarse;
        self.super_coarse = supers;
        self.lists = no_postings(n);
        proof {
            lemma_total_empty(n as nat);
            if supers.len() == 0 {
                assert(self@.members =~= Seq::<Seq<u32>>::empty());
            }
        }
    }

    /// The code of a vector, by the distances of its parts to the entries of the codebooks.
    pub fn encode<P: Fn(usize, usize) -> u32>(&self, part: P) -> (r: Vec<u8>)
        requires
            self.wf(),
            is_trained(self@),
            total_part(part),
        ensures
            r.len() == self@.m,
            forall|p: PartFn| #[trigger]
                part_agrees(part, p) ==> r@ == code_of(p, self@.m, self@.ksub),
    {
        let mut out: Vec<u8> = Vec::new();
        let mut j: usize = 0;
        while j < self.m
            invariant
                j <= self.m,
                0 < self.ksub <= KSUB,
                total_part(part),
                out.len() == j,
                forall|p: PartFn, x: int|
                    #![trigger part_agrees(part, p), out@[x]]
                    part_agrees(part, p) && 0 <= x < j ==> out@[x] == code_of(
                        p,
                        self@.m,
                        self@.ksub,
                    )[x],
            decreases self.m - j,
        {
            let mut keys: Vec<u32> = Vec::new();
            let mut c: usize = 0;
            while c < self.ksub
                invariant
                    c <= self.ksub,
                    total_part(part),
                    keys.len() == c,
                    forall|x: int|
                        0 <= x < c ==> call_ensures(part, (j, x as usize), #[trigger] keys@[x]),
                decreases self.ksub - c,
            {
                let d: u32 = part(j, c);
                keys.push(d);
                c += 1;
            }
            let (b, _) = pick_min(&keys);
            proof {
                law_first_min(keys@);
                assert forall|p: PartFn| #[trigger] part_agrees(part, p) implies b as u8 == code_of(
                    p,
                    self@.m,
                    self@.ksub,
                )[j as int] by {
                    let want = Seq::new(
                        self.ksub as nat,
                        |c: int| p(j as int as usize, c as usize),
                    );
                    assert forall|x: int| 0 <= x < keys.len() implies #[trigger] keys@[x]
                        == want[x] by {
                        assert(call_ensures(part, (j, x as usize), keys@[x]));
                    }
                    assert(keys@ =~= want);
                }
            }
            out.push(b as u8);
            j += 1;
        }
        assert forall|p: PartFn| #[trigger] part_agrees(part, p) implies out@ == code_of(
            p,
            self@.m,
            self@.ksub,
        ) by {
            assert(out@ =~= code_of(p, self@.m, self@.ksub));
        }
        out
    }

    /// The cell that a vector goes to, with its distance.
    pub fn assign<D: Fn(&Vec<u32>, &Vec<u32>) -> u32>(&self, embedding: &Vec<u32>, dist: &D) -> (r: (
        usize,
        u32,
    ))
        requires
            total_metric(*dist),
        ensures
            forall|m: MetricFn| #[trigger]
                metric_agrees(*dist, m) ==> (r.0 as int, r.1) == first_min(
                    keys_to(m, embedding@, self@.coarse),
                ),
            self@.coarse.len() > 0 ==> r.0 < self@.coarse.len(),
    {
        nearest_centroid(dist, embedding, &self.coarse)
    }

    fn push(&mut self, node: NodeId, seqno: u64, embedding: Vec<u32>, label: u32, cell: usize, code: Vec<u8>)
        requires
            old(self).wf(),
            is_trained(old(self)@),
            embedding.len() == old(self)@.dim,
            cell < old(self)@.coarse.len(),
            old(self)@.rows.len() < u32::MAX,
        ensures
            final(self).wf(),
            final(self)@ == added(
                old(self)@,
                node,
                seqno,
                embedding@,
                label,
                cell as int,
                code@,
            ),
    {
        let ghost x = self@;
        let ghost lists = self.lists@;
        let ghost raw = self.raw;
        let row: u32 = self.raw.len() as u32;
        let ghost p = PostingModel { code: code@, node, seqno, label };
        let mut list: Vec<Posting> = Vec::new();
        std::mem::swap(&mut list, &mut self.lists[cell]);
        list.push(Posting { code, node, seqno, label });
        let ghost cell_now = list@;
        self.lists[cell] = list;
        self.row_of.insert(node, row);
        let ghost e = embedding@;
        self.raw.push(embedding);
        proof {
            assert(postings(cell_now) =~= postings(lists[cell as int]@).push(p));
            assert(all_postings(self.lists@) =~= x.lists.update(
                cell as int,
                x.lists[cell as int].push(p),
            ));
            assert forall|i: int| 0 <= i < self.raw@.len() implies #[trigger] self.raw.deep_view()[i]
                == x.rows.push(e)[i] by {
                lemma_inner(self.raw, i);
                if i < raw@.len() {
                    lemma_inner(raw, i);
                }
            }
            assert(self.raw.deep_view() =~= x.rows.push(e));
            assert(self@ =~= added(x, node, seqno, e, label, cell as int, p.code));
            lemma_added_wf(x, node, seqno, e, label, cell as int, p.code);
        }
    }

    /// Add a vector: its code to the nearest cell, itself to the rows. Gives the distance to the
    /// cell's centroid.
    pub fn add<D: Fn(&Vec<u32>, &Vec<u32>) -> u32, P: Fn(usize, usize) -> u32>(
        &mut self,
        node: NodeId,
        seqno: u64,
        embedding: Vec<u32>,
        label: u32,
        dist: D,
        part: P,
    ) -> (r: u32)
        requires
            old(self).wf(),
            is_trained(old(self)@),
            embedding.len() == old(self)@.dim,
            old(self)@.rows.len() < u32::MAX,
            total_metric(dist),
            total_part(part),
        ensures
            final(self).wf(),
            exists|cell: int, code: Seq<u8>|
                #![trigger added(old(self)@, node, seqno, embedding@, label, cell, code)]
                0 <= cell < old(self)@.lists.len() && code.len() == old(self)@.m && final(self)@
                    == added(old(self)@, node, seqno, embedding@, label, cell, code),
            forall|m: MetricFn, p: PartFn|
                #![trigger metric_agrees(dist, m), part_agrees(part, p)]
                metric_agrees(dist, m) && part_agrees(part, p) ==> final(self)@ == added(
                    old(self)@,
                    node,
                    seqno,
                    embedding@,
                    label,
                    cell_for(old(self)@, m, embedding@),
                    code_of(p, old(self)@.m, old(self)@.ksub),
                ) && r == first_min(keys_to(m, embedding@, old(self)@.coarse)).1,
    {
        let (cell, d) = self.assign(&embedding, &dist);
        let code: Vec<u8> = self.encode(part);
        self.push(node, seqno, embedding, label, cell, code);
        d
    }

    /// Add vectors whose codes are known: the same as adding them one after the other. Gives their
    /// distances to their cells' centroids.
    pub fn add_batch<D: Fn(&Vec<u32>, &Vec<u32>) -> u32>(
        &mut self,
        items: Vec<Item>,
        codes: Vec<Vec<u8>>,
        dist: D,
    ) -> (r: Vec<u32>)
        requires
            old(self).wf(),
            is_trained(old(self)@),
            items.len() == codes.len(),
            old(self)@.rows.len() + items.len() <= u32::MAX,
            forall|i: int|
                0 <= i < items.len() ==> (#[trigger] items@[i]).embedding.len() == old(self)@.dim,
            total_metric(dist),
        ensures
            final(self).wf(),
            exists|cells: Seq<int>|
                cells.len() == items@.len() && final(self)@ == #[trigger] added_all(
                    old(self)@,
                    items@,
                    cells,
                    codes.deep_view(),
                ),
            forall|m: MetricFn| #[trigger]
                metric_agrees(dist, m) ==> final(self)@ == added_all(
                    old(self)@,
                    items@,
                    cells_for(old(self)@, m, items@),
                    codes.deep_view(),
                ) && r@ == Seq::new(
                    items@.len(),
                    |i: int| first_min(keys_to(m, items@[i].embedding@, old(self)@.coarse)).1,
                ),
    {
        let ghost x = self@;
        let ghost its = items@;
        let ghost cs = codes.deep_view();
        let mut out: Vec<u32> = Vec::new();
        let ghost mut cells: Seq<int> = Seq::empty();
        let mut i: usize = 0;
        proof {
            assert(its.take(0) =~= Seq::<Item>::empty());
        }
        while i < items.len()
            invariant
                i <= items.len(),
                items@ == its,
                items.len() == codes.len(),
                cs == codes.deep_view(),
                total_metric(dist),
                forall|j: int| 0 <= j < its.len() ==> (#[trigger] its[j]).embedding.len() == x.dim,
                x.rows.len() + its.len() <= u32::MAX,
                is_trained(x),
                self.wf(),
                cells.len() == i,
                self@ == added_all(x, its.take(i as int), cells, cs),
                self@.coarse == x.coarse,
                self@.dim == x.dim,
                self@.rows.len() == x.rows.len() + i,
                out.len() == i,
                forall|m: MetricFn, j: int|
                    #![trigger metric_agrees(dist, m), out@[j]]
                    metric_agrees(dist, m) && 0 <= j < i ==> (cells[j], out@[j]) == first_min(
                        keys_to(m, its[j].embedding@, x.coarse),
                    ),
            decreases items.len() - i,
        {
            let it = &items[i];
            let (cell, d) = self.assign(&it.embedding, &dist);
            let emb = it.embedding.dup();
            let code = codes[i].dup();
            proof {
                let old_cells = cells;
                cells = cells.push(cell as int);
                let t = its.take(i + 1);
                assert(t.drop_last() =~= its.take(i as int));
                assert(t[i as int] == its[i as int]);
                assert(cs[i as int] =~= codes@[i as int]@);
                lemma_added_all_prefix(x, its.take(i as int), old_cells, cells, cs);
                assert(emb@ =~= it.embedding@) by {
                    assert(emb.deep_view() =~= emb@);
                    assert(it.embedding.deep_view() =~= it.embedding@);
                }
                assert(code@ =~= codes@[i as int]@) by {
                    assert(code.deep_view() =~= code@);
                    assert(codes@[i as int].deep_view() =~= codes@[i as int]@);
                }
            }
            out.push(d);
            self.push(it.node, it.seqno, emb, it.label, cell, code);
            i += 1;
        }
        proof {
            assert(its.take(i as int) =~= its);
            assert forall|m: MetricFn| #[trigger] metric_agrees(dist, m) implies self@ == added_all(
                x,
                its,
                cells_for(x, m, its),
                cs,
            ) && out@ == Seq::new(
                its.len(),
                |i: int| first_min(keys_to(m, its[i].embedding@, x.coarse)).1,
            ) by {
                assert forall|j: int| 0 <= j < its.len() implies #[trigger] cells[j] == cells_for(
                    x,
                    m,
                    its,
                )[j] by {
                    let d = out@[j];
                    assert((cells[j], d) == first_min(keys_to(m, its[j].embedding@, x.coarse)));
                }
                assert(cells =~= cells_for(x, m, its));
                assert(out@ =~= Seq::new(
                    its.len(),
                    |i: int| first_min(keys_to(m, its[i].embedding@, x.coarse)).1,
                ));
            }
        }
        out
    }

    /// An empty index with this one's centroids.
    pub fn fresh_like(&self) -> (r: IvfPq)
        requires
            self.wf(),
            is_trained(self@),
        ensures
            r.wf(),
            r@ == (IvfModel {
                lists: empty_cells(self@.nlist),
                rows: Seq::empty(),
                row_of: Map::empty(),
                ..self@
            }),
    {
        let r = IvfPq {
            dim: self.dim,
            m: self.m,
            nlist: self.nlist,
            ksub: self.ksub,
            coarse: self.coarse.dup(),
            super_coarse: self.super_coarse.dup(),
            super_members: self.super_members.dup(),
            lists: no_postings(self.nlist),
            raw: Vec::new(),
            row_of: OrdMap::new(),
        };
        proof {
            lemma_total_empty(self.nlist as nat);
            assert(r@.rows =~= Seq::empty());
            assert(r@.row_of =~= Map::empty());
        }
        r
    }
}

proof fn lemma_sqrt_exists(x: int) -> (s: int)
    requires
        x >= 0,
    ensures
        is_sqrt(x, s),
    decreases x,
{
    if x == 0 {
        0
    } else {
        let s = lemma_sqrt_exists(x - 1);
        if x < (s + 1) * (s + 1) {
            s
        } else {
            let t = s + 1;
            assert(t * t < (t + 1) * (t + 1)) by (nonlinear_arith)
                requires
                    t >= 0,
            ;
            assert(x == t * t);
            t
        }
    }
}

} // verus!
