//! Searching the index: by score alone, with exact re-ranking, and completely.
use super::{
    dist_agrees, index_wf, keys_of, lemma_inner, measure_all, postings, scan_agrees,
    total_dist, total_scan, DistFn, IvfModel, IvfPq, Posting, PostingModel, Scan, ScanModel,
    COARSE_FANOUT,
};
use crate::fact::NodeId;
use crate::rank::{law_ranking, law_ranking_is_unique, lemma_ranked_from, rank, ranked, Ranks};
use crate::vector::first_k;
use vstd::prelude::*;

verus! {

/// Whether a scan reads a posting.
pub open spec fn passes(
    f: ScanModel,
    p: PostingModel,
) -> bool {
    (f.max_seqno matches Some(w) ==> p.seqno < w) && (f.allowed)(p.label) && (f.keep)(p.node)
}

/// What a scan gives of a cell: of each posting that it reads the score and the node.
pub open spec fn scanned(
    f: ScanModel,
    list: Seq<PostingModel>,
) -> Seq<(u32, NodeId)>
    decreases list.len(),
{
    if list.len() == 0 {
        Seq::empty()
    } else {
        let init = scanned(f, list.drop_last());
        let p = list.last();
        if passes(f, p) {
            init.push(((f.score)(p.code), p.node))
        } else {
            init
        }
    }
}

/// What a scan gives of some cells, in their order.
pub open spec fn scanned_cells(
    f: ScanModel,
    lists: Seq<Seq<PostingModel>>,
    cells: Seq<usize>,
) -> Seq<(u32, NodeId)>
    decreases cells.len(),
{
    if cells.len() == 0 {
        Seq::empty()
    } else {
        scanned_cells(f, lists, cells.drop_last()) + scanned(f, lists[cells.last() as int])
    }
}

/// Positions with their keys.
pub open spec fn keyed(keys: Seq<u32>, at: Seq<usize>) -> Seq<(u32, usize)> {
    Seq::new(at.len(), |i: int| (keys[at[i] as int], at[i]))
}

/// All positions up to a number.
pub open spec fn positions(n: nat) -> Seq<usize> {
    Seq::new(n, |i: int| i as usize)
}

/// The positions nearest by their keys, the nearest first; at the same distance as they came.
pub open spec fn nearest_at(keys: Seq<u32>, at: Seq<usize>, k: nat) -> Seq<usize> {
    let s = first_k(ranked(keyed(keys, at)), k);
    Seq::new(s.len(), |i: int| s[i].1)
}

/// The cells under some super-centroids, in their order, until there are enough.
pub open spec fn gathered(members: Seq<Seq<u32>>, order: Seq<usize>, target: nat) -> Seq<usize>
    decreases order.len(),
{
    if order.len() == 0 {
        Seq::empty()
    } else {
        let init = gathered(members, order.drop_last(), target);
        if init.len() >= target {
            init
        } else {
            let cells = members[order.last() as int];
            init + Seq::new(cells.len(), |i: int| cells[i] as usize)
        }
    }
}

/// The cells that a query probes, the nearest first. `ck` holds the distances of the centroids,
/// `sk` those of the super-centroids.
pub open spec fn probed(x: IvfModel, ck: Seq<u32>, sk: Seq<u32>, nprobe: nat) -> Seq<usize> {
    let np = if nprobe == 0 {
        1
    } else {
        nprobe
    };
    if x.supers.len() == 0 {
        nearest_at(ck, positions(x.coarse.len()), np)
    } else {
        let target = if np * COARSE_FANOUT < x.nlist {
            (np * COARSE_FANOUT) as nat
        } else {
            x.nlist
        };
        let order = nearest_at(sk, positions(x.supers.len()), x.supers.len());
        nearest_at(ck, gathered(x.members, order, target), np)
    }
}

/// The best of scored nodes: the least score first, then the smaller id.
pub open spec fn best(scored: Seq<(u32, NodeId)>, k: nat) -> Seq<(NodeId, u32)> {
    let s = first_k(ranked(scored), k);
    Seq::new(s.len(), |i: int| (s[i].1, s[i].0))
}

/// What a search finds.
pub open spec fn found(x: IvfModel, dist: DistFn, f: ScanModel, k: nat, nprobe: nat) -> Seq<(NodeId, u32)> {
    let cells = probed(x, keys_of(dist, x.coarse), keys_of(dist, x.supers), nprobe);
    best(scanned_cells(f, x.lists, cells), k)
}

/// Hits by the distance of their vectors.
pub open spec fn by_distance(
    x: IvfModel,
    dist: DistFn,
    hits: Seq<(NodeId, u32)>,
) -> Seq<(u32, NodeId)> {
    Seq::new(
        hits.len(),
        |i: int| (dist(x.rows[x.row_of[hits[i].0] as int]), hits[i].0),
    )
}

/// What a search with exact re-ranking finds: the best `k` by distance of the best `max(r, k)` by
/// score.
pub open spec fn reranked(x: IvfModel, dist: DistFn, f: ScanModel, k: nat, nprobe: nat, r: nat) -> Seq<(NodeId, u32)> {
    let depth = if r > k {
        r
    } else {
        k
    };
    best(by_distance(x, dist, found(x, dist, f, depth, nprobe)), k)
}

/// The cells up to a number that are probed, or those that are not, ascending.
pub open spec fn cells_where(n: nat, at: Seq<usize>, inside: bool) -> Seq<usize>
    decreases n,
{
    if n == 0 {
        Seq::empty()
    } else {
        let init = cells_where((n - 1) as nat, at, inside);
        let c = (n - 1) as usize;
        if at.contains(c) == inside {
            init.push(c)
        } else {
            init
        }
    }
}

/// The tail of a search: what the cells that are not probed add.
pub struct Tail {
    pub out: Seq<(u32, NodeId)>,
    /// How many postings were scored.
    pub scored: nat,
    /// Whether the budget cut the tail off.
    pub truncated: bool,
}

/// The tail over some cells: one after the other, until one would exceed the budget. That one is left
/// out whole and not scored.
pub open spec fn tail_of(
    f: ScanModel,
    lists: Seq<Seq<PostingModel>>,
    cells: Seq<usize>,
    budget: nat,
) -> Tail
    decreases cells.len(),
{
    if cells.len() == 0 {
        Tail { out: Seq::empty(), scored: 0, truncated: false }
    } else {
        let t = tail_of(f, lists, cells.drop_last(), budget);
        let more = scanned(f, lists[cells.last() as int]);
        if t.truncated {
            t
        } else if t.scored + more.len() > budget {
            Tail { truncated: true, ..t }
        } else {
            Tail { out: t.out + more, scored: t.scored + more.len(), truncated: false }
        }
    }
}

/// What a complete search finds: the probed cells, and the tail that the budget allows.
pub open spec fn completed(
    x: IvfModel,
    at: Seq<usize>,
    f: ScanModel,
    budget: nat,
) -> Tail {
    let t = tail_of(f, x.lists, cells_where(x.lists.len(), at, false), budget);
    Tail { out: scanned_cells(f, x.lists, cells_where(x.lists.len(), at, true)) + t.out, ..t }
}

fn nearest_positions(keys: &Vec<u32>, at: &Vec<usize>, k: usize) -> (r: Vec<usize>)
    requires
        forall|i: int| 0 <= i < at.len() ==> (#[trigger] at@[i]) < keys.len(),
    ensures
        r@ == nearest_at(keys@, at@, k as nat),
        forall|i: int| 0 <= i < r.len() ==> (#[trigger] r@[i]) < keys.len(),
{
    let mut pairs: Vec<(u32, usize)> = Vec::new();
    let mut i: usize = 0;
    while i < at.len()
        invariant
            i <= at.len(),
            forall|x: int| 0 <= x < at.len() ==> (#[trigger] at@[x]) < keys.len(),
            pairs.len() == i,
            forall|j: int|
                0 <= j < i ==> #[trigger] pairs@[j] == (keys@[at@[j] as int], at@[j]),
        decreases at.len() - i,
    {
        pairs.push((keys[at[i]], at[i]));
        i += 1;
    }
    assert(pairs@ =~= keyed(keys@, at@));
    let all: Vec<(u32, usize)> = rank(&pairs);
    let ghost s = first_k(all@, k as nat);
    let n: usize = if k < all.len() {
        k
    } else {
        all.len()
    };
    let mut out: Vec<usize> = Vec::new();
    let mut j: usize = 0;
    while j < n
        invariant
            j <= n,
            n == s.len(),
            n <= all.len(),
            s == first_k(all@, k as nat),
            out.len() == j,
            forall|x: int| 0 <= x < j ==> #[trigger] out@[x] == s[x].1,
        decreases n - j,
    {
        out.push(all[j].1);
        j += 1;
    }
    proof {
        assert(out@ =~= nearest_at(keys@, at@, k as nat));
        assert forall|x: int| 0 <= x < out.len() implies (#[trigger] out@[x]) < keys.len() by {
            assert(all@.contains(all@[x]));
            lemma_ranked_from(pairs@, all@[x]);
            let y = choose|y: int| 0 <= y < pairs@.len() && pairs@[y] == all@[x];
            assert(pairs@[y].1 == at@[y]);
        }
    }
    out
}

fn all_positions(n: usize) -> (r: Vec<usize>)
    ensures
        r@ == positions(n as nat),
{
    let mut out: Vec<usize> = Vec::new();
    let mut i: usize = 0;
    while i < n
        invariant
            i <= n,
            out.len() == i,
            forall|j: int| 0 <= j < i ==> #[trigger] out@[j] == j as usize,
        decreases n - i,
    {
        out.push(i);
        i += 1;
    }
    assert(out@ =~= positions(n as nat));
    out
}

fn pick_best(scored: &Vec<(u32, NodeId)>, k: usize) -> (r: Vec<(NodeId, u32)>)
    ensures
        r@ == best(scored@, k as nat),
{
    let all: Vec<(u32, NodeId)> = rank(scored);
    let ghost s = first_k(all@, k as nat);
    let n: usize = if k < all.len() {
        k
    } else {
        all.len()
    };
    let mut out: Vec<(NodeId, u32)> = Vec::new();
    let mut j: usize = 0;
    while j < n
        invariant
            j <= n,
            n == s.len(),
            n <= all.len(),
            s == first_k(all@, k as nat),
            out.len() == j,
            forall|x: int| 0 <= x < j ==> #[trigger] out@[x] == (s[x].1, s[x].0),
        decreases n - j,
    {
        out.push((all[j].1, all[j].0));
        j += 1;
    }
    assert(out@ =~= best(scored@, k as nat));
    out
}

/// Whether every node is one that `keep` kept.
pub open spec fn all_kept<K: Fn(NodeId) -> bool>(keep: K, scored: Seq<(u32, NodeId)>) -> bool {
    forall|i: int| 0 <= i < scored.len() ==> call_ensures(keep, ((#[trigger] scored[i]).1,), true)
}

/// Whether every hit is one that `keep` kept.
pub open spec fn hits_kept<K: Fn(NodeId) -> bool>(keep: K, hits: Seq<(NodeId, u32)>) -> bool {
    forall|i: int| 0 <= i < hits.len() ==> call_ensures(keep, ((#[trigger] hits[i]).0,), true)
}

proof fn lemma_best_kept<K: Fn(NodeId) -> bool>(keep: K, scored: Seq<(u32, NodeId)>, k: nat)
    requires
        all_kept(keep, scored),
    ensures
        best(scored, k).len() <= k,
        hits_kept(keep, best(scored, k)),
{
    law_ranking(scored);
    assert forall|i: int| 0 <= i < best(scored, k).len() implies call_ensures(
        keep,
        ((#[trigger] best(scored, k)[i]).0,),
        true,
    ) by {
        lemma_best_from(scored, k, i);
        let x = (best(scored, k)[i].1, best(scored, k)[i].0);
        let y = choose|y: int| 0 <= y < scored.len() && scored[y] == x;
        assert(call_ensures(keep, (scored[y].1,), true));
    }
}

/// The scores and nodes of some postings.
pub open spec fn scores_at(f: ScanModel, list: Seq<PostingModel>, at: Seq<usize>) -> Seq<
    (u32, NodeId),
> {
    Seq::new(at.len(), |j: int| ((f.score)(list[at[j] as int].code), list[at[j] as int].node))
}

/// Whether every posting picked is one that `keep` kept.
spec fn picks_kept<K: Fn(NodeId) -> bool>(keep: K, list: Seq<Posting>, at: Seq<usize>) -> bool {
    forall|j: int|
        0 <= j < at.len() ==> (#[trigger] at[j]) < list.len() && call_ensures(
            keep,
            (list[at[j] as int].node,),
            true,
        )
}

/// Where the postings are that a scan reads. None is scored.
fn pick_postings<S: Fn(&Vec<u8>) -> u32, L: Fn(u32) -> bool, K: Fn(NodeId) -> bool>(
    f: &Scan<S, L, K>,
    list: &Vec<Posting>,
) -> (r: Vec<usize>)
    requires
        total_scan(*f),
    ensures
        r.len() <= list.len(),
        picks_kept(f.keep, list@, r@),
        forall|m: ScanModel| #[trigger]
            scan_agrees(*f, m) ==> scores_at(m, postings(list@), r@) == scanned(m, postings(list@)),
{
    let ghost ps = postings(list@);
    let mut out: Vec<usize> = Vec::new();
    let mut i: usize = 0;
    assert(ps.take(0) =~= Seq::<PostingModel>::empty());
    while i < list.len()
        invariant
            i <= list.len(),
            out.len() <= i,
            picks_kept(f.keep, list@, out@),
            total_scan(*f),
            ps == postings(list@),
            forall|m: ScanModel| #[trigger]
                scan_agrees(*f, m) ==> scores_at(m, ps, out@) =~= scanned(m, ps.take(i as int)),
        decreases list.len() - i,
    {
        let p = &list[i];
        let ghost before = out@;
        let in_scope = match f.max_seqno {
            Some(w) => p.seqno < w,
            None => true,
        };
        if in_scope && (f.allowed)(p.label) && (f.keep)(p.node) {
            out.push(i);
        }
        assert forall|m: ScanModel| #[trigger] scan_agrees(*f, m) implies scores_at(m, ps, out@)
            =~= scanned(m, ps.take(i + 1)) by {
            let t = ps.take(i + 1);
            assert(t.drop_last() =~= ps.take(i as int));
            assert(t.last() == p@);
            assert(ps[i as int] == p@);
            assert(scores_at(m, ps, before) =~= scanned(m, ps.take(i as int)));
            if out@.len() > before.len() {
                assert(scores_at(m, ps, out@) =~= scores_at(m, ps, before).push(
                    ((m.score)(p@.code), p.node),
                ));
            }
        }
        i += 1;
    }
    assert(ps.take(i as int) =~= ps);
    out
}

/// Score some postings.
fn score_postings<S: Fn(&Vec<u8>) -> u32, L: Fn(u32) -> bool, K: Fn(NodeId) -> bool>(
    f: &Scan<S, L, K>,
    list: &Vec<Posting>,
    at: &Vec<usize>,
) -> (r: Vec<(u32, NodeId)>)
    requires
        total_scan(*f),
        picks_kept(f.keep, list@, at@),
    ensures
        r.len() == at.len(),
        all_kept(f.keep, r@),
        forall|m: ScanModel| #[trigger]
            scan_agrees(*f, m) ==> r@ == scores_at(m, postings(list@), at@),
{
    let mut out: Vec<(u32, NodeId)> = Vec::new();
    let mut i: usize = 0;
    while i < at.len()
        invariant
            i <= at.len(),
            out.len() == i,
            total_scan(*f),
            picks_kept(f.keep, list@, at@),
            forall|j: int|
                0 <= j < i ==> (#[trigger] out@[j]).1 == list@[at@[j] as int].node && call_ensures(
                    f.score,
                    (&list@[at@[j] as int].code,),
                    out@[j].0,
                ),
        decreases at.len() - i,
    {
        assert(at@[i as int] < list@.len());
        let p = &list[at[i]];
        let d: u32 = (f.score)(&p.code);
        out.push((d, p.node));
        i += 1;
    }
    proof {
        assert forall|j: int| 0 <= j < out@.len() implies call_ensures(
            f.keep,
            ((#[trigger] out@[j]).1,),
            true,
        ) by {
            assert(at@[j] < list@.len());
        }
        assert forall|m: ScanModel| #[trigger] scan_agrees(*f, m) implies out@ == scores_at(
            m,
            postings(list@),
            at@,
        ) by {
            assert forall|j: int| 0 <= j < out@.len() implies #[trigger] out@[j] == scores_at(
                m,
                postings(list@),
                at@,
            )[j] by {
                assert(at@[j] < list@.len());
                assert(postings(list@)[at@[j] as int] == list@[at@[j] as int]@);
            }
            assert(out@ =~= scores_at(m, postings(list@), at@));
        }
    }
    out
}

fn scan_cell<S: Fn(&Vec<u8>) -> u32, L: Fn(u32) -> bool, K: Fn(NodeId) -> bool>(
    f: &Scan<S, L, K>,
    list: &Vec<Posting>,
) -> (r: Vec<(u32, NodeId)>)
    requires
        total_scan(*f),
    ensures
        r.len() <= list.len(),
        all_kept(f.keep, r@),
        forall|m: ScanModel| #[trigger]
            scan_agrees(*f, m) ==> r@ == scanned(m, postings(list@)),
{
    let at = pick_postings(f, list);
    score_postings(f, list, &at)
}

fn gather(members: &Vec<Vec<u32>>, order: &Vec<usize>, target: usize, cells: usize) -> (r: Vec<usize>)
    requires
        target > 0,
        forall|i: int| 0 <= i < order.len() ==> (#[trigger] order@[i]) < members.len(),
        forall|s: int, i: int|
            0 <= s < members.len() && 0 <= i < members.deep_view()[s].len() ==> (
            #[trigger] members.deep_view()[s][i]) < cells,
    ensures
        r@ == gathered(members.deep_view(), order@, target as nat),
        forall|i: int| 0 <= i < r.len() ==> (#[trigger] r@[i]) < cells,
{
    let ghost ms = members.deep_view();
    let mut out: Vec<usize> = Vec::new();
    let mut i: usize = 0;
    assert(order@.take(0) =~= Seq::<usize>::empty());
    while i < order.len()
        invariant
            i <= order.len(),
            ms == members.deep_view(),
            forall|x: int| 0 <= x < order.len() ==> (#[trigger] order@[x]) < members.len(),
            forall|s: int, x: int|
                0 <= s < members.len() && 0 <= x < ms[s].len() ==> (#[trigger] ms[s][x]) < cells,
            out@ == gathered(ms, order@.take(i as int), target as nat),
            forall|x: int| 0 <= x < out.len() ==> (#[trigger] out@[x]) < cells,
        decreases order.len() - i,
    {
        proof {
            let t = order@.take(i + 1);
            assert(t.drop_last() =~= order@.take(i as int));
            assert(t.last() == order@[i as int]);
        }
        if out.len() < target {
            let ghost before = out@;
            let s: usize = order[i];
            let list = &members[s];
            let ghost cs = ms[s as int];
            let ghost more = Seq::new(cs.len(), |x: int| cs[x] as usize);
            proof {
                lemma_inner(*members, s as int);
                assert(before + more.take(0) =~= before);
            }
            let mut j: usize = 0;
            while j < list.len()
                invariant
                    j <= list.len(),
                    s < members.len(),
                    cs == ms[s as int],
                    cs == list@,
                    forall|s: int, x: int|
                        0 <= s < members.len() && 0 <= x < ms[s].len() ==> (#[trigger] ms[s][x])
                            < cells,
                    more == Seq::new(cs.len(), |x: int| cs[x] as usize),
                    out@ == before + more.take(j as int),
                    forall|x: int| 0 <= x < out.len() ==> (#[trigger] out@[x]) < cells,
                decreases list.len() - j,
            {
                proof {
                    assert(ms[s as int][j as int] == list@[j as int]);
                    assert((before + more.take(j as int)).push(more[j as int]) =~= before
                        + more.take(j + 1));
                }
                out.push(list[j] as usize);
                j += 1;
            }
            assert(more.take(j as int) =~= more);
        }
        i += 1;
    }
    assert(order@.take(i as int) =~= order@);
    out
}

fn has_cell(at: &Vec<usize>, c: usize) -> (r: bool)
    ensures
        r == at@.contains(c),
{
    let mut i: usize = 0;
    while i < at.len()
        invariant
            i <= at.len(),
            forall|j: int| 0 <= j < i ==> #[trigger] at@[j] != c,
        decreases at.len() - i,
    {
        if at[i] == c {
            assert(at@[i as int] == c);
            return true;
        }
        i += 1;
    }
    false
}

fn pick_cells(n: usize, at: &Vec<usize>, inside: bool) -> (r: Vec<usize>)
    ensures
        r@ == cells_where(n as nat, at@, inside),
        forall|i: int| 0 <= i < r.len() ==> (#[trigger] r@[i]) < n,
{
    let mut out: Vec<usize> = Vec::new();
    let mut c: usize = 0;
    while c < n
        invariant
            c <= n,
            out@ == cells_where(c as nat, at@, inside),
            forall|i: int| 0 <= i < out.len() ==> (#[trigger] out@[i]) < c,
        decreases n - c,
    {
        if has_cell(at, c) == inside {
            out.push(c);
        }
        c += 1;
        assert((c - 1) as nat as usize == c - 1);
    }
    out
}

/// A tail that was cut off goes no further.
proof fn lemma_tail_stops(
    f: ScanModel,
    lists: Seq<Seq<PostingModel>>,
    cells: Seq<usize>,
    i: int,
    budget: nat,
)
    requires
        0 <= i <= cells.len(),
    ensures
        tail_of(f, lists, cells.take(i), budget).truncated ==> tail_of(f, lists, cells, budget)
            == tail_of(f, lists, cells.take(i), budget),
    decreases cells.len(),
{
    if i == cells.len() {
        assert(cells.take(i) =~= cells);
    } else {
        lemma_tail_stops(f, lists, cells.drop_last(), i, budget);
        assert(cells.drop_last().take(i) =~= cells.take(i));
    }
}

fn append_all(out: &mut Vec<(u32, NodeId)>, more: &Vec<(u32, NodeId)>)
    ensures
        final(out)@ == old(out)@ + more@,
{
    let ghost base = out@;
    let mut i: usize = 0;
    assert(base + more@.take(0) =~= base);
    while i < more.len()
        invariant
            i <= more.len(),
            out@ == base + more@.take(i as int),
        decreases more.len() - i,
    {
        assert((base + more@.take(i as int)).push(more@[i as int]) =~= base + more@.take(i + 1));
        out.push(more[i]);
        i += 1;
    }
    assert(more@.take(i as int) =~= more@);
}

impl IvfPq {
    /// The cells that a query probes.
    fn probe_cells<D: Fn(&Vec<u32>) -> u32>(&self, dist: &D, nprobe: usize) -> (r: Vec<usize>)
        requires
            self.wf(),
            total_dist(*dist),
        ensures
            forall|d: DistFn| #[trigger]
                dist_agrees(*dist, d) ==> r@ == probed(
                    self@,
                    keys_of(d, self@.coarse),
                    keys_of(d, self@.supers),
                    nprobe as nat,
                ),
            forall|i: int| 0 <= i < r.len() ==> (#[trigger] r@[i]) < self@.lists.len(),
    {
        let np: usize = if nprobe == 0 {
            1
        } else {
            nprobe
        };
        let ck: Vec<u32> = measure_all(dist, &self.coarse);
        if self.super_coarse.len() == 0 {
            let at: Vec<usize> = all_positions(self.coarse.len());
            return nearest_positions(&ck, &at, np);
        }
        let sk: Vec<u32> = measure_all(dist, &self.super_coarse);
        let all: Vec<usize> = all_positions(self.super_coarse.len());
        let order: Vec<usize> = nearest_positions(&sk, &all, self.super_coarse.len());
        let target: usize = match np.checked_mul(COARSE_FANOUT) {
            Some(t) => if t < self.nlist {
                t
            } else {
                self.nlist
            },
            None => self.nlist,
        };
        let cand: Vec<usize> = gather(&self.super_members, &order, target, self.coarse.len());
        nearest_positions(&ck, &cand, np)
    }

    fn scan_cells<S: Fn(&Vec<u8>) -> u32, L: Fn(u32) -> bool, K: Fn(NodeId) -> bool>(
        &self,
        f: &Scan<S, L, K>,
        cells: &Vec<usize>,
    ) -> (r: Vec<(u32, NodeId)>)
        requires
            total_scan(*f),
            forall|i: int| 0 <= i < cells.len() ==> (#[trigger] cells@[i]) < self@.lists.len(),
        ensures
            all_kept(f.keep, r@),
            forall|m: ScanModel| #[trigger]
                scan_agrees(*f, m) ==> r@ == scanned_cells(m, self@.lists, cells@),
    {
        let mut out: Vec<(u32, NodeId)> = Vec::new();
        let mut i: usize = 0;
        assert(cells@.take(0) =~= Seq::<usize>::empty());
        while i < cells.len()
            invariant
                i <= cells.len(),
                total_scan(*f),
                all_kept(f.keep, out@),
                forall|x: int| 0 <= x < cells.len() ==> (#[trigger] cells@[x]) < self@.lists.len(),
                forall|m: ScanModel| #[trigger]
                    scan_agrees(*f, m) ==> out@ == scanned_cells(
                        m,
                        self@.lists,
                        cells@.take(i as int),
                    ),
            decreases cells.len() - i,
        {
            let ghost before = out@;
            let more = scan_cell(f, &self.lists[cells[i]]);
            append_all(&mut out, &more);
            assert forall|m: ScanModel| #[trigger] scan_agrees(*f, m) implies out@
                == scanned_cells(m, self@.lists, cells@.take(i + 1)) by {
                let t = cells@.take(i + 1);
                assert(t.drop_last() =~= cells@.take(i as int));
                assert(t.last() == cells@[i as int]);
                assert(before == scanned_cells(m, self@.lists, cells@.take(i as int)));
            }
            i += 1;
        }
        assert(cells@.take(i as int) =~= cells@);
        out
    }

    /// The best `k` by score of the postings in the `nprobe` nearest cells: those from before
    /// `max_seqno`, whose label is allowed and whose node is kept.
    pub fn search<
        D: Fn(&Vec<u32>) -> u32,
        S: Fn(&Vec<u8>) -> u32,
        L: Fn(u32) -> bool,
        K: Fn(NodeId) -> bool,
    >(
        &self,
        dist: D,
        score: S,
        k: usize,
        nprobe: usize,
        max_seqno: Option<u64>,
        allowed_label: L,
        keep: K,
    ) -> (r: Vec<(NodeId, u32)>)
        requires
            self.wf(),
            total_dist(dist),
            total_scan((Scan { score, max_seqno, allowed: allowed_label, keep })),
        ensures
            r.len() <= k,
            hits_kept(keep, r@),
            forall|d: DistFn, m: ScanModel|
                #![trigger dist_agrees(dist, d), scan_agrees((Scan { score, max_seqno, allowed: allowed_label, keep }), m)]
                dist_agrees(dist, d) && scan_agrees(
                    (Scan { score, max_seqno, allowed: allowed_label, keep }),
                    m,
                ) ==> r@ == found(self@, d, m, k as nat, nprobe as nat),
    {
        let f = Scan { score, max_seqno, allowed: allowed_label, keep };
        self.find(&dist, &f, k, nprobe)
    }

    fn find<
        D: Fn(&Vec<u32>) -> u32,
        S: Fn(&Vec<u8>) -> u32,
        L: Fn(u32) -> bool,
        K: Fn(NodeId) -> bool,
    >(&self, dist: &D, f: &Scan<S, L, K>, k: usize, nprobe: usize) -> (r: Vec<(NodeId, u32)>)
        requires
            self.wf(),
            total_dist(*dist),
            total_scan(*f),
        ensures
            r.len() <= k,
            hits_kept(f.keep, r@),
            forall|d: DistFn, m: ScanModel|
                #![trigger dist_agrees(*dist, d), scan_agrees(*f, m)]
                dist_agrees(*dist, d) && scan_agrees(*f, m) ==> r@ == found(
                    self@,
                    d,
                    m,
                    k as nat,
                    nprobe as nat,
                ),
    {
        let cells: Vec<usize> = self.probe_cells(dist, nprobe);
        let scored: Vec<(u32, NodeId)> = self.scan_cells(f, &cells);
        proof {
            lemma_best_kept(f.keep, scored@, k as nat);
        }
        pick_best(&scored, k)
    }

    /// The vector of a node.
    pub fn raw_of(&self, node: NodeId) -> (r: Option<&Vec<u32>>)
        requires
            self.wf(),
        ensures
            r is Some == self@.row_of.contains_key(node),
            r matches Some(v) ==> v@ == self@.rows[self@.row_of[node] as int],
    {
        match self.row_of.get(&node) {
            Some(row) => {
                proof {
                    assert(self@.row_of.contains_key(node));
                    lemma_inner(self.raw, *row as int);
                }
                Some(&self.raw[*row as usize])
            },
            None => None,
        }
    }

    /// The best `k` by the distance of their vectors, out of the best `max(rerank_r, k)` by score.
    pub fn search_rerank<
        D: Fn(&Vec<u32>) -> u32,
        S: Fn(&Vec<u8>) -> u32,
        L: Fn(u32) -> bool,
        K: Fn(NodeId) -> bool,
    >(
        &self,
        dist: D,
        score: S,
        k: usize,
        nprobe: usize,
        rerank_r: usize,
        max_seqno: Option<u64>,
        allowed_label: L,
        keep: K,
    ) -> (r: Vec<(NodeId, u32)>)
        requires
            self.wf(),
            total_dist(dist),
            total_scan((Scan { score, max_seqno, allowed: allowed_label, keep })),
        ensures
            r.len() <= k,
            hits_kept(keep, r@),
            forall|d: DistFn, m: ScanModel|
                #![trigger dist_agrees(dist, d), scan_agrees((Scan { score, max_seqno, allowed: allowed_label, keep }), m)]
                dist_agrees(dist, d) && scan_agrees(
                    (Scan { score, max_seqno, allowed: allowed_label, keep }),
                    m,
                ) ==> r@ == reranked(
                    self@,
                    d,
                    m,
                    k as nat,
                    nprobe as nat,
                    rerank_r as nat,
                ),
    {
        let f = Scan { score, max_seqno, allowed: allowed_label, keep };
        let depth: usize = if rerank_r > k {
            rerank_r
        } else {
            k
        };
        let hits: Vec<(NodeId, u32)> = self.find(&dist, &f, depth, nprobe);
        let ghost x = self@;
        let mut exact: Vec<(u32, NodeId)> = Vec::new();
        let mut i: usize = 0;
        while i < hits.len()
            invariant
                i <= hits.len(),
                self.wf(),
                x == self@,
                total_dist(dist),
                exact.len() <= i,
                hits_kept(f.keep, hits@),
                all_kept(f.keep, exact@),
                forall|d: DistFn|
                    #![trigger dist_agrees(dist, d)]
                    dist_agrees(dist, d) && all_have_rows(x, hits@) ==> exact@ == by_distance(
                        x,
                        d,
                        hits@.take(i as int),
                    ),
            decreases hits.len() - i,
        {
            let ghost before = exact@;
            let n: NodeId = hits[i].0;
            assert(call_ensures(f.keep, (hits@[i as int].0,), true));
            if let Some(v) = self.raw_of(n) {
                let e: u32 = dist(v);
                exact.push((e, n));
            }
            assert forall|d: DistFn|
                #![trigger dist_agrees(dist, d)]
                dist_agrees(dist, d) && all_have_rows(x, hits@) implies exact@ == by_distance(
                x,
                d,
                hits@.take(i + 1),
            ) by {
                assert(x.row_of.contains_key(hits@[i as int].0));
                assert(before == by_distance(x, d, hits@.take(i as int)));
                assert(exact@ =~= by_distance(x, d, hits@.take(i + 1)));
            }
            i += 1;
        }
        proof {
            assert(hits@.take(i as int) =~= hits@);
            lemma_best_kept(f.keep, exact@, k as nat);
            assert forall|d: DistFn, m: ScanModel|
                #![trigger dist_agrees(dist, d), scan_agrees(f, m)]
                dist_agrees(dist, d) && scan_agrees(f, m) implies exact@ == by_distance(
                x,
                d,
                found(x, d, m, depth as nat, nprobe as nat),
            ) by {
                law_hits_are_scoped(x, d, m, depth as nat, nprobe as nat);
            }
        }
        pick_best(&exact, k)
    }

    /// The best `k` by score of the probed cells, and of the others as far as `tail_budget` allows:
    /// with them how many postings of the others were scored, which the budget caps, and whether the
    /// budget cut them off.
    pub fn search_complete<
        D: Fn(&Vec<u32>) -> u32,
        S: Fn(&Vec<u8>) -> u32,
        L: Fn(u32) -> bool,
        K: Fn(NodeId) -> bool,
    >(
        &self,
        dist: D,
        score: S,
        k: usize,
        nprobe: usize,
        max_seqno: Option<u64>,
        allowed_label: L,
        keep: K,
        tail_budget: usize,
    ) -> (r: (Vec<(NodeId, u32)>, usize, bool))
        requires
            self.wf(),
            total_dist(dist),
            total_scan((Scan { score, max_seqno, allowed: allowed_label, keep })),
        ensures
            r.0.len() <= k,
            hits_kept(keep, r.0@),
            r.1 <= tail_budget,
            forall|d: DistFn, m: ScanModel|
                #![trigger dist_agrees(dist, d), scan_agrees((Scan { score, max_seqno, allowed: allowed_label, keep }), m)]
                dist_agrees(dist, d) && scan_agrees(
                    (Scan { score, max_seqno, allowed: allowed_label, keep }),
                    m,
                ) ==> {
                    let t = completed(
                        self@,
                        probed(
                            self@,
                            keys_of(d, self@.coarse),
                            keys_of(d, self@.supers),
                            nprobe as nat,
                        ),
                        m,
                        tail_budget as nat,
                    );
                    r.0@ == best(t.out, k as nat) && r.1 == t.scored && r.2 == t.truncated
                },
    {
        let f = Scan { score, max_seqno, allowed: allowed_label, keep };
        let at: Vec<usize> = self.probe_cells(&dist, nprobe);
        let n: usize = self.lists.len();
        let inside: Vec<usize> = pick_cells(n, &at, true);
        let rest: Vec<usize> = pick_cells(n, &at, false);
        let mut out: Vec<(u32, NodeId)> = self.scan_cells(&f, &inside);
        let ghost base = out@;
        let ghost lists = self@.lists;
        let ghost b = tail_budget as nat;
        let mut scored: usize = 0;
        let mut truncated: bool = false;
        let mut i: usize = 0;
        proof {
            assert(rest@.take(0) =~= Seq::<usize>::empty());
            assert(base + Seq::<(u32, NodeId)>::empty() =~= base);
        }
        while i < rest.len() && !truncated
            invariant
                i <= rest.len(),
                total_scan(f),
                lists == self@.lists,
                b == tail_budget as nat,
                forall|x: int| 0 <= x < rest.len() ==> (#[trigger] rest@[x]) < lists.len(),
                scored <= tail_budget,
                all_kept(f.keep, out@),
                forall|m: ScanModel| #[trigger]
                    scan_agrees(f, m) ==> {
                        let t = tail_of(m, lists, rest@.take(i as int), b);
                        out@ == base + t.out && scored == t.scored && truncated == t.truncated
                    },
            decreases rest.len() - i,
        {
            let ghost before = out@;
            let ghost scored0 = scored;
            let list = &self.lists[rest[i]];
            let picked = pick_postings(&f, list);
            proof {
                let t = rest@.take(i + 1);
                assert(t.drop_last() =~= rest@.take(i as int));
                assert(t.last() == rest@[i as int]);
            }
            if picked.len() > tail_budget - scored {
                truncated = true;
            } else {
                let more = score_postings(&f, list, &picked);
                append_all(&mut out, &more);
                scored = scored + more.len();
            }
            assert forall|m: ScanModel| #[trigger] scan_agrees(f, m) implies {
                let t = tail_of(m, lists, rest@.take(i + 1), b);
                out@ == base + t.out && scored == t.scored && truncated == t.truncated
            } by {
                let t0 = tail_of(m, lists, rest@.take(i as int), b);
                assert(before == base + t0.out && scored0 == t0.scored);
                let s = scanned(m, lists[rest@[i as int] as int]);
                assert(scores_at(m, postings(list@), picked@) == s);
                assert((base + t0.out) + s =~= base + (t0.out + s));
            }
            i += 1;
        }
        proof {
            assert(rest@.take(rest@.len() as int) =~= rest@);
            assert forall|m: ScanModel| #[trigger] scan_agrees(f, m) implies {
                let t = tail_of(m, lists, rest@, b);
                out@ == base + t.out && scored == t.scored && truncated == t.truncated
            } by {
                lemma_tail_stops(m, lists, rest@, i as int, b);
            }
            lemma_best_kept(f.keep, out@, k as nat);
        }
        (pick_best(&out, k), scored, truncated)
    }
}

/// Whether every hit's node has a row.
pub open spec fn all_have_rows(x: IvfModel, hits: Seq<(NodeId, u32)>) -> bool {
    forall|i: int| 0 <= i < hits.len() ==> x.row_of.contains_key((#[trigger] hits[i]).0)
}

/// A node that a scan gives comes from a posting that the scan reads.
proof fn lemma_scanned_from(
    f: ScanModel,
    list: Seq<PostingModel>,
    i: int,
)
    requires
        0 <= i < scanned(f, list).len(),
    ensures
        exists|j: int|
            0 <= j < list.len() && passes(f, #[trigger] list[j]) && scanned(f, list)[i] == (
                (f.score)(list[j].code),
                list[j].node,
            ),
    decreases list.len(),
{
    let init = list.drop_last();
    if i < scanned(f, init).len() {
        lemma_scanned_from(f, init, i);
        let j = choose|j: int|
            0 <= j < init.len() && passes(f, #[trigger] init[j]) && scanned(f, init)[i] == (
                (f.score)(init[j].code),
                init[j].node,
            );
        assert(list[j] == init[j]);
    } else {
        assert(passes(f, list[list.len() - 1]));
    }
}

proof fn lemma_cells_from(
    f: ScanModel,
    lists: Seq<Seq<PostingModel>>,
    cells: Seq<usize>,
    i: int,
)
    requires
        0 <= i < scanned_cells(f, lists, cells).len(),
        forall|x: int| 0 <= x < cells.len() ==> (#[trigger] cells[x]) < lists.len(),
    ensures
        posting_behind(f, lists, scanned_cells(f, lists, cells)[i].1),
    decreases cells.len(),
{
    let init = scanned_cells(f, lists, cells.drop_last());
    if i < init.len() {
        lemma_cells_from(f, lists, cells.drop_last(), i);
    } else {
        let c = cells[cells.len() - 1] as int;
        lemma_scanned_from(f, lists[c], i - init.len());
        let j = choose|j: int|
            0 <= j < lists[c].len() && passes(f, #[trigger] lists[c][j]) && scanned(
                f,
                lists[c],
            )[i - init.len()] == ((f.score)(lists[c][j].code), lists[c][j].node);
        assert(passes(f, lists[c][j]));
    }
}

/// Whether a posting of a node is one that a scan reads.
pub open spec fn posting_behind(f: ScanModel, lists: Seq<Seq<PostingModel>>, n: NodeId) -> bool {
    exists|c: int, i: int|
        0 <= c < lists.len() && 0 <= i < lists[c].len() && passes(f, #[trigger] lists[c][i])
            && lists[c][i].node == n
}

proof fn lemma_nearest_range(keys: Seq<u32>, at: Seq<usize>, k: nat, n: nat)
    requires
        forall|i: int| 0 <= i < at.len() ==> (#[trigger] at[i]) < n,
    ensures
        forall|i: int|
            0 <= i < nearest_at(keys, at, k).len() ==> (#[trigger] nearest_at(keys, at, k)[i]) < n,
{
    let pairs = keyed(keys, at);
    law_ranking(pairs);
    assert forall|i: int| 0 <= i < nearest_at(keys, at, k).len() implies (#[trigger] nearest_at(
        keys,
        at,
        k,
    )[i]) < n by {
        let x = ranked(pairs)[i];
        assert(ranked(pairs).contains(x));
        lemma_ranked_from(pairs, x);
        let y = choose|y: int| 0 <= y < pairs.len() && pairs[y] == x;
        assert(pairs[y].1 == at[y]);
    }
}

proof fn lemma_gathered_range(members: Seq<Seq<u32>>, order: Seq<usize>, target: nat, n: nat)
    requires
        forall|s: int, i: int|
            0 <= s < members.len() && 0 <= i < members[s].len() ==> (#[trigger] members[s][i]) < n,
        forall|i: int| 0 <= i < order.len() ==> (#[trigger] order[i]) < members.len(),
    ensures
        forall|i: int|
            0 <= i < gathered(members, order, target).len() ==> (#[trigger] gathered(
                members,
                order,
                target,
            )[i]) < n,
    decreases order.len(),
{
    if order.len() > 0 {
        lemma_gathered_range(members, order.drop_last(), target, n);
        let s = order[order.len() - 1] as int;
        let init = gathered(members, order.drop_last(), target);
        let g = gathered(members, order, target);
        assert forall|i: int| 0 <= i < g.len() implies (#[trigger] g[i]) < n by {
            if i >= init.len() {
                assert(members[s][i - init.len()] < n);
            } else {
                assert(g[i] == init[i]);
            }
        }
    }
}

/// Only cells are probed.
proof fn lemma_probed_range(x: IvfModel, ck: Seq<u32>, sk: Seq<u32>, nprobe: nat)
    requires
        index_wf(x),
    ensures
        forall|i: int|
            0 <= i < probed(x, ck, sk, nprobe).len() ==> (#[trigger] probed(x, ck, sk, nprobe)[i])
                < x.lists.len(),
{
    let np = if nprobe == 0 {
        1
    } else {
        nprobe
    };
    let n = x.coarse.len();
    if x.supers.len() == 0 {
        assert forall|i: int| 0 <= i < positions(n).len() implies (#[trigger] positions(n)[i]) < n by {
            lemma_position(n, i);
        }
        lemma_nearest_range(ck, positions(n), np, n);
    } else {
        let target = if np * COARSE_FANOUT < x.nlist {
            (np * COARSE_FANOUT) as nat
        } else {
            x.nlist
        };
        let sn = x.supers.len();
        assert forall|i: int| 0 <= i < positions(sn).len() implies (#[trigger] positions(sn)[i])
            < sn by {
            lemma_position(sn, i);
        }
        lemma_nearest_range(sk, positions(sn), sn, sn);
        let order = nearest_at(sk, positions(sn), sn);
        lemma_gathered_range(x.members, order, target, n);
        lemma_nearest_range(ck, gathered(x.members, order, target), np, n);
    }
}

proof fn lemma_position(n: nat, i: int)
    requires
        0 <= i < n,
    ensures
        positions(n)[i] < n,
{
}

/// A best item is one of the scored.
proof fn lemma_best_from(scored: Seq<(u32, NodeId)>, k: nat, i: int)
    requires
        0 <= i < best(scored, k).len(),
    ensures
        best(scored, k).len() <= k,
        scored.contains((best(scored, k)[i].1, best(scored, k)[i].0)),
{
    law_ranking(scored);
    let x = ranked(scored)[i];
    assert(ranked(scored).contains(x));
    lemma_ranked_from(scored, x);
}

/// A hit is scoped: behind it is a posting from before the sequence number, with an allowed label
/// and a node that is kept; and there are no more hits than asked for.
pub proof fn law_hits_are_scoped(x: IvfModel, dist: DistFn, f: ScanModel, k: nat, nprobe: nat)
    requires
        index_wf(x),
    ensures
        found(x, dist, f, k, nprobe).len() <= k,
        forall|i: int|
            0 <= i < found(x, dist, f, k, nprobe).len() ==> posting_behind(
                f,
                x.lists,
                (#[trigger] found(x, dist, f, k, nprobe)[i]).0,
            ) && x.row_of.contains_key(found(x, dist, f, k, nprobe)[i].0),
{
    let ck = keys_of(dist, x.coarse);
    let sk = keys_of(dist, x.supers);
    let cells = probed(x, ck, sk, nprobe);
    lemma_probed_range(x, ck, sk, nprobe);
    let scored = scanned_cells(f, x.lists, cells);
    let hits = found(x, dist, f, k, nprobe);
    law_ranking(scored);
    assert forall|i: int| 0 <= i < hits.len() implies posting_behind(
        f,
        x.lists,
        (#[trigger] hits[i]).0,
    ) && x.row_of.contains_key(hits[i].0) by {
        lemma_best_from(scored, k, i);
        let y = choose|y: int| 0 <= y < scored.len() && scored[y] == (hits[i].1, hits[i].0);
        lemma_cells_from(f, x.lists, cells, y);
        let (c, j) = choose|c: int, j: int|
            0 <= c < x.lists.len() && 0 <= j < x.lists[c].len() && passes(
                f,
                #[trigger] x.lists[c][j],
            ) && x.lists[c][j].node == hits[i].0;
        assert(x.row_of.contains_key(x.lists[c][j].node));
    }
}

/// Re-ranking only orders: its hits are hits of the search behind it, with the distances of their
/// vectors.
pub proof fn law_reranked_are_hits(x: IvfModel, dist: DistFn, f: ScanModel, k: nat, nprobe: nat, r: nat)
    requires
        index_wf(x),
    ensures
        reranked(x, dist, f, k, nprobe, r).len() <= k,
        forall|i: int|
            0 <= i < reranked(x, dist, f, k, nprobe, r).len() ==> posting_behind(
                f,
                x.lists,
                (#[trigger] reranked(x, dist, f, k, nprobe, r)[i]).0,
            ) && reranked(x, dist, f, k, nprobe, r)[i].1 == dist(
                x.rows[x.row_of[reranked(x, dist, f, k, nprobe, r)[i].0] as int],
            ),
{
    let depth = if r > k {
        r
    } else {
        k
    };
    law_hits_are_scoped(x, dist, f, depth, nprobe);
    let hits = found(x, dist, f, depth, nprobe);
    let exact = by_distance(x, dist, hits);
    let out = reranked(x, dist, f, k, nprobe, r);
    law_ranking(exact);
    assert forall|i: int| 0 <= i < out.len() implies posting_behind(
        f,
        x.lists,
        (#[trigger] out[i]).0,
    ) && out[i].1 == dist(x.rows[x.row_of[out[i].0] as int]) by {
        lemma_best_from(exact, k, i);
        let y = choose|y: int| 0 <= y < exact.len() && exact[y] == (out[i].1, out[i].0);
        assert(hits[y].0 == out[i].0);
        assert(posting_behind(f, x.lists, hits[y].0));
    }
}

/// The cells inside and outside together are all cells.
proof fn lemma_cells_split(
    f: ScanModel,
    lists: Seq<Seq<PostingModel>>,
    at: Seq<usize>,
    n: nat,
)
    requires
        n <= lists.len() <= usize::MAX,
    ensures
        scanned_cells(f, lists, cells_where(n, at, true)).to_multiset().add(
            scanned_cells(f, lists, cells_where(n, at, false)).to_multiset(),
        ) == scanned_cells(f, lists, positions(n)).to_multiset(),
    decreases n,
{
    let all = scanned_cells(f, lists, positions(n));
    let ins = cells_where(n, at, true);
    let outs = cells_where(n, at, false);
    if n == 0 {
        broadcast use vstd::seq_lib::group_to_multiset_ensures;

        assert(positions(0) =~= Seq::<usize>::empty());
        assert(scanned_cells(f, lists, ins).to_multiset().add(
            scanned_cells(f, lists, outs).to_multiset(),
        ) =~= all.to_multiset());
    } else {
        let m = (n - 1) as nat;
        let c = m as usize;
        lemma_cells_split(f, lists, at, m);
        assert(positions(n).drop_last() =~= positions(m));
        assert(positions(n).last() == c);
        let more = scanned(f, lists[c as int]);
        let before = scanned_cells(f, lists, positions(m));
        vstd::seq_lib::lemma_multiset_commutative(before, more);
        let i0 = scanned_cells(f, lists, cells_where(m, at, true));
        let o0 = scanned_cells(f, lists, cells_where(m, at, false));
        if at.contains(c) {
            assert(ins.drop_last() =~= cells_where(m, at, true));
            vstd::seq_lib::lemma_multiset_commutative(i0, more);
            assert(outs == cells_where(m, at, false));
        } else {
            assert(outs.drop_last() =~= cells_where(m, at, false));
            vstd::seq_lib::lemma_multiset_commutative(o0, more);
            assert(ins == cells_where(m, at, true));
        }
        assert(scanned_cells(f, lists, ins).to_multiset().add(
            scanned_cells(f, lists, outs).to_multiset(),
        ) =~= all.to_multiset());
    }
}

proof fn lemma_full_tail(
    f: ScanModel,
    lists: Seq<Seq<PostingModel>>,
    cells: Seq<usize>,
    budget: nat,
)
    ensures
        ({
            let t = tail_of(f, lists, cells, budget);
            &&& !t.truncated ==> t.out == scanned_cells(f, lists, cells)
            &&& t.scored <= budget
            &&& t.scored == t.out.len()
            &&& t.scored <= scanned_cells(f, lists, cells).len()
            &&& t.truncated == (scanned_cells(f, lists, cells).len() > budget)
            &&& !t.truncated ==> t.scored == scanned_cells(f, lists, cells).len()
        }),
    decreases cells.len(),
{
    if cells.len() > 0 {
        lemma_full_tail(f, lists, cells.drop_last(), budget);
    }
}

/// A complete search is complete: where the budget did not cut the tail off, it finds the best of
/// all postings that the scan reads, whatever cells were probed, and it scored all those of the cells
/// that are not probed. The budget suffices exactly where these are no more; it caps in any case how
/// many are scored.
pub proof fn law_complete_search(
    x: IvfModel,
    at: Seq<usize>,
    f: ScanModel,
    k: nat,
    budget: nat,
)
    requires
        x.lists.len() <= usize::MAX,
    ensures
        !completed(x, at, f, budget).truncated ==> best(completed(x, at, f, budget).out, k) == best(
            scanned_cells(f, x.lists, positions(x.lists.len())),
            k,
        ),
        completed(x, at, f, budget).truncated == (scanned_cells(
            f,
            x.lists,
            cells_where(x.lists.len(), at, false),
        ).len() > budget),
        completed(x, at, f, budget).scored <= budget,
        !completed(x, at, f, budget).truncated ==> completed(x, at, f, budget).scored
            == scanned_cells(f, x.lists, cells_where(x.lists.len(), at, false)).len(),
{
    let n = x.lists.len();
    let t = completed(x, at, f, budget);
    let rest = cells_where(n, at, false);
    lemma_full_tail(f, x.lists, rest, budget);
    if !t.truncated {
        let ins = scanned_cells(f, x.lists, cells_where(n, at, true));
        let outs = scanned_cells(f, x.lists, rest);
        let all = scanned_cells(f, x.lists, positions(n));
        lemma_cells_split(f, x.lists, at, n);
        vstd::seq_lib::lemma_multiset_commutative(ins, outs);
        assert(t.out == ins + outs);
        assert forall|a: (u32, NodeId), b: (u32, NodeId)|
            !#[trigger] a.ahead(b) && !b.ahead(a) implies a == b by {}
        law_ranking_is_unique(t.out, all);
    }
}

/// A scan of more cells gives what a scan of the first of them gives.
proof fn lemma_more_cells(f: ScanModel, lists: Seq<Seq<PostingModel>>, cells: Seq<usize>, n: int)
    requires
        0 <= n <= cells.len(),
    ensures
        scanned_cells(f, lists, cells.take(n)).len() <= scanned_cells(f, lists, cells).len(),
        scanned_cells(f, lists, cells).take(scanned_cells(f, lists, cells.take(n)).len() as int)
            == scanned_cells(f, lists, cells.take(n)),
    decreases cells.len(),
{
    let part = scanned_cells(f, lists, cells.take(n));
    if n == cells.len() {
        assert(cells.take(n) =~= cells);
        assert(part.take(part.len() as int) =~= part);
    } else {
        let init = cells.drop_last();
        lemma_more_cells(f, lists, init, n);
        assert(init.take(n) =~= cells.take(n));
        let head = scanned_cells(f, lists, init);
        assert(scanned_cells(f, lists, cells).take(part.len() as int) =~= head.take(
            part.len() as int,
        ));
    }
}

/// Recall rises with the number of probes: in an index of one level, more probes read the same cells
/// first, so every posting that is scored stays scored.
pub proof fn law_more_probes(
    x: IvfModel,
    f: ScanModel,
    ck: Seq<u32>,
    sk: Seq<u32>,
    fewer: nat,
    more: nat,
)
    requires
        x.supers.len() == 0,
        fewer <= more,
    ensures
        ({
            let a = probed(x, ck, sk, fewer);
            let b = probed(x, ck, sk, more);
            let seen = scanned_cells(f, x.lists, a);
            &&& a.len() <= b.len()
            &&& b.take(a.len() as int) == a
            &&& seen.len() <= scanned_cells(f, x.lists, b).len()
            &&& scanned_cells(f, x.lists, b).take(seen.len() as int) == seen
        }),
{
    let a = probed(x, ck, sk, fewer);
    let b = probed(x, ck, sk, more);
    assert(b.take(a.len() as int) =~= a);
    lemma_more_cells(f, x.lists, b, a.len() as int);
}

} // verus!
