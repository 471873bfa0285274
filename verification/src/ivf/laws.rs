//! What the index holds and finds, said of its postings, centroids and vectors.
use super::search::{
    best, by_distance, found, gathered, keyed, nearest_at, positions, probed, reranked, scanned,
    scanned_cells,
};
use super::{
    added, code_of, first_min, is_sqrt, keys_of, keys_to, law_first_min, routed, DistFn, IvfModel,
    MetricFn, PartFn, PostingModel, ScanModel, INFINITE, KSUB,
};
use crate::fact::NodeId;
use crate::rank::{law_ranking, lemma_ranked_from, ranked, Ranks};
use vstd::prelude::*;

verus! {

/// A scan reads postings one by one and in order: of each that is from before the sequence number, of
/// an allowed label and of a node that is kept, the score of its code with its node; of others nothing.
pub proof fn law_scan_reads_postings(
    f: ScanModel,
    a: Seq<PostingModel>,
    p: PostingModel,
    b: Seq<PostingModel>,
)
    ensures
        scanned(f, Seq::empty()) == Seq::<(u32, NodeId)>::empty(),
        (f.max_seqno is None || p.seqno < f.max_seqno->0) && (f.allowed)(p.label) && (f.keep)(p.node)
            ==> scanned(f, seq![p]) == seq![((f.score)(p.code), p.node)],
        f.max_seqno is Some && p.seqno >= f.max_seqno->0 ==> scanned(f, seq![p]).len() == 0,
        !(f.allowed)(p.label) ==> scanned(f, seq![p]).len() == 0,
        !(f.keep)(p.node) ==> scanned(f, seq![p]).len() == 0,
        scanned(f, a + b) == scanned(f, a) + scanned(f, b),
    decreases b.len(),
{
    assert(seq![p].drop_last() =~= Seq::empty());
    assert(scanned(f, Seq::empty()) =~= Seq::<(u32, NodeId)>::empty());
    if (f.max_seqno is None || p.seqno < f.max_seqno->0) && (f.allowed)(p.label) && (f.keep)(p.node) {
        assert(scanned(f, seq![p]) =~= seq![((f.score)(p.code), p.node)]);
    }
    if b.len() == 0 {
        assert(a + b =~= a);
        assert(scanned(f, a) + scanned(f, b) =~= scanned(f, a));
    } else {
        law_scan_reads_postings(f, a, p, b.drop_last());
        assert((a + b).drop_last() =~= a + b.drop_last());
        assert((a + b).last() == b.last());
        assert(scanned(f, a + b) =~= scanned(f, a) + scanned(f, b));
    }
}

/// The best are the front of all put in order, the least score first and on a tie the smaller id, each
/// turned round to its node and its score; all of them where there are no more than `k`.
pub proof fn law_best_are_least(scored: Seq<(u32, NodeId)>, k: nat)
    ensures
        exists|all: Seq<(u32, NodeId)>|
            {
                &&& #[trigger] all.to_multiset() == scored.to_multiset()
                &&& forall|i: int, j: int|
                    0 <= i < j < all.len() ==> (#[trigger] all[i]).0 < (#[trigger] all[j]).0 || (
                    all[i].0 == all[j].0 && all[i].1 <= all[j].1)
                &&& best(scored, k).len() == if k <= scored.len() {
                    k
                } else {
                    scored.len()
                }
                &&& forall|i: int|
                    0 <= i < best(scored, k).len() ==> (#[trigger] best(scored, k)[i]).0 == all[i].1
                        && best(scored, k)[i].1 == all[i].0
            },
{
    law_ranking(scored);
    let all = ranked(scored);
    assert forall|i: int, j: int| 0 <= i < j < all.len() implies (#[trigger] all[i]).0 < (
    #[trigger] all[j]).0 || (all[i].0 == all[j].0 && all[i].1 <= all[j].1) by {}
    assert(all.to_multiset() == scored.to_multiset());
}

/// The nearest positions are some of those given, as many as asked for or as there are, the nearest
/// first; and no position that is left out has a smaller key than one that is in.
pub proof fn law_nearest_positions(keys: Seq<u32>, at: Seq<usize>, k: nat)
    requires
        at.no_duplicates(),
    ensures
        ({
            let r = nearest_at(keys, at, k);
            &&& r.len() == if k <= at.len() {
                k
            } else {
                at.len()
            }
            &&& r.no_duplicates()
            &&& forall|i: int| 0 <= i < r.len() ==> at.contains(#[trigger] r[i])
            &&& forall|i: int, j: int|
                0 <= i < j < r.len() ==> keys[(#[trigger] r[i]) as int] <= keys[(
                #[trigger] r[j]) as int]
            &&& forall|c: usize, i: int|
                #![trigger at.contains(c), r[i]]
                at.contains(c) && !r.contains(c) && 0 <= i < r.len() ==> keys[r[i] as int]
                    <= keys[c as int]
        }),
{
    broadcast use vstd::seq_lib::group_to_multiset_ensures;

    let ks = keyed(keys, at);
    law_ranking(ks);
    let all = ranked(ks);
    let r = nearest_at(keys, at, k);
    assert(ks.no_duplicates()) by {
        assert forall|i: int, j: int| 0 <= i < ks.len() && 0 <= j < ks.len() && i != j implies ks[i]
            != ks[j] by {
            assert(at[i] != at[j]);
        }
    }
    ks.lemma_multiset_has_no_duplicates();
    all.lemma_multiset_has_no_duplicates_conv();
    assert forall|i: int| 0 <= i < all.len() implies at.contains((#[trigger] all[i]).1) && all[i].0
        == keys[all[i].1 as int] by {
        assert(all.contains(all[i]));
        lemma_ranked_from(ks, all[i]);
        let j = choose|j: int| 0 <= j < ks.len() && ks[j] == all[i];
        assert(at[j] == all[i].1);
    }
    assert forall|i: int, j: int| 0 <= i < r.len() && 0 <= j < r.len() && i != j implies r[i] != r[j] by {
        assert(all[i] != all[j]);
    }
    assert forall|i: int| 0 <= i < r.len() implies at.contains(#[trigger] r[i]) by {
        assert(r[i] == all[i].1);
    }
    assert forall|i: int, j: int| 0 <= i < j < r.len() implies keys[(#[trigger] r[i]) as int] <= keys[(
    #[trigger] r[j]) as int] by {
        assert(!all[j].ahead(all[i]));
    }
    assert forall|c: usize, i: int|
        #![trigger at.contains(c), r[i]]
        at.contains(c) && !r.contains(c) && 0 <= i < r.len() implies keys[r[i] as int]
        <= keys[c as int] by {
        let j = choose|j: int| 0 <= j < at.len() && at[j] == c;
        assert(ks.contains(ks[j]));
        assert(all.to_multiset().contains(ks[j]));
        assert(all.contains(ks[j]));
        let l = choose|l: int| 0 <= l < all.len() && all[l] == ks[j];
        if l < r.len() {
            assert(r[l] == c);
        }
        assert(!all[l].ahead(all[i]));
    }
}

/// In an index of one level a query probes the cells whose centroids are nearest, at least one: as
/// many as asked for or as there are, none twice, the nearest first, and none that is left out is
/// nearer.
pub proof fn law_probes_are_nearest(x: IvfModel, ck: Seq<u32>, sk: Seq<u32>, nprobe: nat)
    requires
        x.supers.len() == 0,
        x.coarse.len() <= usize::MAX,
    ensures
        ({
            let r = probed(x, ck, sk, nprobe);
            let want = if nprobe == 0 {
                1
            } else {
                nprobe
            };
            &&& r.len() == if want <= x.coarse.len() {
                want
            } else {
                x.coarse.len()
            }
            &&& r.no_duplicates()
            &&& forall|i: int| 0 <= i < r.len() ==> (#[trigger] r[i]) < x.coarse.len()
            &&& forall|i: int, j: int|
                0 <= i < j < r.len() ==> ck[(#[trigger] r[i]) as int] <= ck[(#[trigger] r[j]) as int]
            &&& forall|c: usize, i: int|
                #![trigger r.contains(c), r[i]]
                c < x.coarse.len() && !r.contains(c) && 0 <= i < r.len() ==> ck[r[i] as int]
                    <= ck[c as int]
        }),
{
    let at = positions(x.coarse.len());
    let np = if nprobe == 0 {
        1
    } else {
        nprobe
    };
    let r = probed(x, ck, sk, nprobe);
    assert(at.no_duplicates());
    law_nearest_positions(ck, at, np);
    assert forall|i: int| 0 <= i < r.len() implies (#[trigger] r[i]) < x.coarse.len() by {
        assert(at.contains(r[i]));
        let j = choose|j: int| 0 <= j < at.len() && at[j] == r[i];
        assert(at[j] == j as usize);
    }
    assert forall|c: usize, i: int|
        #![trigger r.contains(c), r[i]]
        c < x.coarse.len() && !r.contains(c) && 0 <= i < r.len() implies ck[r[i] as int]
        <= ck[c as int] by {
        assert(at[c as int] == c);
        assert(at.contains(c));
    }
}

/// An index with one more vector has it: in its cell one posting more, at the end, with its code, node,
/// number and label; every other cell as before; and the vector itself under its node. What other
/// nodes have stays.
pub proof fn law_added_is_there(
    x: IvfModel,
    node: NodeId,
    seqno: u64,
    emb: Seq<u32>,
    label: u32,
    cell: int,
    code: Seq<u8>,
    other: NodeId,
    c: int,
)
    requires
        0 <= cell < x.lists.len(),
        x.rows.len() < u32::MAX,
        forall|n: NodeId| #[trigger] x.row_of.contains_key(n) ==> x.row_of[n] < x.rows.len(),
    ensures
        ({
            let y = added(x, node, seqno, emb, label, cell, code);
            let p = y.lists[cell][x.lists[cell].len() as int];
            &&& y.lists.len() == x.lists.len()
            &&& y.lists[cell].len() == x.lists[cell].len() + 1
            &&& p.code == code && p.node == node && p.seqno == seqno && p.label == label
            &&& forall|i: int|
                0 <= i < x.lists[cell].len() ==> #[trigger] y.lists[cell][i] == x.lists[cell][i]
            &&& 0 <= c < x.lists.len() && c != cell ==> y.lists[c] == x.lists[c]
            &&& y.row_of.contains_key(node) && y.rows[y.row_of[node] as int] == emb
            &&& other != node && x.row_of.contains_key(other) ==> y.row_of.contains_key(other)
                && y.rows[y.row_of[other] as int] == x.rows[x.row_of[other] as int]
            &&& other != node && !x.row_of.contains_key(other) ==> !y.row_of.contains_key(other)
            &&& y.coarse == x.coarse && y.rows.len() == x.rows.len() + 1
        }),
{
}

/// A code names for every part the nearest entry of its codebook: none is nearer, and one that is as
/// near stands later.
pub proof fn law_code_is_nearest(part: PartFn, m: nat, ksub: nat, j: int, c: int)
    requires
        0 <= j < m <= usize::MAX,
        0 <= c < ksub <= KSUB,
        part(j as usize, c as usize) < INFINITE,
    ensures
        code_of(part, m, ksub).len() == m,
        ({
            let e = code_of(part, m, ksub)[j];
            &&& e < ksub
            &&& part(j as usize, e as usize) <= part(j as usize, c as usize)
            &&& c < e ==> part(j as usize, e as usize) < part(j as usize, c as usize)
        }),
{
    let keys = Seq::new(ksub, |i: int| part(j as usize, i as usize));
    law_first_min(keys);
    let e = first_min(keys).0;
    assert(keys[c] == part(j as usize, c as usize));
    assert(keys[e] == part(j as usize, e as usize));
    assert((e as u8) as int == e);
}

/// Cells are routed by nearness: each is under exactly one super-centroid, the nearest to its own
/// centroid and of equally near ones the first.
pub proof fn law_cells_are_routed(
    dist: MetricFn,
    coarse: Seq<Seq<u32>>,
    supers: Seq<Seq<u32>>,
    c: int,
    s: int,
)
    requires
        0 <= c < coarse.len() <= u32::MAX,
        0 <= s < supers.len(),
    ensures
        routed(dist, coarse, supers).len() == supers.len(),
        routed(dist, coarse, supers)[s].contains(c as u32) <==> s == first_min(
            keys_to(dist, coarse[c], supers),
        ).0,
{
    lemma_routed(dist, coarse, supers, s, c as u32);
}

proof fn lemma_routed(
    dist: MetricFn,
    coarse: Seq<Seq<u32>>,
    supers: Seq<Seq<u32>>,
    s: int,
    c: u32,
)
    requires
        coarse.len() <= u32::MAX,
        0 <= s < supers.len(),
    ensures
        routed(dist, coarse, supers).len() == supers.len(),
        routed(dist, coarse, supers)[s].contains(c) <==> (c < coarse.len() && s == first_min(
            keys_to(dist, coarse[c as int], supers),
        ).0),
    decreases coarse.len(),
{
    if coarse.len() > 0 {
        let init = coarse.drop_last();
        lemma_routed(dist, init, supers, s, c);
        let r = routed(dist, init, supers);
        let n = (coarse.len() - 1) as u32;
        let keys = keys_to(dist, coarse.last(), supers);
        law_first_min(keys);
        let t = first_min(keys).0;
        assert(coarse[n as int] == coarse.last());
        if s == t {
            let w = r[s].push(n);
            assert(w[r[s].len() as int] == n);
            if r[s].contains(c) {
                let i = choose|i: int| 0 <= i < r[s].len() && r[s][i] == c;
                assert(w[i] == c);
            }
            if w.contains(c) && c != n {
                let i = choose|i: int| 0 <= i < w.len() && w[i] == c;
                assert(r[s][i] == c);
            }
        }
        if c < n {
            assert(init[c as int] == coarse[c as int]);
        }
    }
}

/// Re-ranking goes by the vectors: its hits are ordered by the distance of their own vectors, and a hit
/// of the search behind it, which goes to the greater of the two depths, is left out only for as many
/// as asked for, none of them farther.
pub proof fn law_rerank_by_vectors(
    x: IvfModel,
    dist: DistFn,
    f: ScanModel,
    k: nat,
    nprobe: nat,
    depth: nat,
    deep: nat,
)
    requires
        deep == if depth > k {
            depth
        } else {
            k
        },
    ensures
        ({
            let hits = found(x, dist, f, deep, nprobe);
            let r = reranked(x, dist, f, k, nprobe, depth);
            &&& r.len() == if k <= hits.len() {
                k
            } else {
                hits.len()
            }
            &&& forall|i: int|
                0 <= i < r.len() ==> (#[trigger] r[i]).1 == dist(x.rows[x.row_of[r[i].0] as int])
            &&& forall|i: int, j: int|
                0 <= i < j < r.len() ==> (#[trigger] r[i]).1 <= (#[trigger] r[j]).1
            &&& forall|h: int, i: int|
                #![trigger hits[h], r[i]]
                0 <= h < hits.len() && 0 <= i < r.len() && (forall|j: int|
                    0 <= j < r.len() ==> (#[trigger] r[j]).0 != hits[h].0) ==> r[i].1 <= dist(
                    x.rows[x.row_of[hits[h].0] as int],
                )
        }),
{
    broadcast use vstd::seq_lib::group_to_multiset_ensures;

    let hits = found(x, dist, f, deep, nprobe);
    let ds = by_distance(x, dist, hits);
    law_ranking(ds);
    let all = ranked(ds);
    let r = reranked(x, dist, f, k, nprobe, depth);
    assert(r == best(ds, k));
    assert forall|i: int| 0 <= i < r.len() implies (#[trigger] r[i]).1 == dist(
        x.rows[x.row_of[r[i].0] as int],
    ) by {
        assert(all.contains(all[i]));
        lemma_ranked_from(ds, all[i]);
        let j = choose|j: int| 0 <= j < ds.len() && ds[j] == all[i];
        assert(ds[j].1 == hits[j].0);
    }
    assert forall|i: int, j: int| 0 <= i < j < r.len() implies (#[trigger] r[i]).1 <= (
    #[trigger] r[j]).1 by {
        assert(!all[j].ahead(all[i]));
    }
    assert forall|h: int, i: int|
        #![trigger hits[h], r[i]]
        0 <= h < hits.len() && 0 <= i < r.len() && (forall|j: int|
            0 <= j < r.len() ==> (#[trigger] r[j]).0 != hits[h].0) implies r[i].1 <= dist(
        x.rows[x.row_of[hits[h].0] as int],
    ) by {
        assert(ds.contains(ds[h]));
        assert(all.to_multiset().contains(ds[h]));
        assert(all.contains(ds[h]));
        let l = choose|l: int| 0 <= l < all.len() && all[l] == ds[h];
        if l < r.len() {
            assert(r[l].0 == hits[h].0);
        }
        assert(!all[l].ahead(all[i]));
    }
}

/// The cells of a two-level probe come super-centroid by super-centroid: where the ones before give
/// enough cells no more are taken, else all cells of the next are, in their order.
pub proof fn law_cells_are_gathered(members: Seq<Seq<u32>>, order: Seq<usize>, next: usize, target: nat)
    ensures
        gathered(members, Seq::empty(), target) == Seq::<usize>::empty(),
        gathered(members, order, target).len() >= target ==> gathered(
            members,
            order.push(next),
            target,
        ) == gathered(members, order, target),
        gathered(members, order, target).len() < target ==> {
            let a = gathered(members, order, target);
            let b = gathered(members, order.push(next), target);
            let cells = members[next as int];
            &&& b.len() == a.len() + cells.len()
            &&& forall|i: int| 0 <= i < a.len() ==> #[trigger] b[i] == a[i]
            &&& forall|i: int| 0 <= i < cells.len() ==> b[a.len() + i] == #[trigger] cells[i]
        },
{
    assert(order.push(next).drop_last() =~= order);
    let a = gathered(members, order, target);
    let b = gathered(members, order.push(next), target);
    let cells = members[next as int];
    if a.len() < target {
        assert forall|i: int| 0 <= i < cells.len() implies b[a.len() + i] == #[trigger] cells[i] by {
            assert(b[a.len() + i] == cells[i] as usize);
        }
    }
}

/// Cells are scanned one after another, each whole.
pub proof fn law_cells_are_scanned(
    f: ScanModel,
    lists: Seq<Seq<PostingModel>>,
    cells: Seq<usize>,
    c: usize,
)
    ensures
        scanned_cells(f, lists, Seq::empty()) == Seq::<(u32, NodeId)>::empty(),
        scanned_cells(f, lists, cells.push(c)) == scanned_cells(f, lists, cells) + scanned(
            f,
            lists[c as int],
        ),
{
    assert(cells.push(c).drop_last() =~= cells);
}

/// A search misses nothing of the cells that it probes: a posting there that the scan reads is a hit,
/// or as many hits as asked for score no worse. Hits stand by their scores, the least first.
pub proof fn law_search_of_probed(
    x: IvfModel,
    dist: DistFn,
    f: ScanModel,
    k: nat,
    nprobe: nat,
    a: int,
    i: int,
)
    requires
        0 <= a < probed(x, keys_of(dist, x.coarse), keys_of(dist, x.supers), nprobe).len(),
        ({
            let cell = probed(x, keys_of(dist, x.coarse), keys_of(dist, x.supers), nprobe)[a];
            0 <= i < x.lists[cell as int].len()
        }),
    ensures
        ({
            let cell = probed(x, keys_of(dist, x.coarse), keys_of(dist, x.supers), nprobe)[a];
            let p = x.lists[cell as int][i];
            let hits = found(x, dist, f, k, nprobe);
            &&& (f.max_seqno is None || p.seqno < f.max_seqno->0) && (f.allowed)(p.label) && (f.keep)(
                p.node,
            ) ==> {
                ||| exists|h: int|
                    0 <= h < hits.len() && #[trigger] hits[h] == (p.node, (f.score)(p.code))
                ||| hits.len() == k && forall|h: int|
                    0 <= h < hits.len() ==> (#[trigger] hits[h]).1 <= (f.score)(p.code)
            }
            &&& forall|h: int, j: int|
                0 <= h < j < hits.len() ==> (#[trigger] hits[h]).1 <= (#[trigger] hits[j]).1
        }),
{
    broadcast use vstd::seq_lib::group_to_multiset_ensures;

    let cells = probed(x, keys_of(dist, x.coarse), keys_of(dist, x.supers), nprobe);
    let list = x.lists[cells[a] as int];
    let p = list[i];
    let sc = scanned_cells(f, x.lists, cells);
    let hits = found(x, dist, f, k, nprobe);
    law_ranking(sc);
    let all = ranked(sc);
    assert forall|h: int, j: int| 0 <= h < j < hits.len() implies (#[trigger] hits[h]).1 <= (
    #[trigger] hits[j]).1 by {
        assert(!all[j].ahead(all[h]));
    }
    if (f.max_seqno is None || p.seqno < f.max_seqno->0) && (f.allowed)(p.label) && (f.keep)(p.node) {
        let e = ((f.score)(p.code), p.node);
        lemma_scanned_has(f, list, i);
        lemma_cells_have(f, x.lists, cells, a, e);
        assert(all.to_multiset().contains(e));
        assert(all.contains(e));
        let l = choose|l: int| 0 <= l < all.len() && all[l] == e;
        if l < hits.len() {
            assert(hits[l] == (p.node, (f.score)(p.code)));
        } else {
            assert forall|h: int| 0 <= h < hits.len() implies (#[trigger] hits[h]).1 <= (f.score)(
                p.code,
            ) by {
                assert(!all[l].ahead(all[h]));
            }
        }
    }
}

proof fn lemma_scanned_has(f: ScanModel, list: Seq<PostingModel>, i: int)
    requires
        0 <= i < list.len(),
        f.max_seqno is None || list[i].seqno < f.max_seqno->0,
        (f.allowed)(list[i].label),
        (f.keep)(list[i].node),
    ensures
        scanned(f, list).contains(((f.score)(list[i].code), list[i].node)),
{
    let p = list[i];
    let (a, b) = (list.take(i), list.skip(i + 1));
    law_scan_reads_postings(f, a, p, seq![p]);
    law_scan_reads_postings(f, a + seq![p], p, b);
    assert(a + seq![p] + b =~= list);
    let s = scanned(f, a) + seq![((f.score)(p.code), p.node)] + scanned(f, b);
    assert(scanned(f, list) =~= s);
    assert(s[scanned(f, a).len() as int] == ((f.score)(p.code), p.node));
}

proof fn lemma_cells_have(
    f: ScanModel,
    lists: Seq<Seq<PostingModel>>,
    cells: Seq<usize>,
    a: int,
    e: (u32, NodeId),
)
    requires
        0 <= a < cells.len(),
        scanned(f, lists[cells[a] as int]).contains(e),
    ensures
        scanned_cells(f, lists, cells).contains(e),
    decreases cells.len(),
{
    let init = cells.drop_last();
    let last = scanned(f, lists[cells.last() as int]);
    let front = scanned_cells(f, lists, init);
    if a < init.len() {
        assert(init[a] == cells[a]);
        lemma_cells_have(f, lists, init, a, e);
        let i = choose|i: int| 0 <= i < front.len() && front[i] == e;
        assert((front + last)[i] == e);
    } else {
        let i = choose|i: int| 0 <= i < last.len() && last[i] == e;
        assert((front + last)[front.len() + i] == e);
    }
}

/// The root that sizes the levels is rounded down: it is the greatest number whose square does not
/// exceed the number.
pub proof fn law_root_is_rounded_down(x: int, r: int, q: int)
    requires
        is_sqrt(x, r),
        0 <= q,
    ensures
        0 <= r,
        q * q <= x <==> q <= r,
{
    if q <= r {
        assert(q * q <= r * r) by (nonlinear_arith)
            requires
                0 <= q <= r,
        ;
    } else {
        assert((r + 1) * (r + 1) <= q * q) by (nonlinear_arith)
            requires
                0 <= r,
                r + 1 <= q,
        ;
    }
}

} // verus!
