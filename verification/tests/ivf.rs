//! The inverted-file index, under a float quantizer that is trained here.
use std::collections::BTreeSet;
use stromadb::fact::NodeId;
use stromadb::ivf::{isqrt, super_count, IvfPq, Item, Rng};

fn bits(v: &[f32]) -> Vec<u32> {
    v.iter().map(|x| x.to_bits()).collect()
}

fn sqdist(a: &[f32], b: &[f32]) -> f32 {
    let mut s = 0f32;
    let mut i = 0;
    while i < a.len() {
        let d = a[i] - b[i];
        s += d * d;
        i += 1;
    }
    s
}

fn sqdist_bits(a: &[u32], b: &[u32]) -> u32 {
    let mut s = 0f32;
    let mut i = 0;
    while i < a.len() {
        let d = f32::from_bits(a[i]) - f32::from_bits(b[i]);
        s += d * d;
        i += 1;
    }
    s.to_bits()
}

fn nearest(x: &[f32], centroids: &[Vec<f32>]) -> (usize, f32) {
    let mut best = (0, f32::INFINITY);
    let mut i = 0;
    while i < centroids.len() {
        let d = sqdist(x, &centroids[i]);
        if d < best.1 {
            best = (i, d);
        }
        i += 1;
    }
    best
}

fn kmeans(points: &[&[f32]], k: usize, iters: usize, rng: &mut Rng) -> Vec<Vec<f32>> {
    let n = points.len();
    let d = points[0].len();
    let k = k.min(n).max(1);
    let mut centroids: Vec<Vec<f32>> = (0..k).map(|_| points[rng.below(n)].to_vec()).collect();
    for _ in 0..iters {
        let mut sums = vec![vec![0f32; d]; k];
        let mut counts = vec![0usize; k];
        for p in points {
            let c = nearest(p, &centroids).0;
            for i in 0..d {
                sums[c][i] += p[i];
            }
            counts[c] += 1;
        }
        for c in 0..k {
            if counts[c] > 0 {
                for i in 0..d {
                    centroids[c][i] = sums[c][i] / counts[c] as f32;
                }
            } else {
                centroids[c] = points[rng.below(n)].to_vec();
            }
        }
    }
    centroids
}

/// An index with the codebooks of its quantizer, and how well the quantizer fits.
struct Quantized {
    core: IvfPq,
    m: usize,
    dsub: usize,
    ksub: usize,
    codebooks: Vec<Vec<f32>>,
    trained_fit: f32,
    live_sum: f64,
    live_n: u64,
}

impl Quantized {
    fn new(dim: usize, nlist: usize, m: usize) -> Self {
        Quantized {
            core: IvfPq::new(dim, nlist, m),
            m,
            dsub: dim / m,
            ksub: 0,
            codebooks: Vec::new(),
            trained_fit: 0.0,
            live_sum: 0.0,
            live_n: 0,
        }
    }

    fn train(&mut self, sample: &[Vec<f32>]) {
        let refs: Vec<&[f32]> = sample.iter().map(|v| v.as_slice()).collect();
        let mut rng = Rng::new(0xA5A5_1234_DEAD_BEEF);
        let coarse = kmeans(&refs, self.core.nlist(), 12, &mut rng);
        let crefs: Vec<&[f32]> = coarse.iter().map(|c| c.as_slice()).collect();
        let s = super_count(coarse.len());
        let supers = if s == 0 {
            Vec::new()
        } else {
            kmeans(&crefs, s, 10, &mut rng)
        };
        let sum: f64 = refs.iter().map(|p| nearest(p, &coarse).1 as f64).sum();
        self.trained_fit = (sum / refs.len() as f64) as f32;
        self.live_sum = 0.0;
        self.live_n = 0;
        self.ksub = 256.min(refs.len()).max(1);
        self.codebooks.clear();
        for j in 0..self.m {
            let subs: Vec<&[f32]> = refs
                .iter()
                .map(|r| &r[j * self.dsub..(j + 1) * self.dsub])
                .collect();
            let cents = kmeans(&subs, self.ksub, 12, &mut rng);
            self.codebooks.push(cents.concat());
        }
        self.core.train(
            coarse.iter().map(|c| bits(c)).collect(),
            supers.iter().map(|c| bits(c)).collect(),
            self.ksub,
            |a: &Vec<u32>, b: &Vec<u32>| sqdist_bits(a, b),
        );
    }

    fn part(&self, x: &[f32], j: usize, c: usize) -> f32 {
        sqdist(
            &x[j * self.dsub..(j + 1) * self.dsub],
            &self.codebooks[j][c * self.dsub..(c + 1) * self.dsub],
        )
    }

    fn add(&mut self, node: NodeId, seqno: u64, x: &[f32], label: u32) {
        let codebooks = std::mem::take(&mut self.codebooks);
        let dsub = self.dsub;
        let d = self.core.add(
            node,
            seqno,
            bits(x),
            label,
            |a: &Vec<u32>, b: &Vec<u32>| sqdist_bits(a, b),
            |j: usize, c: usize| {
                sqdist(
                    &x[j * dsub..(j + 1) * dsub],
                    &codebooks[j][c * dsub..(c + 1) * dsub],
                )
                .to_bits()
            },
        );
        self.codebooks = codebooks;
        self.live_sum += f32::from_bits(d) as f64;
        self.live_n += 1;
    }

    fn add_batch(&mut self, items: Vec<(NodeId, u64, Vec<f32>, u32)>) {
        let codes: Vec<Vec<u8>> = items
            .iter()
            .map(|(_, _, x, _)| {
                self.core
                    .encode(|j: usize, c: usize| self.part(x, j, c).to_bits())
            })
            .collect();
        let items: Vec<Item> = items
            .into_iter()
            .map(|(node, seqno, x, label)| Item {
                node,
                seqno,
                embedding: bits(&x),
                label,
            })
            .collect();
        let ds = self
            .core
            .add_batch(items, codes, |a: &Vec<u32>, b: &Vec<u32>| sqdist_bits(a, b));
        for d in ds {
            self.live_sum += f32::from_bits(d) as f64;
            self.live_n += 1;
        }
    }

    fn fresh_like(&self) -> Quantized {
        Quantized {
            core: self.core.fresh_like(),
            m: self.m,
            dsub: self.dsub,
            ksub: self.ksub,
            codebooks: self.codebooks.clone(),
            trained_fit: self.trained_fit,
            live_sum: 0.0,
            live_n: 0,
        }
    }

    fn fit_ratio(&self) -> f32 {
        let live = if self.live_n == 0 {
            self.trained_fit
        } else {
            (self.live_sum / self.live_n as f64) as f32
        };
        live / self.trained_fit
    }

    fn table(&self, q: &[f32]) -> Vec<f32> {
        let mut t = vec![0f32; self.m * self.ksub];
        for j in 0..self.m {
            for c in 0..self.ksub {
                t[j * self.ksub + c] = self.part(q, j, c);
            }
        }
        t
    }

    fn score(&self, table: &[f32], code: &[u8]) -> u32 {
        let mut s = 0f32;
        for (j, c) in code.iter().enumerate() {
            s += table[j * self.ksub + *c as usize];
        }
        s.to_bits()
    }

    fn search(
        &self,
        q: &[f32],
        k: usize,
        nprobe: usize,
        max_seqno: Option<u64>,
        allowed: impl Fn(u32) -> bool,
        keep: impl Fn(NodeId) -> bool,
    ) -> Vec<(NodeId, u32)> {
        let qb = bits(q);
        let table = self.table(q);
        self.core.search(
            |e: &Vec<u32>| sqdist_bits(&qb, e),
            |c: &Vec<u8>| self.score(&table, c),
            k,
            nprobe,
            max_seqno,
            allowed,
            keep,
        )
    }

    #[allow(clippy::too_many_arguments)]
    fn search_rerank(
        &self,
        q: &[f32],
        k: usize,
        nprobe: usize,
        r: usize,
        max_seqno: Option<u64>,
        allowed: impl Fn(u32) -> bool,
        keep: impl Fn(NodeId) -> bool,
    ) -> Vec<(NodeId, u32)> {
        let qb = bits(q);
        let table = self.table(q);
        self.core.search_rerank(
            |e: &Vec<u32>| sqdist_bits(&qb, e),
            |c: &Vec<u8>| self.score(&table, c),
            k,
            nprobe,
            r,
            max_seqno,
            allowed,
            keep,
        )
    }

    #[allow(clippy::too_many_arguments)]
    fn search_complete(
        &self,
        q: &[f32],
        k: usize,
        nprobe: usize,
        max_seqno: Option<u64>,
        allowed: impl Fn(u32) -> bool,
        keep: impl Fn(NodeId) -> bool,
        budget: usize,
    ) -> (Vec<(NodeId, u32)>, usize, bool) {
        let qb = bits(q);
        let table = self.table(q);
        self.core.search_complete(
            |e: &Vec<u32>| sqdist_bits(&qb, e),
            |c: &Vec<u8>| self.score(&table, c),
            k,
            nprobe,
            max_seqno,
            allowed,
            keep,
            budget,
        )
    }
}

// clustered vectors (shared centers) so near-neighbours are well-defined, like real embeddings
fn clustered(n: usize, seed: u64, ctr: &[Vec<f32>], dim: usize) -> Vec<Vec<f32>> {
    let mut rng = Rng::new(seed);
    (0..n)
        .map(|_| {
            let c = &ctr[rng.below(ctr.len())];
            (0..dim)
                .map(|i| c[i] + (rng.next_u64() as f32 / u64::MAX as f32 - 0.5) * 0.7)
                .collect()
        })
        .collect()
}

fn centers(nc: usize, dim: usize, seed: u64) -> Vec<Vec<f32>> {
    let mut rng = Rng::new(seed);
    (0..nc)
        .map(|_| {
            (0..dim)
                .map(|_| (rng.next_u64() as f32 / u64::MAX as f32) * 2.0 - 1.0)
                .collect()
        })
        .collect()
}

fn exact_topk(data: &[Vec<f32>], q: &[f32], k: usize) -> BTreeSet<NodeId> {
    let mut d: Vec<(f32, NodeId)> = data
        .iter()
        .enumerate()
        .map(|(i, v)| (sqdist(q, v), i as NodeId))
        .collect();
    d.sort_by(|a, b| a.0.partial_cmp(&b.0).unwrap());
    d.into_iter().take(k).map(|(_, n)| n).collect()
}

fn check_rerank_recovers_recall() {
    let dim = 64;
    let ctr = centers(200, dim, 5);
    let data = clustered(6000, dim as u64, &ctr, dim);
    let mut idx = Quantized::new(dim, 64, 16);
    idx.train(&data);
    for (i, v) in data.iter().enumerate() {
        idx.add(i as NodeId, i as u64, v, 0);
    }
    let queries = clustered(40, 999, &ctr, dim);
    let k = 10;
    let mut pq = 0.0;
    let mut rr = 0.0;
    for q in &queries {
        let truth = exact_topk(&data, q, k);
        let a: BTreeSet<NodeId> = idx
            .search(q, k, 8, None, |_| true, |_| true)
            .into_iter()
            .map(|(n, _)| n)
            .collect();
        let b: BTreeSet<NodeId> = idx
            .search_rerank(q, k, 8, 100, None, |_| true, |_| true)
            .into_iter()
            .map(|(n, _)| n)
            .collect();
        pq += a.intersection(&truth).count() as f64 / k as f64;
        rr += b.intersection(&truth).count() as f64 / k as f64;
    }
    let (pq, rr) = (pq / queries.len() as f64, rr / queries.len() as f64);
    assert!(rr > pq, "rerank must beat pure PQ (pq={pq}, rerank={rr})");
    assert!(rr >= 0.9, "rerank recall@10 must reach the SLO (got {rr})");
}

#[test]
fn ivf_rerank_recovers_recall_that_pure_pq_loses() {
    check_rerank_recovers_recall();
}

#[test]
fn tests_rerank_recovers_recall_that_pure_pq_loses() {
    check_rerank_recovers_recall();
}

fn check_two_level_recall() {
    // nlist >= 512 activates the 2-level coarse quantizer; recall must stay high vs exact.
    let dim = 32;
    let ctr = centers(400, dim, 7);
    let data = clustered(20_000, 2, &ctr, dim);
    let mut idx = Quantized::new(dim, 512, 8);
    idx.train(&data);
    assert!(
        idx.core.two_level(),
        "2-level path should be active at nlist=512"
    );
    for (i, v) in data.iter().enumerate() {
        idx.add(i as NodeId, i as u64, v, 0);
    }
    let queries = clustered(40, 111, &ctr, dim);
    let k = 10;
    let mut rr = 0.0;
    for q in &queries {
        let truth = exact_topk(&data, q, k);
        let got: BTreeSet<NodeId> = idx
            .search_rerank(q, k, 16, 200, None, |_| true, |_| true)
            .into_iter()
            .map(|(n, _)| n)
            .collect();
        rr += got.intersection(&truth).count() as f64 / k as f64;
    }
    let rr = rr / queries.len() as f64;
    assert!(
        rr >= 0.9,
        "2-level coarse recall@10 must stay ≥0.9 (got {rr})"
    );
}

#[test]
fn ivf_two_level_coarse_preserves_recall() {
    check_two_level_recall();
}

#[test]
fn tests_two_level_coarse_preserves_recall() {
    check_two_level_recall();
}

#[test]
fn retraining_on_the_shifted_corpus_restores_recall() {
    // Quantizers trained on distribution A while the corpus is entirely B (= A shifted): PQ-only
    // recall degrades because cells concentrate and codebooks cover the wrong range. Retraining on
    // the actual corpus restores it — the payoff the fit ratio is there to trigger.
    let dim = 32;
    let ctr_a = centers(60, dim, 13);
    let ctr_b: Vec<Vec<f32>> = ctr_a
        .iter()
        .map(|c| c.iter().map(|x| x + 6.0).collect())
        .collect();
    let corpus = clustered(4000, 2, &ctr_b, dim);
    let queries = clustered(30, 5, &ctr_b, dim);
    let k = 10;

    let mut misfit = Quantized::new(dim, 64, 8);
    misfit.train(&clustered(3000, 1, &ctr_a, dim));
    let mut retrained = Quantized::new(dim, 64, 8);
    retrained.train(&corpus);
    for (i, v) in corpus.iter().enumerate() {
        misfit.add(i as NodeId, i as u64, v, 0);
        retrained.add(i as NodeId, i as u64, v, 0);
    }
    assert!(
        misfit.fit_ratio() > 2.0,
        "misfit must be visible in the ratio"
    );
    assert!(retrained.fit_ratio() < 1.3, "retrained fit must be healthy");

    let recall = |idx: &Quantized| {
        let mut r = 0.0;
        for q in &queries {
            let truth = exact_topk(&corpus, q, k);
            let got: BTreeSet<NodeId> = idx
                .search(q, k, 4, None, |_| true, |_| true)
                .into_iter()
                .map(|(n, _)| n)
                .collect();
            r += got.intersection(&truth).count() as f64 / k as f64;
        }
        r / queries.len() as f64
    };
    let (bad, good) = (recall(&misfit), recall(&retrained));
    assert!(
        good - bad >= 0.1,
        "retraining must materially beat the misfit index (misfit={bad}, retrained={good})"
    );
}

fn check_batch_matches_serial() {
    let dim = 32;
    let ctr = centers(80, dim, 9);
    let data = clustered(2000, 3, &ctr, dim);
    let mut a = Quantized::new(dim, 32, 8);
    a.train(&data);
    let mut b = Quantized::new(dim, 32, 8);
    b.train(&data);
    for (i, v) in data.iter().enumerate() {
        a.add(i as NodeId, i as u64, v, (i % 3) as u32);
    }
    b.add_batch(
        data.iter()
            .enumerate()
            .map(|(i, v)| (i as NodeId, i as u64, v.clone(), (i % 3) as u32))
            .collect(),
    );
    // identical index → identical search results
    let q = &data[7];
    assert_eq!(
        a.search_rerank(q, 10, 8, 100, None, |_| true, |_| true),
        b.search_rerank(q, 10, 8, 100, None, |_| true, |_| true)
    );
    assert_eq!(a.core.len(), b.core.len());
}

#[test]
fn ivf_add_batch_matches_serial_add() {
    check_batch_matches_serial();
}

#[test]
fn tests_add_batch_matches_serial_add() {
    check_batch_matches_serial();
}

fn check_authz_label() {
    let dim = 16;
    let ctr = centers(20, dim, 2);
    let data = clustered(500, 7, &ctr, dim);
    let mut idx = Quantized::new(dim, 16, 4);
    idx.train(&data);
    for (i, v) in data.iter().enumerate() {
        idx.add(i as NodeId, i as u64, v, (i % 2) as u32); // label 0 / 1
    }
    let res = idx.search_rerank(&data[0], 20, 16, 50, None, |l| l == 0, |_| true);
    assert!(
        res.iter().all(|(n, _)| n % 2 == 0),
        "unauthorized label leaked"
    );
    assert!(!res.is_empty());
}

#[test]
fn ivf_authz_label_scopes_out_unauthorized() {
    check_authz_label();
}

#[test]
fn tests_authz_label_scopes_out_unauthorized() {
    check_authz_label();
}

fn check_watermark() {
    let dim = 16;
    let ctr = centers(20, dim, 3);
    let data = clustered(300, 11, &ctr, dim);
    let mut idx = Quantized::new(dim, 16, 4);
    idx.train(&data);
    for (i, v) in data.iter().enumerate() {
        idx.add(i as NodeId, i as u64, v, 0);
    }
    let res = idx.search(&data[0], 50, 16, Some(100), |_| true, |_| true);
    assert!(
        res.iter().all(|(n, _)| *n < 100),
        "watermark tail leaked into strict read"
    );
}

#[test]
fn ivf_watermark_scopes_indexed_prefix() {
    check_watermark();
}

#[test]
fn tests_watermark_scopes_indexed_prefix() {
    check_watermark();
}

fn check_complete_tail() {
    let dim = 32;
    let ctr = centers(100, dim, 4);
    let data = clustered(3000, 1, &ctr, dim);
    let mut idx = Quantized::new(dim, 64, 8);
    idx.train(&data);
    for (i, v) in data.iter().enumerate() {
        idx.add(i as NodeId, i as u64, v, 0);
    }
    // nprobe=1 may miss; full-budget completeness scores every matching posting (no truncation)
    let (_, _, truncated) = idx.search_complete(&data[0], 10, 1, None, |_| true, |_| true, 3000);
    assert!(!truncated, "full budget must not truncate");
    // a tiny budget forces truncation (the bounded knob)
    let (_, _, truncated_small) = idx.search_complete(&data[0], 10, 1, None, |_| true, |_| true, 1);
    assert!(truncated_small, "tiny budget must bound the tail");
}

#[test]
fn ivf_complete_tail_covers_unprobed_cells() {
    check_complete_tail();
}

#[test]
fn tests_complete_tail_covers_unprobed_cells() {
    check_complete_tail();
}

#[test]
fn fit_tracks_distribution_drift() {
    let dim = 32;
    let ctr = centers(50, dim, 21);
    let mut idx = Quantized::new(dim, 64, 8);
    idx.train(&clustered(3000, 100, &ctr, dim));
    // fresh index, no adds: no evidence of drift
    assert!((idx.fit_ratio() - 1.0).abs() < 1e-6);
    // same distribution → ratio stays near 1 (out-of-sample, so slightly above)
    for (i, v) in clustered(2000, 200, &ctr, dim).iter().enumerate() {
        idx.add(i as NodeId, i as u64, v, 0);
    }
    assert_eq!(idx.live_n, 2000);
    assert!(idx.fit_ratio() < 1.3, "got {}", idx.fit_ratio());
    // shifted distribution → ratio blows past any reasonable threshold
    let far: Vec<Vec<f32>> = ctr
        .iter()
        .map(|c| c.iter().map(|x| x + 8.0).collect())
        .collect();
    let mut drifted = idx.fresh_like();
    for (i, v) in clustered(2000, 300, &far, dim).iter().enumerate() {
        drifted.add(i as NodeId, i as u64, v, 0);
    }
    assert!(drifted.fit_ratio() > 2.0, "got {}", drifted.fit_ratio());
}

#[test]
fn fresh_like_reuses_quantizers_and_matches_search() {
    let dim = 32;
    let ctr = centers(80, dim, 9);
    let data = clustered(2000, 3, &ctr, dim);
    let mut a = Quantized::new(dim, 32, 8);
    a.train(&data);
    let mut b = a.fresh_like();
    for (i, v) in data.iter().enumerate() {
        a.add(i as NodeId, i as u64, v, (i % 3) as u32);
    }
    b.add_batch(
        data.iter()
            .enumerate()
            .map(|(i, v)| (i as NodeId, i as u64, v.clone(), (i % 3) as u32))
            .collect(),
    );
    // same quantizers + same content → identical cells, codes, and results
    let q = &data[7];
    assert_eq!(
        a.search_rerank(q, 10, 8, 100, None, |_| true, |_| true),
        b.search_rerank(q, 10, 8, 100, None, |_| true, |_| true)
    );
    assert_eq!(a.core.len(), b.core.len());
    assert!((a.fit_ratio() - b.fit_ratio()).abs() < 1e-6);
}

/// Points on a line, each its own cell: a code is the point's number.
fn line(n: usize) -> IvfPq {
    let mut idx = IvfPq::new(1, n, 1);
    let coarse: Vec<Vec<u32>> = (0..n).map(|i| bits(&[i as f32])).collect();
    let s = super_count(n);
    let supers: Vec<Vec<u32>> = (0..s).map(|i| bits(&[(i * n / s) as f32])).collect();
    idx.train(
        coarse,
        supers,
        256.min(n),
        |a: &Vec<u32>, b: &Vec<u32>| sqdist_bits(a, b),
    );
    for i in 0..n {
        idx.add(
            1000 + i as NodeId,
            i as u64,
            bits(&[i as f32]),
            (i % 2) as u32,
            |a: &Vec<u32>, b: &Vec<u32>| sqdist_bits(a, b),
            |_: usize, c: usize| if c == i % 256 { 0 } else { 1 },
        );
    }
    idx
}

fn at(q: f32) -> impl Fn(&Vec<u32>) -> u32 {
    move |e: &Vec<u32>| sqdist_bits(&bits(&[q]), e)
}

fn by_code(q: f32) -> impl Fn(&Vec<u8>) -> u32 {
    move |c: &Vec<u8>| sqdist(&[q], &[c[0] as f32]).to_bits()
}

#[test]
fn a_probe_reads_the_nearest_cells() {
    let idx = line(20);
    assert!(!idx.two_level());
    let hits = idx.search(at(7.1), by_code(7.1), 10, 3, None, |_| true, |_| true);
    let ids: Vec<NodeId> = hits.iter().map(|(n, _)| *n).collect();
    assert_eq!(ids, vec![1007, 1008, 1006]);
    assert_eq!(hits[0].1, sqdist(&[7.1], &[7.0]).to_bits());
    // a probe of nothing is a probe of one
    let one = idx.search(at(7.1), by_code(7.1), 10, 0, None, |_| true, |_| true);
    assert_eq!(one.len(), 1);
}

#[test]
fn a_search_is_scoped() {
    let idx = line(20);
    let before = idx.search(at(7.1), by_code(7.1), 10, 20, Some(7), |_| true, |_| true);
    assert_eq!(before[0].0, 1006);
    let even = idx.search(at(7.1), by_code(7.1), 2, 20, None, |l| l == 0, |_| true);
    assert_eq!(even.iter().map(|h| h.0).collect::<Vec<_>>(), vec![1008, 1006]);
    let kept = idx.search(at(7.1), by_code(7.1), 2, 20, None, |_| true, |n| n == 1019);
    assert_eq!(kept.iter().map(|h| h.0).collect::<Vec<_>>(), vec![1019]);
}

#[test]
fn re_ranking_goes_by_the_vectors() {
    let idx = line(20);
    // a score that ranks the wrong way round
    let wrong = |c: &Vec<u8>| 1000 - c[0] as u32;
    let hits = idx.search_rerank(at(7.1), wrong, 2, 20, 20, None, |_| true, |_| true);
    assert_eq!(hits.iter().map(|h| h.0).collect::<Vec<_>>(), vec![1007, 1008]);
    // with too little depth only the best by score are ranked
    let shallow = idx.search_rerank(at(7.1), wrong, 2, 20, 1, None, |_| true, |_| true);
    assert_eq!(shallow.iter().map(|h| h.0).collect::<Vec<_>>(), vec![1018, 1019]);
}

#[test]
fn a_complete_search_counts_its_tail() {
    let idx = line(20);
    let (hits, scored, cut) = idx.search_complete(at(7.1), by_code(7.1), 3, 1, None, |_| true, |_| true, 19);
    assert_eq!((scored, cut), (19, false));
    assert_eq!(hits.iter().map(|h| h.0).collect::<Vec<_>>(), vec![1007, 1008, 1006]);
    let (hits, scored, cut) = idx.search_complete(at(7.1), by_code(7.1), 3, 1, None, |_| true, |_| true, 2);
    // cells 0 and 1 fit the budget, cell 2 is left out
    assert_eq!((scored, cut), (2, true));
    assert_eq!(hits.iter().map(|h| h.0).collect::<Vec<_>>(), vec![1007, 1001, 1000]);
}

#[test]
fn two_levels_find_what_is_near() {
    let idx = line(600);
    assert!(idx.two_level());
    let hits = idx.search_rerank(at(123.2), |_: &Vec<u8>| 0, 3, 4, 8, None, |_| true, |_| true);
    assert_eq!(hits.iter().map(|h| h.0).collect::<Vec<_>>(), vec![1123, 1124, 1122]);
}

#[test]
fn a_node_added_again_has_its_latest_vector() {
    let mut idx = line(20);
    idx.add(
        1003,
        50,
        bits(&[15.0]),
        0,
        |a: &Vec<u32>, b: &Vec<u32>| sqdist_bits(a, b),
        |_: usize, c: usize| if c == 15 { 0 } else { 1 },
    );
    assert_eq!(idx.len(), 21);
    assert_eq!(idx.raw_of(1003), Some(&bits(&[15.0])));
    assert_eq!(idx.raw_of(7), None);
}

#[test]
fn sizes_are_counted() {
    let idx = line(20);
    assert_eq!((idx.dim(), idx.nlist(), idx.len(), idx.is_empty()), (1, 20, 20, false));
    assert_eq!((idx.code_bytes(), idx.raw_bytes()), (20, 80));
    let fresh = idx.fresh_like();
    assert!(fresh.is_empty());
    assert_eq!(fresh.nlist(), 20);
    assert_eq!(IvfPq::new(4, 0, 2).nlist(), 1);
}

#[test]
fn cells_are_suggested_by_the_square_root() {
    assert_eq!(IvfPq::suggested_nlist(0), 16);
    assert_eq!(IvfPq::suggested_nlist(16), 16);
    assert_eq!(IvfPq::suggested_nlist(100_000), 1264);
    assert_eq!(IvfPq::suggested_nlist(500_000), 2828);
    assert_eq!(IvfPq::suggested_nlist(usize::MAX), 65_536);
    assert_eq!((isqrt(0), isqrt(15), isqrt(16), isqrt(17)), (0, 3, 4, 4));
    assert_eq!((super_count(511), super_count(512)), (0, 22));
}

#[test]
fn the_generator_is_splitmix() {
    let mut r = Rng::new(0);
    assert_eq!(r.next_u64(), 0xE220_A839_7B1D_CDAF);
    assert_eq!(r.next_u64(), 0x6E78_9E6A_A1B9_65F4);
    let mut r = Rng::new(0);
    assert_eq!(r.below(1000), (0xE220_A839_7B1D_CDAFu64 % 1000) as usize);
}
