//! Fold determinism: out-of-order / multi-source / redelivered diffs converge to one snapshot.
use stromadb::catalog::Cardinality;
use stromadb::fold::{fold, Fold, ObjKey, Op, OrderKey};
use stromadb::ivf::Rng;

const SUBJECTS: u64 = 3;
const ONE_PREDS: [u32; 2] = [0, 1];
const MANY_PREDS: [u32; 2] = [100, 101];
const OBJECTS: u64 = 5;
const TX: u64 = 3; // small range so transaction-time ties are common (exercises tie-break)
const SRC: u32 = 3;

#[derive(Clone, Debug)]
enum Tmpl {
    SetOne {
        subj: u64,
        pred: u32,
        object: u64,
        valid_from: i64,
        tx: u64,
        src: u32,
    },
    CloseOne {
        subj: u64,
        pred: u32,
        valid_from: i64,
        tx: u64,
        src: u32,
    },
    AddMany {
        subj: u64,
        pred: u32,
        object: u64,
        tx: u64,
        src: u32,
    },
    RemoveMany {
        subj: u64,
        pred: u32,
        targets: Vec<u64>,
        tx: u64,
        src: u32,
    },
    HardDelete {
        subj: u64,
        pred: u32,
        many: bool,
        tx: u64,
        src: u32,
    },
}

fn txsrc(t: &Tmpl) -> (u64, u32) {
    match t {
        Tmpl::SetOne { tx, src, .. }
        | Tmpl::CloseOne { tx, src, .. }
        | Tmpl::AddMany { tx, src, .. }
        | Tmpl::RemoveMany { tx, src, .. }
        | Tmpl::HardDelete { tx, src, .. } => (*tx, *src),
    }
}

/// Unique seq = index → no OrderKey collisions; resolve RemoveMany targets to earlier ops' keys.
fn materialize(tmpls: &[Tmpl]) -> Vec<Op> {
    let oks: Vec<OrderKey> = tmpls
        .iter()
        .enumerate()
        .map(|(i, t)| {
            let (tx, src) = txsrc(t);
            OrderKey {
                tx,
                source: src,
                seq: i as u64,
            }
        })
        .collect();

    tmpls
        .iter()
        .enumerate()
        .map(|(i, t)| {
            let ok = oks[i];
            match t {
                Tmpl::SetOne {
                    subj,
                    pred,
                    object,
                    valid_from,
                    ..
                } => Op::SetOne {
                    subject: *subj,
                    predicate: *pred,
                    object: ObjKey::Node(*object),
                    valid_from: *valid_from,
                    valid_to: None,
                    ok,
                },
                Tmpl::CloseOne {
                    subj,
                    pred,
                    valid_from,
                    ..
                } => Op::CloseOne {
                    subject: *subj,
                    predicate: *pred,
                    valid_from: *valid_from,
                    ok,
                },
                Tmpl::AddMany {
                    subj, pred, object, ..
                } => Op::AddMany {
                    subject: *subj,
                    predicate: *pred,
                    object: ObjKey::Node(*object),
                    valid_from: 0,
                    valid_to: None,
                    ok,
                },
                Tmpl::RemoveMany {
                    subj,
                    pred,
                    targets,
                    ..
                } => {
                    let observed = targets
                        .iter()
                        .filter(|&&t| (t as usize) < i)
                        .map(|&t| oks[t as usize])
                        .collect();
                    Op::RemoveMany {
                        subject: *subj,
                        predicate: *pred,
                        observed,
                    }
                }
                Tmpl::HardDelete {
                    subj, pred, many, ..
                } => Op::HardDelete {
                    subject: *subj,
                    predicate: *pred,
                    ok,
                    cardinality: if *many {
                        Cardinality::Many
                    } else {
                        Cardinality::One
                    },
                },
            }
        })
        .collect()
}

fn workload(rng: &mut Rng) -> Vec<Tmpl> {
    let n = rng.below(40);
    (0..n)
        .map(|_| {
            let subj = rng.below(SUBJECTS as usize) as u64;
            let tx = rng.below(TX as usize) as u64;
            let src = rng.below(SRC as usize) as u32;
            let one = ONE_PREDS[rng.below(2)];
            let many = MANY_PREDS[rng.below(2)];
            let object = rng.below(OBJECTS as usize) as u64;
            let valid_from = rng.below(TX as usize) as i64;
            match rng.below(5) {
                0 => Tmpl::SetOne { subj, pred: one, object, valid_from, tx, src },
                1 => Tmpl::CloseOne { subj, pred: one, valid_from, tx, src },
                2 => Tmpl::AddMany { subj, pred: many, object, tx, src },
                3 => {
                    let k = rng.below(4);
                    let targets = (0..k).map(|_| rng.below(32) as u64).collect();
                    Tmpl::RemoveMany { subj, pred: many, targets, tx, src }
                }
                _ => {
                    let many = rng.below(2) == 1;
                    let pred = if many { MANY_PREDS[0] } else { ONE_PREDS[0] };
                    Tmpl::HardDelete { subj, pred, many, tx, src }
                }
            }
        })
        .collect()
}

fn splitmix(mut x: u64) -> u64 {
    x = x.wrapping_add(0x9E37_79B9_7F4A_7C15);
    let mut z = x;
    z = (z ^ (z >> 30)).wrapping_mul(0xBF58_476D_1CE4_E5B9);
    z = (z ^ (z >> 27)).wrapping_mul(0x94D0_49BB_1331_11EB);
    z ^ (z >> 31)
}

fn shuffled(ops: &[Op], seed: u64) -> Vec<Op> {
    let mut idx: Vec<usize> = (0..ops.len()).collect();
    idx.sort_by_key(|&i| splitmix(seed.wrapping_add((i as u64).wrapping_mul(0x0100_0000_01B3))));
    idx.into_iter().map(|i| ops[i].clone()).collect()
}

const CASES: usize = 2000;

/// P1 — permutation invariance.
#[test]
fn p1_permutation_invariant() {
    let mut rng = Rng::new(1);
    for _ in 0..CASES {
        let ops = materialize(&workload(&mut rng));
        let base = fold(&ops).observe();
        let mut rev = ops.clone();
        rev.reverse();
        assert_eq!(&base, &fold(&rev).observe());
        for seed in [1u64, 7, 42, 1000, 999_999] {
            assert_eq!(&base, &fold(&shuffled(&ops, seed)).observe());
        }
    }
}

/// P2 — multi-source invariance: fold per source, then merge.
#[test]
fn p2_multisource_invariant() {
    let mut rng = Rng::new(2);
    for _ in 0..CASES {
        let ops = materialize(&workload(&mut rng));
        let base = fold(&ops).observe();
        for k in [2usize, 3, 4] {
            let mut sources: Vec<Fold> = (0..k).map(|_| Fold::default()).collect();
            for (i, op) in ops.iter().enumerate() {
                sources[(splitmix(i as u64) as usize) % k].apply(op);
            }
            let mut merged = Fold::default();
            for s in &sources {
                merged.merge(s);
            }
            assert_eq!(&base, &merged.observe());
        }
    }
}

/// P3 — idempotence (at-least-once redelivery).
#[test]
fn p3_idempotent() {
    let mut rng = Rng::new(3);
    for _ in 0..CASES {
        let ops = materialize(&workload(&mut rng));
        let base = fold(&ops).observe();
        let mut twice = ops.clone();
        twice.extend(ops.iter().cloned());
        assert_eq!(&base, &fold(&twice).observe());
    }
}

/// P4 — GC preserves observation and stays convergent after further merges.
#[test]
fn p4_gc_preserves() {
    let mut rng = Rng::new(4);
    for _ in 0..CASES {
        let ops = materialize(&workload(&mut rng));
        let mut f = fold(&ops);
        let before = f.observe();
        f.gc();
        assert_eq!(&before, &f.observe());
        f.merge(&fold(&ops));
        assert_eq!(&before, &f.observe());
    }
}

/// The state as bytes reads back to the same state.
#[test]
fn p5_bytes_round_trip() {
    let mut rng = Rng::new(5);
    for _ in 0..CASES {
        let ops = materialize(&workload(&mut rng));
        let f = fold(&ops);
        let mut bytes = Vec::new();
        f.encode_into(&mut bytes);
        let back = Fold::decode(&bytes).unwrap();
        assert_eq!(f.observe(), back.observe());
        let mut again = Vec::new();
        back.encode_into(&mut again);
        assert_eq!(bytes, again);
        if !bytes.is_empty() {
            assert!(Fold::decode(&bytes[..bytes.len() - 1]).is_none());
        }
        bytes.push(0);
        assert!(Fold::decode(&bytes).is_none());
    }
}
