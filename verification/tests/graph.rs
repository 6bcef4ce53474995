//! The graph, its bytes, the bundle and the envelope, on planes of real
//! vectors.
use std::collections::HashSet;

use bytes::Bytes;
use infino_core::bundle::{
    decode_hnsw, derive_sq8_plane, encode_hnsw, extend_sq8_plane, HnswIndex, HNSW_DATA_MAGIC_V2,
    HNSW_DATA_MAGIC_V3, HNSW_DATA_MAGIC_V4, HNSW_DATA_MAGIC_V5, HNSW_DATA_MAGIC_V6,
};
use infino_core::calibrate::{
    calibrate_graph, calibration_draws, calibration_sources, exhaustive_topk, measure_recall,
};
use infino_core::codes::{Metric, Sq16Scorer, Sq4Scorer, WalkCodec};
use infino_core::envelope::{
    decode_resident_envelope, encode_resident_envelope, resident_envelope_header, PayloadKind,
    GRAPH_BUNDLE_HEADER_BYTES,
};
use infino_core::graph::{level_draw, splitmix64, Hnsw, MAX_LEVEL};
use infino_core::link::HnswParams;
use infino_core::plane::Plane;
use infino_core::scorer::NodeScorer;
use infino_core::span::{fitted_ruler, range_of};
use infino_core::visited::VisitedSet;

const TEST_ROT_SEED: u64 = 0x7E57_5EED;

const K_ANCHORS: [usize; 4] = [1, 10, 50, 100];

fn next_unit(state: &mut u64) -> f32 {
    (splitmix64(state) >> 40) as f32 / ((1u64 << 24) as f32)
}

fn random_unit_vectors(count: usize, dim: usize, seed: u64) -> Vec<Vec<f32>> {
    let mut state = seed;
    (0..count)
        .map(|_| {
            let mut v: Vec<f32> = (0..dim)
                .map(|_| next_unit(&mut state) * 2.0 - 1.0)
                .collect();
            let norm = v.iter().map(|x| x * x).sum::<f32>().sqrt().max(1e-12);
            for x in &mut v {
                *x /= norm;
            }
            v
        })
        .collect()
}

fn clustered_unit_vectors(
    n: usize,
    n_cent: usize,
    dim: usize,
    noise: f32,
    seed: u64,
) -> Vec<Vec<f32>> {
    let mut state = seed;
    let renorm = |v: &mut Vec<f32>| {
        let norm = v.iter().map(|x| x * x).sum::<f32>().sqrt().max(1e-12);
        for x in v.iter_mut() {
            *x /= norm;
        }
    };
    let centers: Vec<Vec<f32>> = (0..n_cent)
        .map(|_| {
            let mut v: Vec<f32> = (0..dim)
                .map(|_| next_unit(&mut state) * 2.0 - 1.0)
                .collect();
            renorm(&mut v);
            v
        })
        .collect();
    (0..n)
        .map(|i| {
            let c = &centers[i % n_cent];
            let mut v: Vec<f32> = c
                .iter()
                .map(|&cv| cv + (next_unit(&mut state) * 2.0 - 1.0) * noise)
                .collect();
            renorm(&mut v);
            v
        })
        .collect()
}

/// Rows of decoded values, scored by negated dot product or squared distance.
struct Rows {
    flat: Vec<f32>,
    dim: usize,
    len: usize,
    metric: Metric,
}

impl Rows {
    fn of(vectors: &[Vec<f32>], dim: usize, metric: Metric) -> Rows {
        Rows {
            flat: vectors.iter().flatten().copied().collect(),
            dim,
            len: vectors.len(),
            metric,
        }
    }

    /// The fixed-grid 16-bit plane, decoded.
    fn of_sq16(scorer: &Sq16Scorer) -> Rows {
        let (dim, len) = (scorer.width(), scorer.node_count());
        let mut flat = Vec::with_capacity(dim * len);
        for node in 0..len as u32 {
            let row = scorer.row(node);
            for d in 0..dim {
                let c = u16::from_le_bytes([row[2 * d], row[2 * d + 1]]) as f32;
                flat.push(match scorer.ruler() {
                    Some((scale, offset)) => {
                        f32::from_bits(offset[d]) + c * f32::from_bits(scale[d])
                    }
                    None => c / 65535.0 * 2.0 - 1.0,
                });
            }
        }
        Rows {
            flat,
            dim,
            len,
            metric: scorer.metric(),
        }
    }

    /// A 4-bit plane, decoded.
    fn of_sq4(scorer: &Sq4Scorer, dim: usize, len: usize) -> Rows {
        let res = scorer
            .residual()
            .map(|r| (r.to_vec(), Sq4Scorer::stride(dim)));
        let mut flat = Vec::with_capacity(dim * len);
        for node in 0..len {
            for d in 0..dim {
                let step = f32::from_bits(scorer.step()[d]);
                let mut x = f32::from_bits(scorer.offset()[d])
                    + scorer.code_at(node as u32, d) as f32 * step;
                if let Some((plane, stride)) = &res {
                    let b = plane[node * stride + d / 2];
                    let r = if d % 2 == 0 { b & 15 } else { b >> 4 };
                    x += (r as f32 - 7.5) * step / 15.0;
                }
                flat.push(x);
            }
        }
        Rows {
            flat,
            dim,
            len,
            metric: Metric::NegDot,
        }
    }
}

impl NodeScorer for Rows {
    type Query = Vec<f32>;
    type Prepared = Vec<f32>;

    fn len(&self) -> usize {
        self.len
    }

    fn dim(&self) -> usize {
        self.dim
    }

    fn prepare(&self, q: &Vec<f32>) -> Vec<f32> {
        q.clone()
    }

    fn prepare_node(&self, node: u32) -> Vec<f32> {
        self.flat[node as usize * self.dim..(node as usize + 1) * self.dim].to_vec()
    }

    fn score(&self, p: &Vec<f32>, node: u32) -> u32 {
        let row = &self.flat[node as usize * self.dim..(node as usize + 1) * self.dim];
        let d: f32 = if self.metric == Metric::L2Sq {
            row.iter().zip(p).map(|(a, b)| (a - b) * (a - b)).sum()
        } else {
            -row.iter().zip(p).map(|(a, b)| a * b).sum::<f32>()
        };
        d.to_bits()
    }
}

fn sq16_codes(vectors: &[Vec<f32>], dim: usize) -> Vec<u8> {
    let mut out = Vec::with_capacity(vectors.len() * dim * 2);
    for v in vectors {
        for &x in v {
            let c = ((x + 1.0) * 0.5 * 65535.0).round().clamp(0.0, 65535.0) as u16;
            out.extend_from_slice(&c.to_le_bytes());
        }
    }
    out
}

fn sq16(vectors: &[Vec<f32>], dim: usize) -> Rows {
    Rows::of_sq16(&Sq16Scorer::from_codes(
        sq16_codes(vectors, dim),
        dim,
        vectors.len(),
    ))
}

/// The 4-bit plane of the decoded rows, on a given ruler or one fitted here.
fn sq4_plane(
    rows: &Rows,
    with_residual: bool,
    ruler: Option<(Vec<u32>, Vec<u32>)>,
) -> Sq4Scorer {
    let (dim, len) = (rows.dim, rows.len);
    let (offset, step) = ruler.unwrap_or_else(|| {
        if with_residual {
            let bits: Vec<Vec<u32>> = rows
                .flat
                .chunks(dim)
                .map(|r| r.iter().map(|x| x.to_bits()).collect())
                .collect();
            let picks: Vec<usize> = (0..len).collect();
            let (min, max) = range_of(&bits, &picks, dim);
            let (step, offset) = fitted_ruler(&min, &max, 15, false);
            (offset, step)
        } else {
            let mut offset = Vec::new();
            let mut step = Vec::new();
            for d in 0..dim {
                let xs: Vec<f64> = (0..len).map(|i| rows.flat[i * dim + d] as f64).collect();
                let mean = xs.iter().sum::<f64>() / len.max(1) as f64;
                let var = xs.iter().map(|x| x * x).sum::<f64>() / len.max(1) as f64 - mean * mean;
                let half = 2.5 * var.max(0.0).sqrt();
                offset.push(((mean - half) as f32).to_bits());
                step.push(if half > 0.0 {
                    ((2.0 * half / 15.0) as f32).to_bits()
                } else {
                    1.0f32.to_bits()
                });
            }
            (offset, step)
        }
    });
    let mut values = Vec::with_capacity(len * dim);
    let mut residual = Vec::with_capacity(len * dim);
    for i in 0..len {
        for d in 0..dim {
            let (o, s) = (f32::from_bits(offset[d]), f32::from_bits(step[d]));
            let x = rows.flat[i * dim + d];
            let c = ((x - o) / s).round().clamp(0.0, 15.0);
            values.push(c as u8);
            let r = ((x - (o + c * s)) / s * 15.0 + 7.5).round().clamp(0.0, 15.0);
            residual.push(r as u8);
        }
    }
    Sq4Scorer::from_nibbles(
        &values,
        if with_residual { Some(&residual) } else { None },
        offset,
        step,
        TEST_ROT_SEED,
        dim,
        len,
    )
}

fn levels(n: usize, params: &HnswParams) -> Vec<u32> {
    let ml = 1.0 / (params.m as f64).ln();
    (0..n as u32)
        .map(|node| {
            let unif = level_draw(params.seed, node) as f64 / ((1u64 << 53) as f64);
            if unif <= 0.0 {
                0
            } else {
                ((-unif.ln()) * ml).floor().min(MAX_LEVEL as f64) as u32
            }
        })
        .collect()
}

fn build<S: NodeScorer>(scorer: &S, params: HnswParams) -> Hnsw {
    Hnsw::build(scorer, params, levels(scorer.len(), &params))
}

fn recall_at(g: &Hnsw, scorer: &Rows, queries: &[Vec<f32>], k: usize, ef: usize) -> f64 {
    let mut hit = 0usize;
    for q in queries {
        let truth: HashSet<u32> = exhaustive_topk(scorer, q, k).into_iter().collect();
        hit += g
            .search(scorer, q, k, ef)
            .iter()
            .filter(|(node, _)| truth.contains(node))
            .count();
    }
    hit as f64 / (queries.len() * k) as f64
}

fn calibration_queries(rows: &Rows, n_queries: usize, seed: u64) -> Vec<Vec<f32>> {
    let nodes = calibration_sources(rows.len, n_queries);
    let draws = calibration_draws(seed, nodes.len() * rows.dim);
    nodes
        .iter()
        .enumerate()
        .map(|(i, &node)| {
            let mut v = rows.prepare_node(node);
            for (d, x) in v.iter_mut().enumerate() {
                let u = draws[i * rows.dim + d] as f32 / (1u64 << 24) as f32;
                *x += (u * 2.0 - 1.0) * 0.05;
            }
            let norm = v.iter().map(|a| a * a).sum::<f32>().sqrt().max(1e-12);
            for x in &mut v {
                *x /= norm;
            }
            v
        })
        .collect()
}

#[test]
fn sq16_graph_recall_at_10() {
    let dim = 32;
    let n = 2000;
    let vectors = random_unit_vectors(n, dim, 0xA11CE);
    let scorer = sq16(&vectors, dim);
    let hnsw = build(&scorer, HnswParams::default());
    assert_eq!(hnsw.len(), n);
    let queries = random_unit_vectors(50, dim, 0xB0B);
    let recall = recall_at(&hnsw, &scorer, &queries, 10, 64);
    assert!(recall >= 0.9, "sq16 recall@10 = {recall:.3} (< 0.9)");
}

#[test]
fn calibrate_graph_picks_registering_choice() {
    let dim = 128;
    let n = 5000;
    let vectors = clustered_unit_vectors(n, 32, dim, 0.3, 0x0CA_11B);
    let scorer = sq16(&vectors, dim);
    let queries = calibration_queries(&scorer, 100, 0x5EED);
    let params = HnswParams::default();
    let (choice, curve, graph) = calibrate_graph(
        &scorer,
        &queries,
        &scorer,
        &queries,
        levels(n, &params),
        &vec![32, 64, 128],
        &vec![128, 256, 512],
        0.90f64.to_bits(),
        0.01f64.to_bits(),
        200,
        10,
        true,
    );
    let recall = f64::from_bits(choice.recall);
    assert!(choice.registered, "should register; got recall {recall:.3}");
    let graph = graph.expect("a registered choice returns its graph");
    assert_eq!(graph.base_degree(), choice.m0);
    assert_eq!(graph.len(), n);
    assert!([32, 64, 128].contains(&choice.m0));
    assert!([128, 256, 512].contains(&choice.ef));
    assert!(choice.at_target, "expected to clear 0.90; got {recall:.3}");
    assert_eq!(curve.len(), K_ANCHORS.len());
    for (i, &(k_anchor, _)) in curve.iter().enumerate() {
        assert_eq!(k_anchor as usize, K_ANCHORS[i]);
    }
    for w in curve.windows(2) {
        assert!(w[0].0 < w[1].0);
        assert!(w[0].1 <= w[1].1);
    }
    let ef_at = |k: usize| {
        curve
            .iter()
            .find(|&&(a, _)| a as usize == k)
            .map(|&(_, e)| e)
    };
    assert!(ef_at(100) >= ef_at(10));
}

#[test]
fn both_scorers_satisfy_trait() {
    let dim = 16;
    let n = 500;
    let vectors = random_unit_vectors(n, dim, 0xC0FFEE);
    let sq16 = sq16(&vectors, dim);
    let fp32 = Rows::of(&vectors, dim, Metric::NegDot);
    let probe = &vectors[123];
    let top = |s: &Rows| build(s, HnswParams::default()).search(s, probe, 5, 64);
    let sq16_top = top(&sq16);
    let fp32_top = top(&fp32);
    assert_eq!(sq16_top.len(), 5);
    assert_eq!(fp32_top.len(), 5);
    assert!(fp32_top.iter().any(|(node, _)| *node == 123));
    assert!(sq16_top.iter().any(|(node, _)| *node == 123));
    for top in [&sq16_top, &fp32_top] {
        assert!(top
            .windows(2)
            .all(|w| f32::from_bits(w[0].1) <= f32::from_bits(w[1].1)));
    }
}

#[test]
fn from_codes_matches_from_unit_vectors() {
    let dim = 24;
    let n = 800;
    let vectors = random_unit_vectors(n, dim, 0xD1_5EA5E);
    let a = sq16(&vectors, dim);
    let codes = sq16_codes(&vectors, dim);
    let b = Rows::of_sq16(&Sq16Scorer::from_plane(
        Plane::Shared(Bytes::from(codes)),
        dim,
        n,
    ));
    let queries = random_unit_vectors(20, dim, 0xF00D);
    for q in &queries {
        assert_eq!(exhaustive_topk(&a, q, 10), exhaustive_topk(&b, q, 10));
    }
}

#[test]
fn graph_bytes_roundtrip() {
    let dim = 32;
    let n = 1500;
    let vectors = random_unit_vectors(n, dim, 0x6A47);
    let scorer = sq16(&vectors, dim);
    let graph = build(&scorer, HnswParams::default());
    let bytes = graph.to_bytes();
    let restored = Hnsw::from_bytes(&bytes).expect("decode graph");
    assert_eq!(restored.len(), graph.len());
    let queries = random_unit_vectors(25, dim, 0x9B2E);
    for q in &queries {
        assert_eq!(
            graph.search(&scorer, q, 10, 64),
            restored.search(&scorer, q, 10, 64),
            "restored graph search diverged"
        );
    }
    assert!(Hnsw::from_bytes(&bytes[..bytes.len() / 2]).is_none());
    assert!(Hnsw::from_bytes(b"not a graph").is_none());
}

#[test]
fn pruned_base_layer_tracks_native_small_m0() {
    let dim = 24;
    let n = 1200;
    let vectors = random_unit_vectors(n, dim, 0x9F17);
    let scorer = sq16(&vectors, dim);
    let (m0_small, m0_max, efc) = (8usize, 64usize, 200usize);
    let native = build(
        &scorer,
        HnswParams {
            m0: m0_small,
            ef_construction: efc,
            ..HnswParams::default()
        },
    );
    let base = build(
        &scorer,
        HnswParams {
            m0: m0_max,
            ef_construction: efc,
            ..HnswParams::default()
        },
    );
    let pruned = base.pruned_base_layer(&scorer, m0_small);
    assert_eq!(pruned.base_degree(), m0_small);
    let queries = random_unit_vectors(60, dim, 0x2C4);
    let r_native = recall_at(&native, &scorer, &queries, 10, 64);
    let r_pruned = recall_at(&pruned, &scorer, &queries, 10, 64);
    assert!(
        r_pruned >= r_native - 0.03,
        "pruned {r_pruned:.3} vs native {r_native:.3}"
    );
}

#[test]
fn measure_recall_reflects_graph_quality() {
    let dim = 128;
    let n = 4000;
    let vectors = clustered_unit_vectors(n, 32, dim, 0.3, 0xD1F7);
    let scorer = sq16(&vectors, dim);
    let ef = 256;
    let strong = build(
        &scorer,
        HnswParams {
            m0: 128,
            ef_construction: 200,
            ..HnswParams::default()
        },
    );
    let weak = build(
        &scorer,
        HnswParams {
            m0: 4,
            ef_construction: 200,
            ..HnswParams::default()
        },
    );
    let queries = calibration_queries(&scorer, 100, 0x5EED);
    let measure =
        |g: &Hnsw| f64::from_bits(measure_recall(g, &scorer, &queries, &scorer, &queries, ef, 10));
    let r_strong = measure(&strong);
    let r_weak = measure(&weak);
    assert!(r_strong >= 0.9, "got {r_strong:.3}");
    assert!(r_strong > r_weak, "strong {r_strong:.3} vs weak {r_weak:.3}");
}

#[test]
fn from_bytes_rejects_tower_violations() {
    let dim = 8;
    let n = 300;
    let vectors = random_unit_vectors(n, dim, 0x77A1);
    let scorer = sq16(&vectors, dim);
    let graph = build(&scorer, HnswParams::default());
    let good = graph.to_bytes();
    assert!(Hnsw::from_bytes(&good).is_some(), "baseline decodes");
    let rd_u32 =
        |b: &[u8], off: usize| u32::from_le_bytes(b[off..off + 4].try_into().expect("4 bytes"));
    let rd_u64 =
        |b: &[u8], off: usize| u64::from_le_bytes(b[off..off + 8].try_into().expect("8 bytes"));
    let n_hdr = rd_u64(&good, 8) as usize;
    assert_eq!(n_hdr, n);
    let m0 = rd_u32(&good, 20) as usize;
    let node_level_off = 32;
    let layer0_off = node_level_off + n * 4;
    let records_off = layer0_off + n * m0 * 4;
    let mut over_tower = good.clone();
    over_tower[node_level_off..node_level_off + 4].copy_from_slice(&(MAX_LEVEL + 1).to_le_bytes());
    assert!(Hnsw::from_bytes(&over_tower).is_none());
    let short = (0..n)
        .find(|&i| rd_u32(&good, node_level_off + i * 4) == 0)
        .expect("some node sits at level 0");
    let records = rd_u64(&good, records_off) as usize;
    assert!(records > 0, "graph has at least one upper-layer node");
    let rec_body = records_off + 8;
    let level = rd_u32(&good, rec_body + 4);
    assert!(level >= 1, "upper record sits at level >= 1");
    let ids_off = rec_body + 12;
    let mut bad_edge = good.clone();
    bad_edge[ids_off..ids_off + 4].copy_from_slice(&(short as u32).to_le_bytes());
    assert!(Hnsw::from_bytes(&bad_edge).is_none());
}

#[test]
fn extend_matches_full_build_recall() {
    let dim = 32;
    let (n0, delta) = (1500usize, 500usize);
    let total = n0 + delta;
    let vectors = random_unit_vectors(total, dim, 0xE47E7D);
    let scorer = sq16(&vectors, dim);
    let params = HnswParams::default();
    let prior_scorer = sq16(&vectors[..n0], dim);
    let prior = build(&prior_scorer, params);
    let incremental = prior.extend(&scorer, params, levels(total, &params)[n0..].to_vec());
    assert_eq!(incremental.len(), total);
    let full = build(&scorer, params);
    let queries = random_unit_vectors(60, dim, 0xC0FFEE2);
    let inc_recall = recall_at(&incremental, &scorer, &queries, 10, 64);
    let full_recall = recall_at(&full, &scorer, &queries, 10, 64);
    assert!(
        inc_recall >= full_recall - 0.05,
        "incremental recall {inc_recall:.3} lags full {full_recall:.3}"
    );
    let new_node = (n0 + delta / 2) as u32;
    let found = incremental.search(&scorer, &vectors[new_node as usize], 1, 64);
    assert_eq!(found[0].0, new_node, "appended node must be reachable");
}

#[test]
fn hnsw_bundle_roundtrip() {
    let dim = 24;
    let n = 1200;
    let vectors = random_unit_vectors(n, dim, 0xD00D);
    let codes = sq16_codes(&vectors, dim);
    let doc_ids: Vec<i128> = (0..n as i128).map(|i| 1_000_000 + i * 7).collect();
    let scorer = sq16(&vectors, dim);
    let graph = build(&scorer, HnswParams::default());
    let curve: Vec<(u32, u32)> = vec![(1, 128), (10, 128), (50, 256), (100, 512)];
    let bytes = encode_hnsw(
        &codes,
        &doc_ids,
        &graph,
        dim,
        256,
        &curve,
        "emb",
        WalkCodec::Sq8,
        None,
        Metric::Cosine,
        None,
        &vec![],
    );
    assert_eq!(bytes[..8], HNSW_DATA_MAGIC_V5.to_le_bytes());
    let idx = decode_hnsw(&Bytes::from(bytes.clone()), Some(WalkCodec::Sq8)).expect("decode bundle");
    assert_eq!(idx.dim, dim);
    assert_eq!(idx.doc_ids, doc_ids);
    assert_eq!(idx.graph.len(), n);
    assert_eq!(idx.ef_search, 256);
    assert_eq!(idx.column, "emb");
    assert_eq!(idx.ef_curve, curve);
    assert_eq!(idx.ef_for_k(1), 128);
    assert_eq!(idx.ef_for_k(10), 128);
    assert_eq!(idx.ef_for_k(11), 256);
    assert_eq!(idx.ef_for_k(100), 512);
    assert_eq!(idx.ef_for_k(1000), 512);
    let restored = Rows::of_sq16(&idx.scorer);
    let queries = random_unit_vectors(20, dim, 0xFEED);
    for q in &queries {
        let orig = graph.search(&scorer, q, 10, 64);
        let got = idx.graph.search(&restored, q, 10, 64);
        assert_eq!(orig, got, "bundle search diverged");
        for (node, _) in &got {
            assert_eq!(idx.doc_ids[*node as usize], doc_ids[*node as usize]);
        }
    }
    assert!(decode_hnsw(&Bytes::from_static(b"short"), Some(WalkCodec::Sq8)).is_none());
    let mut poisoned = bytes.clone();
    poisoned[8..16].copy_from_slice(&u64::MAX.to_le_bytes());
    assert!(decode_hnsw(&Bytes::from(poisoned), Some(WalkCodec::Sq8)).is_none());
}

#[test]
fn hnsw_bundle_roundtrip_sq4_planes() {
    let dim = 24usize;
    let n = 300usize;
    let vectors = random_unit_vectors(n, dim, 0xD00D);
    let plane = sq16_codes(&vectors, dim);
    let rows16 = sq16(&vectors, dim);
    let doc_ids: Vec<i128> = (0..n as i128).map(|i| 5_000_000 + i * 3).collect();
    for with_residual in [false, true] {
        let sq4 = sq4_plane(&rows16, with_residual, None);
        assert_eq!(sq4.has_residual(), with_residual);
        let rows4 = Rows::of_sq4(&sq4, dim, n);
        let graph = build(&rows4, HnswParams::default());
        let walk = if with_residual {
            WalkCodec::Sq4Residual
        } else {
            WalkCodec::Sq4
        };
        let bytes = encode_hnsw(
            &plane,
            &doc_ids,
            &graph,
            dim,
            192,
            &vec![(10, 192)],
            "emb",
            walk,
            Some(&sq4),
            Metric::Cosine,
            None,
            &vec![],
        );
        assert_eq!(bytes[..8], HNSW_DATA_MAGIC_V5.to_le_bytes());
        let idx = decode_hnsw(&Bytes::from(bytes.clone()), Some(walk)).expect("decode bundle");
        assert_eq!(idx.ef_search, 192);
        assert_eq!(idx.doc_ids, doc_ids);
        let restored = idx.sq4.as_ref().expect("the 4-bit plane decodes");
        assert_eq!(restored.has_residual(), with_residual);
        assert_eq!(restored.codes(), sq4.codes());
        assert_eq!(restored.residual(), sq4.residual());
        assert_eq!(restored.offset(), sq4.offset());
        assert_eq!(restored.step(), sq4.step());
        assert_eq!(restored.rot_seed(), TEST_ROT_SEED);
        assert!(idx.sq8_plane.is_empty());
        let again = Rows::of_sq4(restored, dim, n);
        for q in &random_unit_vectors(10, dim, 0xBEEF) {
            assert_eq!(
                graph.search(&rows4, q, 10, 64),
                idx.graph.search(&again, q, 10, 64)
            );
        }
    }
}

/// A fitted 16-bit plane of raw vectors, with its norms where the metric needs
/// them.
fn adaptive_plane(flat: &[f32], dim: usize, n: usize, metric: Metric) -> Sq16Scorer {
    let bits: Vec<Vec<u32>> = flat
        .chunks(dim)
        .map(|r| r.iter().map(|x| x.to_bits()).collect())
        .collect();
    let picks: Vec<usize> = (0..n).collect();
    let (min, max) = range_of(&bits, &picks, dim);
    let (scale, offset) = fitted_ruler(&min, &max, 65_535, true);
    let mut codes = Vec::with_capacity(n * dim * 2);
    let mut norms = Vec::new();
    for row in flat.chunks(dim) {
        let mut norm = 0.0f32;
        for (d, &x) in row.iter().enumerate() {
            let (s, o) = (f32::from_bits(scale[d]), f32::from_bits(offset[d]));
            let c = ((x - o) / s).round().clamp(0.0, 65535.0) as u16;
            codes.extend_from_slice(&c.to_le_bytes());
            let r = o + c as f32 * s;
            norm += r * r;
        }
        if metric == Metric::L2Sq {
            norms.push(norm.to_bits());
        }
    }
    Sq16Scorer::from_adaptive_plane(Plane::Owned(codes), dim, n, metric, scale, offset, norms)
}

fn norm_count(scorer: &Sq16Scorer) -> usize {
    scorer.node_norms().map_or(0, |v| v.len())
}

#[test]
fn hnsw_bundle_roundtrip_v06_metric_aware() {
    let dim = 20;
    let n = 800;
    for metric in [Metric::L2Sq, Metric::NegDot] {
        let flat: Vec<f32> = random_unit_vectors(n, dim, 0xA11CE)
            .into_iter()
            .flatten()
            .enumerate()
            .map(|(i, x)| x * (1.0 + (i % 5) as f32))
            .collect();
        let scorer = adaptive_plane(&flat, dim, n, metric);
        assert_eq!(scorer.served_metric(), metric);
        assert!(scorer.ruler().is_some());
        assert_eq!(
            norm_count(&scorer),
            if metric == Metric::L2Sq { n } else { 0 }
        );
        let rows = Rows::of_sq16(&scorer);
        let graph = build(&rows, HnswParams::default());
        let doc_ids: Vec<i128> = (0..n as i128).map(|i| 500 + i * 3).collect();
        let curve: Vec<(u32, u32)> = vec![(10, 128)];
        let (rscale, roffset) = scorer.ruler().expect("ruler");
        let none = Vec::new();
        let bytes = encode_hnsw(
            scorer.codes(),
            &doc_ids,
            &graph,
            dim,
            128,
            &curve,
            "emb",
            WalkCodec::Sq16,
            None,
            metric,
            Some((rscale, roffset)),
            scorer.node_norms().unwrap_or(&none),
        );
        assert_eq!(bytes[..8], HNSW_DATA_MAGIC_V6.to_le_bytes());
        let idx = decode_hnsw(&Bytes::from(bytes), Some(WalkCodec::Sq16)).expect("decode");
        assert_eq!(idx.scorer.served_metric(), metric);
        let (dscale, doffset) = idx.scorer.ruler().expect("ruler round-trips");
        assert_eq!(dscale, rscale);
        assert_eq!(doffset, roffset);
        assert_eq!(
            idx.scorer.node_norms().unwrap_or(&none),
            scorer.node_norms().unwrap_or(&none)
        );
        let again = Rows::of_sq16(&idx.scorer);
        for q in random_unit_vectors(15, dim, 0xF00D) {
            assert_eq!(
                graph.search(&rows, &q, 10, 64),
                idx.graph.search(&again, &q, 10, 64)
            );
        }
    }
}

const WALKS: [WalkCodec; 4] = [
    WalkCodec::Sq16,
    WalkCodec::Sq8,
    WalkCodec::Sq4,
    WalkCodec::Sq4Residual,
];

#[test]
fn stored_walk_reports_the_header_not_the_decoded_planes() {
    let (dim, n) = (40usize, 64usize);
    let vectors = random_unit_vectors(n, dim, 0x5D04);
    let plane = sq16_codes(&vectors, dim);
    let rows = sq16(&vectors, dim);
    let doc_ids: Vec<i128> = (0..n as i128).collect();
    for walk in WALKS {
        let sq4 = if walk.is_sq4() {
            Some(sq4_plane(&rows, walk.with_residual(), None))
        } else {
            None
        };
        let bundle = Bytes::from(encode_hnsw(
            &plane,
            &doc_ids,
            &build(&rows, HnswParams::default()),
            dim,
            192,
            &vec![(10, 192)],
            "emb",
            walk,
            sq4.as_ref(),
            Metric::Cosine,
            None,
            &vec![],
        ));
        let narrow = decode_hnsw(&bundle, Some(WalkCodec::Sq16)).expect("narrow decode");
        assert_eq!(narrow.stored_walk, walk);
        assert!(narrow.sq4.is_none() && narrow.sq8_plane.is_empty());
        let as_stored = decode_hnsw(&bundle, None).expect("as-stored decode");
        assert_eq!(as_stored.stored_walk, walk);
        assert_eq!(as_stored.sq4.is_some(), walk.is_sq4());
        assert_eq!(
            as_stored.sq4.as_ref().is_some_and(|s| s.has_residual()),
            walk.with_residual()
        );
        assert_eq!(!as_stored.sq8_plane.is_empty(), walk == WalkCodec::Sq8);
    }
}

#[test]
fn an_as_stored_reencode_preserves_the_walk_plane() {
    let (dim, n) = (40usize, 64usize);
    let vectors = random_unit_vectors(n, dim, 0x5D06);
    let plane = sq16_codes(&vectors, dim);
    let rows = sq16(&vectors, dim);
    let doc_ids: Vec<i128> = (0..n as i128).collect();
    for walk in WALKS {
        let sq4 = if walk.is_sq4() {
            Some(sq4_plane(&rows, walk.with_residual(), None))
        } else {
            None
        };
        let graph = build(&rows, HnswParams::default());
        let curve: Vec<(u32, u32)> = vec![(1, 192), (10, 192), (100, 256)];
        let first = Bytes::from(encode_hnsw(
            &plane,
            &doc_ids,
            &graph,
            dim,
            192,
            &curve,
            "emb",
            walk,
            sq4.as_ref(),
            Metric::Cosine,
            None,
            &vec![],
        ));
        let prior = decode_hnsw(&first, None).expect("as-stored hydrate");
        let again = Bytes::from(encode_hnsw(
            prior.scorer.codes(),
            &prior.doc_ids,
            &prior.graph,
            prior.dim,
            prior.ef_search,
            &prior.ef_curve,
            &prior.column,
            prior.stored_walk,
            prior.sq4.as_ref(),
            Metric::Cosine,
            None,
            &vec![],
        ));
        assert_eq!(first, again);
        let reopened = decode_hnsw(&again, None).expect("reopen rewritten bundle");
        assert_eq!(reopened.stored_walk, walk);
        assert_eq!(reopened.sq4.is_some(), walk.is_sq4());
    }
}

#[test]
fn a_rejected_4bit_section_falls_back_to_the_derived_sq8_plane() {
    let (dim, n) = (32usize, 48usize);
    let vectors = random_unit_vectors(n, dim, 0x5D05);
    let plane = sq16_codes(&vectors, dim);
    let rows = sq16(&vectors, dim);
    let doc_ids: Vec<i128> = (0..n as i128).collect();
    let column = "emb";
    let sq4 = sq4_plane(&rows, false, None);
    let graph = build(&Rows::of_sq4(&sq4, dim, n), HnswParams::default());
    let mut bytes = encode_hnsw(
        &plane,
        &doc_ids,
        &graph,
        dim,
        192,
        &vec![(10, 192)],
        column,
        WalkCodec::Sq4,
        Some(&sq4),
        Metric::Cosine,
        None,
        &vec![],
    );
    let step_at =
        8 + 8 + 4 + 4 + 1 + 4 + column.len() + n * 16 + n * dim * 2 + 8 + dim * 4;
    bytes[step_at..step_at + 4].copy_from_slice(&0.0f32.to_le_bytes());
    let idx = decode_hnsw(&Bytes::from(bytes), Some(WalkCodec::Sq4))
        .expect("a corrupt 4-bit ruler must not fail the whole decode");
    assert!(idx.sq4.is_none());
    assert_eq!(idx.sq8_plane.len(), n * dim);
    assert_eq!(idx.stored_walk, WalkCodec::Sq4);
}

#[test]
fn sq4_walk_matches_sq16_on_planted_clusters() {
    let dim = 32usize;
    let n_clusters = 12usize;
    let per = 60usize;
    let n = n_clusters * per;
    let mut rng = 0x5EED_5EEDu64;
    let mut vectors: Vec<Vec<f32>> = Vec::with_capacity(n);
    for c in 0..n_clusters {
        for _ in 0..per {
            let mut v = vec![0.0f32; dim];
            v[c % dim] = 1.0;
            v[(c * 7 + 3) % dim] = 0.5;
            for x in v.iter_mut() {
                let u = (splitmix64(&mut rng) >> 40) as f32 / (1u64 << 24) as f32;
                *x += (u - 0.5) * 0.08;
            }
            let norm = v.iter().map(|a| a * a).sum::<f32>().sqrt();
            for x in v.iter_mut() {
                *x /= norm;
            }
            vectors.push(v);
        }
    }
    let rows16 = sq16(&vectors, dim);
    let g16 = build(&rows16, HnswParams::default());
    const K: usize = 10;
    let queries: Vec<Vec<f32>> = (0..n_clusters)
        .map(|c| {
            let mut q = vec![0.0f32; dim];
            q[c % dim] = 1.0;
            q[(c * 7 + 3) % dim] = 0.5;
            let norm = q.iter().map(|a| a * a).sum::<f32>().sqrt();
            for x in q.iter_mut() {
                *x /= norm;
            }
            q
        })
        .collect();
    let mut overlaps = [0.0f64; 2];
    for (vi, with_residual) in [false, true].into_iter().enumerate() {
        let sq4 = sq4_plane(&rows16, with_residual, None);
        let rows4 = Rows::of_sq4(&sq4, dim, n);
        let g4 = build(&rows4, HnswParams::default());
        let (mut same_cluster, mut agree, mut total) = (0usize, 0usize, 0usize);
        for (c, q) in queries.iter().enumerate() {
            let want: Vec<u32> = g16
                .search(&rows16, q, K, 64)
                .into_iter()
                .map(|(node, _)| node)
                .collect();
            for (node, _) in g4.search(&rows4, q, K, 64) {
                same_cluster += usize::from(node as usize / per == c);
                agree += usize::from(want.contains(&node));
                total += 1;
            }
        }
        let membership = same_cluster as f64 / total as f64;
        overlaps[vi] = agree as f64 / total as f64;
        assert!(membership >= 0.9, "membership {membership:.3}");
    }
    assert!(
        overlaps[1] >= (overlaps[0] * 2.0).max(0.4),
        "residual overlap {:.3}, bare {:.3}",
        overlaps[1],
        overlaps[0]
    );
}

#[test]
fn sq4_delta_rows_inherit_the_prior_ruler_and_clamp() {
    let dim = 8usize;
    let n = 64usize;
    let vectors = random_unit_vectors(n, dim, 0xABBA);
    let prior = sq4_plane(&sq16(&vectors, dim), true, None);
    let (offset, step) = (prior.offset().clone(), prior.step().clone());
    let mut wild = vec![0.0f32; dim];
    wild[0] = 1.0;
    let delta_rows = sq16(&[wild], dim);
    let delta = sq4_plane(&delta_rows, true, Some((offset.clone(), step.clone())));
    assert_eq!(delta.offset(), &offset, "delta must adopt the prior ruler");
    assert_eq!(delta.step(), &step, "delta must adopt the prior ruler");
    assert!(delta.code_at(0, 0) <= 15);
    let recon = Rows::of_sq4(&delta, dim, 1);
    assert!(recon.flat.iter().all(|x| x.is_finite()));
}

fn i8_query(q: &[f32]) -> Vec<i8> {
    q.iter().map(|x| (x * 127.0).round() as i8).collect()
}

fn sq8_refine(idx: &HnswIndex, rows: &Rows, q: &Vec<f32>, k: usize, ef: usize, r: usize) -> Vec<(u32, u32)> {
    idx.search_sq8_refine(&i8_query(q), rows, q, k, ef, r)
}

#[test]
fn sq8_section_v03_matches_derived_v02() {
    let dim = 24;
    let n = 400;
    let vectors = random_unit_vectors(n, dim, 0x5EC7);
    let codes = sq16_codes(&vectors, dim);
    let doc_ids: Vec<i128> = (0..n as i128).collect();
    let scorer = sq16(&vectors, dim);
    let graph = build(&scorer, HnswParams::default());
    let curve: Vec<(u32, u32)> = vec![(1, 128), (10, 128), (50, 256), (100, 512)];
    let current = || {
        encode_hnsw(
            &codes,
            &doc_ids,
            &graph,
            dim,
            128,
            &curve,
            "emb",
            WalkCodec::Sq8,
            None,
            Metric::Cosine,
            None,
            &vec![],
        )
    };
    let v5 = current();
    assert_eq!(v5[..8], HNSW_DATA_MAGIC_V5.to_le_bytes());
    let framed = |magic: u64, with_sq8: bool, with_curve: bool| -> Vec<u8> {
        let mut out = Vec::new();
        out.extend_from_slice(&magic.to_le_bytes());
        out.extend_from_slice(&(n as u64).to_le_bytes());
        out.extend_from_slice(&(dim as u32).to_le_bytes());
        out.extend_from_slice(&128u32.to_le_bytes());
        out.extend_from_slice(&3u32.to_le_bytes());
        out.extend_from_slice(b"emb");
        for &id in &doc_ids {
            out.extend_from_slice(&id.to_le_bytes());
        }
        out.extend_from_slice(&codes);
        if with_sq8 {
            out.extend_from_slice(&derive_sq8_plane(&codes));
        }
        let gb = graph.to_bytes();
        out.extend_from_slice(&(gb.len() as u64).to_le_bytes());
        out.extend_from_slice(&gb);
        if with_curve {
            out.extend_from_slice(&(curve.len() as u16).to_le_bytes());
            for &(k, ef) in &curve {
                out.extend_from_slice(&k.to_le_bytes());
                out.extend_from_slice(&ef.to_le_bytes());
            }
        }
        out
    };
    let v4 = framed(HNSW_DATA_MAGIC_V4, true, true);
    let v3 = framed(HNSW_DATA_MAGIC_V3, true, false);
    let v2 = framed(HNSW_DATA_MAGIC_V2, false, false);
    let open = |b: Vec<u8>| decode_hnsw(&Bytes::from(b), Some(WalkCodec::Sq8)).expect("decode");
    let idx_v5 = open(v5);
    let idx_v4 = open(v4);
    let idx_v3 = open(v3);
    let idx_v2 = open(v2);
    let derived = derive_sq8_plane(&codes);
    assert_eq!(idx_v5.sq8_plane.bytes(), derived.as_slice());
    assert_eq!(idx_v4.sq8_plane.bytes(), derived.as_slice());
    assert_eq!(idx_v3.sq8_plane.bytes(), derived.as_slice());
    assert_eq!(idx_v2.sq8_plane.bytes(), derived.as_slice());
    assert_eq!(idx_v5.sq8_plane.len(), n * dim);
    assert_eq!(idx_v5.stored_walk, WalkCodec::Sq8);
    assert_eq!(idx_v4.stored_walk, WalkCodec::Sq8);
    assert_eq!(idx_v3.stored_walk, WalkCodec::Sq8);
    assert_eq!(idx_v2.stored_walk, WalkCodec::Sq16);
    assert!(idx_v5.sq4.is_none() && idx_v4.sq4.is_none());
    assert!(idx_v3.sq4.is_none() && idx_v2.sq4.is_none());
    assert_eq!(idx_v5.ef_curve, curve);
    assert_eq!(idx_v4.ef_curve, curve);
    assert_eq!(idx_v3.ef_curve.len(), 1);
    assert_eq!(idx_v2.ef_curve.len(), 1);
    assert_eq!(idx_v5.scorer.codes(), idx_v2.scorer.codes());
    assert_eq!(idx_v4.scorer.codes(), idx_v2.scorer.codes());
    assert_eq!(idx_v3.scorer.codes(), idx_v2.scorer.codes());
    let queries = random_unit_vectors(30, dim, 0x1CE);
    for q in &queries {
        let a = sq8_refine(&idx_v5, &scorer, q, 10, 64, 32);
        assert_eq!(a, sq8_refine(&idx_v3, &scorer, q, 10, 64, 32));
        assert_eq!(a, sq8_refine(&idx_v4, &scorer, q, 10, 64, 32));
        assert_eq!(a, sq8_refine(&idx_v2, &scorer, q, 10, 64, 32));
    }
    let idx_off = decode_hnsw(&Bytes::from(current()), Some(WalkCodec::Sq16)).expect("decode");
    assert!(idx_off.sq8_plane.is_empty());
    assert_eq!(idx_off.graph.len(), n);
    assert_eq!(idx_off.ef_curve, curve);
}

#[test]
fn pre_v04_bundle_decodes_to_one_point_curve() {
    let dim = 16;
    let n = 300;
    let stamped_ef = 200usize;
    let vectors = random_unit_vectors(n, dim, 0xB0BB1E);
    let codes = sq16_codes(&vectors, dim);
    let doc_ids: Vec<i128> = (0..n as i128).collect();
    let graph = build(&sq16(&vectors, dim), HnswParams::default());
    let graph_bytes = graph.to_bytes();
    let col = b"emb";
    let frame = |magic: u64, with_sq8: bool| -> Vec<u8> {
        let mut b = Vec::new();
        b.extend_from_slice(&magic.to_le_bytes());
        b.extend_from_slice(&(n as u64).to_le_bytes());
        b.extend_from_slice(&(dim as u32).to_le_bytes());
        b.extend_from_slice(&(stamped_ef as u32).to_le_bytes());
        b.extend_from_slice(&(col.len() as u32).to_le_bytes());
        b.extend_from_slice(col);
        for &id in &doc_ids {
            b.extend_from_slice(&id.to_le_bytes());
        }
        b.extend_from_slice(&codes);
        if with_sq8 {
            extend_sq8_plane(&mut b, &codes);
        }
        b.extend_from_slice(&(graph_bytes.len() as u64).to_le_bytes());
        b.extend_from_slice(&graph_bytes);
        b
    };
    let v3 = frame(HNSW_DATA_MAGIC_V3, true);
    let v2 = frame(HNSW_DATA_MAGIC_V2, false);
    for fixture in [v3, v2] {
        let idx = decode_hnsw(&Bytes::from(fixture), Some(WalkCodec::Sq8)).expect("decode");
        assert_eq!(idx.ef_search, stamped_ef);
        assert_eq!(idx.ef_curve.len(), 1);
        for k in [1usize, 10, 50, 100, 1000, 100_000] {
            assert_eq!(idx.ef_for_k(k), stamped_ef);
        }
    }
}

#[test]
fn search_sq8_refine_matches_sq16_walk() {
    let dim = 32;
    let n = 1000;
    let k = 10;
    let ef = 64;
    let vectors = random_unit_vectors(n, dim, 0xA11CE);
    let codes = sq16_codes(&vectors, dim);
    let doc_ids: Vec<i128> = (0..n as i128).collect();
    let scorer = sq16(&vectors, dim);
    let graph = build(&scorer, HnswParams::default());
    let bytes = encode_hnsw(
        &codes,
        &doc_ids,
        &graph,
        dim,
        ef,
        &vec![(10, ef as u32)],
        "emb",
        WalkCodec::Sq8,
        None,
        Metric::Cosine,
        None,
        &vec![],
    );
    let idx = decode_hnsw(&Bytes::from(bytes), Some(WalkCodec::Sq8)).expect("decode bundle");
    assert!(!idx.sq8_plane.is_empty());
    let queries = random_unit_vectors(50, dim, 0xB0B);
    let mut sq16_hits = 0usize;
    let mut sq8_hits = 0usize;
    for q in &queries {
        let gt: HashSet<u32> = exhaustive_topk(&scorer, q, k).into_iter().collect();
        let sq16 = graph.search(&scorer, q, k, ef);
        let sq8 = sq8_refine(&idx, &scorer, q, k, ef, ef);
        sq16_hits += sq16.iter().filter(|(node, _)| gt.contains(node)).count();
        sq8_hits += sq8.iter().filter(|(node, _)| gt.contains(node)).count();
    }
    let denom = (queries.len() * k) as f32;
    let sq16_recall = sq16_hits as f32 / denom;
    let sq8_recall = sq8_hits as f32 / denom;
    assert!(sq16_recall > 0.9, "Sq16 walk recall {sq16_recall:.4}");
    assert!(
        sq8_recall >= sq16_recall - 0.03,
        "SQ8 refine recall {sq8_recall:.4} trails Sq16 walk {sq16_recall:.4}"
    );
}

#[test]
fn graph_bundle_frames_sections() {
    let centroid = vec![1u8, 2, 3, 4, 5];
    let data = vec![9u8; 300];
    let blob = encode_resident_envelope(
        0xDEAD_BEEF_1234,
        987_654_321,
        &centroid,
        Some((PayloadKind::Graph, &data)),
    );
    for mmap_backed in [true, false] {
        let raw = Bytes::from(blob.clone());
        let got = decode_resident_envelope(&raw, mmap_backed).expect("decode full");
        assert_eq!(got.population_key, 0xDEAD_BEEF_1234);
        assert_eq!(got.high_water_id, 987_654_321);
        assert_eq!(got.centroid_graph, centroid);
        let (kind, bytes) = got.data_bundle.as_ref().expect("data present");
        assert_eq!(*kind, PayloadKind::Graph);
        assert_eq!(&bytes[..], &data[..]);
        assert_eq!(raw.as_ref().as_ptr_range().contains(&bytes.as_ptr()), mmap_backed);
    }
    assert_eq!(
        resident_envelope_header(&blob[..GRAPH_BUNDLE_HEADER_BYTES]),
        Some((0xDEAD_BEEF_1234, 987_654_321))
    );
    let blob = encode_resident_envelope(0, 0, &[], None);
    let got = decode_resident_envelope(&Bytes::from(blob), true).expect("decode empty");
    assert!(got.centroid_graph.is_empty());
    assert!(got.data_bundle.is_none());
    assert!(decode_resident_envelope(&Bytes::from_static(b"bad"), true).is_none());
    assert!(resident_envelope_header(b"short").is_none());
}

#[test]
fn envelope_kind_tag_round_trips_and_declines_the_unknown() {
    let centroid = vec![7u8; 40];
    let data = vec![3u8; 128];
    for kind in [PayloadKind::Graph, PayloadKind::Flat] {
        for mmap_backed in [true, false] {
            let blob = encode_resident_envelope(11, 22, &centroid, Some((kind, &data)));
            let got = decode_resident_envelope(&Bytes::from(blob), mmap_backed)
                .expect("decode a tagged envelope");
            let (got_kind, bytes) = got.data_bundle.as_ref().expect("payload present");
            assert_eq!(*got_kind, kind);
            assert_eq!(&bytes[..], &data[..]);
            assert_eq!(got.centroid_graph, centroid);
        }
    }
    let mut blob = encode_resident_envelope(11, 22, &centroid, Some((PayloadKind::Flat, &data)));
    let tag_at = GRAPH_BUNDLE_HEADER_BYTES + 8 + centroid.len();
    assert_eq!(blob[tag_at], PayloadKind::Flat.tag());
    for unknown in [3u8, 9, u8::MAX] {
        blob[tag_at] = unknown;
        let got = decode_resident_envelope(&Bytes::from(blob.clone()), true)
            .expect("an unknown kind must decline the section, not the envelope");
        assert!(got.data_bundle.is_none());
        assert_eq!(got.centroid_graph, centroid);
        assert_eq!((got.population_key, got.high_water_id), (11, 22));
    }
}

#[test]
fn grown_and_cut_graphs_read_back() {
    let dim = 16;
    let vectors = random_unit_vectors(300, dim, 0x51DE);
    let params = HnswParams { m: 6, m0: 12, ef_construction: 40, seed: 9 };
    let prior = build(&sq16(&vectors[..200], dim), params);
    let before: Vec<Vec<Vec<u32>>> = (0..200)
        .map(|v| (0..prior.tower_len(v)).map(|l| prior.neighbors_at(v, l).clone()).collect())
        .collect();
    let scorer = sq16(&vectors, dim);
    let grown = prior.extend(&scorer, params, levels(300, &params)[200..].to_vec());
    for (v, tower) in before.iter().enumerate() {
        for (l, list) in tower.iter().enumerate() {
            let now = grown.neighbors_at(v, l);
            assert!(now.iter().all(|x| *x >= 200 || list.contains(x)));
        }
    }
    let cut = grown.pruned_base_layer(&scorer, 5);
    for v in 0..grown.len() {
        let list = cut.neighbors_at(v, 0);
        if grown.neighbors_at(v, 0).len() <= 5 {
            assert_eq!(list, grown.neighbors_at(v, 0));
            continue;
        }
        let here = scorer.prepare_node(v as u32);
        let near: Vec<(f32, u32)> = list
            .iter()
            .map(|x| (f32::from_bits(scorer.score(&here, *x)), *x))
            .collect();
        assert!(near.windows(2).all(|w| w[0] < w[1]), "cut lists ascend");
    }
    for g in [&grown, &cut] {
        let tallest = g.tower_len(g.entry_point() as usize);
        assert!((0..g.len()).all(|v| g.tower_len(v) <= tallest));
        let bytes = g.to_bytes();
        let back = Hnsw::from_bytes(&bytes).expect("decode graph");
        assert_eq!(back.to_bytes(), bytes);
        assert_eq!(back.entry_point(), g.entry_point());
        assert_eq!(back.base_degree(), g.base_degree());
        for v in 0..g.len() {
            assert_eq!(back.tower_len(v), g.tower_len(v));
            for l in 0..g.tower_len(v) {
                let list = g.neighbors_at(v, l);
                assert_eq!(back.neighbors_at(v, l), list);
                let cap = if l == 0 { g.base_degree() } else { params.m };
                assert!(list.len() <= cap);
                assert!(!list.contains(&(v as u32)));
                let distinct: HashSet<u32> = list.iter().copied().collect();
                assert_eq!(distinct.len(), list.len());
                assert!(list.iter().all(|x| g.tower_len(*x as usize) > l));
            }
        }
    }
}

#[test]
fn visited_set_grows_and_is_reused() {
    let mut seen = VisitedSet::new(0);
    seen.ensure(3);
    seen.clear();
    assert!(!seen.test_and_set(1));
    assert!(seen.test_and_set(1));
    seen.ensure(6);
    assert!(seen.test_and_set(1));
    assert!(!seen.test_and_set(5));
    seen.ensure(2);
    assert!(seen.test_and_set(5));
    seen.clear();
    assert!(!seen.test_and_set(1));
    assert!(!seen.test_and_set(5));
}

#[test]
fn payload_kinds_have_their_names() {
    assert_eq!(PayloadKind::Graph.label(), "hnsw");
    assert_eq!(PayloadKind::Flat.label(), "flat");
}

#[test]
fn degenerate_graphs() {
    let dim = 8;
    let scorer = Rows::of(&[], dim, Metric::NegDot);
    let hnsw = build(&scorer, HnswParams::default());
    assert!(hnsw.is_empty());
    assert!(hnsw.search(&scorer, &vec![0.0; dim], 5, 16).is_empty());
    let one = random_unit_vectors(1, dim, 7);
    let scorer = Rows::of(&one, dim, Metric::NegDot);
    let hnsw = build(&scorer, HnswParams::default());
    let got = hnsw.search(&scorer, &one[0], 5, 16);
    assert_eq!(got.len(), 1);
    assert_eq!(got[0].0, 0);
}

#[test]
fn truncated_graphs_are_refused() {
    let dim = 8;
    let vectors = random_unit_vectors(40, dim, 0x7A11);
    let params = HnswParams { m: 2, m0: 4, ef_construction: 20, seed: 3 };
    let graph = build(&Rows::of(&vectors, dim, Metric::NegDot), params);
    assert!((0..graph.len()).any(|v| graph.tower_len(v) > 1));
    let bytes = graph.to_bytes();
    for cut in 0..bytes.len() {
        assert!(Hnsw::from_bytes(&bytes[..cut]).is_none(), "prefix of {cut} bytes");
    }
    let mut longer = bytes.clone();
    longer.push(0);
    assert_eq!(Hnsw::from_bytes(&longer).expect("decode graph").to_bytes(), bytes);
}

#[test]
fn truncated_envelopes_are_refused() {
    for payload in [None, Some((PayloadKind::Flat, &[5u8, 6, 7][..]))] {
        let blob = encode_resident_envelope(1, -2, &[8, 9], payload);
        for cut in 0..blob.len() {
            let part = Bytes::from(blob[..cut].to_vec());
            assert!(decode_resident_envelope(&part, true).is_none(), "prefix of {cut} bytes");
        }
        assert!(decode_resident_envelope(&Bytes::from(blob), true).is_some());
    }
}

#[test]
fn a_beam_as_wide_as_a_connected_graph_is_exact() {
    let dim = 12;
    let n = 60;
    let vectors = random_unit_vectors(n, dim, 0xC0DE);
    let scorer = Rows::of(&vectors, dim, Metric::NegDot);
    let graph = build(&scorer, HnswParams { m0: 64, ..HnswParams::default() });
    for from in 0..n {
        let mut seen = HashSet::from([from]);
        let mut open = vec![from];
        while let Some(v) = open.pop() {
            for x in graph.neighbors_at(v, 0) {
                if seen.insert(*x as usize) {
                    open.push(*x as usize);
                }
            }
        }
        assert_eq!(seen.len(), n, "every node leads to every node");
    }
    for q in &random_unit_vectors(20, dim, 0xFACE) {
        for (k, ef) in [(1, n), (10, n), (10, n + 5), (n, 1), (n + 9, 1)] {
            let found: Vec<u32> = graph.search(&scorer, q, k, ef).iter().map(|h| h.0).collect();
            assert_eq!(found, exhaustive_topk(&scorer, q, k));
        }
    }
}

#[test]
fn truncated_bundles_are_refused() {
    let (dim, n) = (8usize, 12usize);
    let vectors = random_unit_vectors(n, dim, 0xB0B);
    let flat: Vec<f32> = vectors.iter().flatten().copied().collect();
    let doc_ids: Vec<i128> = (0..n as i128).collect();
    let curve: Vec<(u32, u32)> = vec![(1, 8), (10, 16)];
    let none = Vec::new();
    for metric in [Metric::Cosine, Metric::L2Sq, Metric::NegDot] {
        let scorer = adaptive_plane(&flat, dim, n, Metric::L2Sq);
        let graph = build(&Rows::of_sq16(&scorer), HnswParams::default());
        let ruler = if metric == Metric::Cosine { None } else { scorer.ruler() };
        let norms = if metric == Metric::L2Sq { scorer.node_norms().expect("norms") } else { &none };
        for walk in [WalkCodec::Sq16, WalkCodec::Sq8] {
            let bytes = encode_hnsw(
                scorer.codes(),
                &doc_ids,
                &graph,
                dim,
                16,
                &curve,
                "emb",
                walk,
                None,
                metric,
                ruler,
                norms,
            );
            for cut in 0..bytes.len() {
                let part = Bytes::from(bytes[..cut].to_vec());
                assert!(decode_hnsw(&part, None).is_none(), "prefix of {cut} bytes");
            }
            assert!(decode_hnsw(&Bytes::from(bytes), None).is_some());
        }
    }
}

#[test]
fn stored_planes_are_views_into_the_bundle() {
    let (dim, n) = (24usize, 64usize);
    let vectors = random_unit_vectors(n, dim, 0x5A3E);
    let codes = sq16_codes(&vectors, dim);
    let rows16 = sq16(&vectors, dim);
    let graph = build(&rows16, HnswParams::default());
    let doc_ids: Vec<i128> = (0..n as i128).collect();
    for stored in WALKS {
        let sq4 = match stored {
            WalkCodec::Sq4 => Some(sq4_plane(&rows16, false, None)),
            WalkCodec::Sq4Residual => Some(sq4_plane(&rows16, true, None)),
            _ => None,
        };
        let bundle = Bytes::from(encode_hnsw(
            &codes,
            &doc_ids,
            &graph,
            dim,
            64,
            &vec![(10, 64)],
            "emb",
            stored,
            sq4.as_ref(),
            Metric::Cosine,
            None,
            &vec![],
        ));
        let inside = |s: &[u8]| bundle.as_ref().as_ptr_range().contains(&s.as_ptr());
        for want in WALKS {
            let idx = decode_hnsw(&bundle, Some(want)).expect("decode bundle");
            assert!(inside(idx.scorer.codes()));
            let served = stored == WalkCodec::Sq8 && want != WalkCodec::Sq16;
            assert_eq!(matches!(idx.sq8_plane, Plane::Shared(_)), served);
            assert_eq!(inside(idx.sq8_plane.bytes()), served);
            if let Some(plane) = &idx.sq4 {
                assert!(inside(plane.codes()));
                assert!(plane.residual().map_or(true, |r| inside(r)));
            }
        }
    }
}
