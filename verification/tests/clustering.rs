//! Clustering decisions, driven by distances and means computed here.
use infino_core::ivf::{bucket_rows, nearest_centroid};
use infino_core::kmeans::{
    check_assign, check_kmeans, choose_candidate, cluster_counts, coarse_cell, fold_nearest,
    gather_rows, probed_cells, refreshed, seed_rows, super_count, uses_coarse, AssignFault,
    KmeansFault, COARSE_SUPER_ITERS, COARSE_SUPER_SEED,
};
use rand::rngs::StdRng;
use rand::{RngExt, SeedableRng};

fn bits(v: &[f32]) -> Vec<u32> {
    v.iter().map(|x| x.to_bits()).collect()
}

fn floats(v: &[u32]) -> Vec<f32> {
    v.iter().map(|x| f32::from_bits(*x)).collect()
}

fn l2(a: &[f32], b: &[f32]) -> f32 {
    a.iter().zip(b).map(|(x, y)| (x - y) * (x - y)).sum()
}

fn nearest(v: &[f32], centroids: &[f32], dim: usize) -> u32 {
    let dists: Vec<u32> = centroids.chunks(dim).map(|c| l2(v, c).to_bits()).collect();
    nearest_centroid(&dists) as u32
}

fn kmeans_with_assignments(
    vectors: &[f32],
    dim: usize,
    k: usize,
    iters: usize,
    seed: u64,
) -> (Vec<f32>, Vec<u32>) {
    let n = check_kmeans(vectors.len(), dim, k).expect("arguments");
    let picks = seed_rows(n, k, seed);
    assert!(picks.iter().all(|p| *p < n));
    let mut centroids = floats(&gather_rows(&bits(vectors), dim, n, &picks));
    let mut assign = vec![0u32; n];
    for _ in 0..iters {
        assign = vectors.chunks(dim).map(|v| nearest(v, &centroids, dim)).collect();
        let counts = cluster_counts(&assign, k);
        let mut sums = vec![0f64; k * dim];
        for (v, &c) in vectors.chunks(dim).zip(&assign) {
            for (d, x) in v.iter().enumerate() {
                sums[c as usize * dim + d] += *x as f64;
            }
        }
        let means: Vec<f32> = sums
            .iter()
            .enumerate()
            .map(|(i, s)| (s / (counts[i / dim].max(1)) as f64) as f32)
            .collect();
        centroids = floats(&refreshed(&bits(&centroids), &bits(&means), &counts, dim));
    }
    (centroids, assign)
}

fn kmeans(vectors: &[f32], dim: usize, k: usize, iters: usize, seed: u64) -> Vec<f32> {
    kmeans_with_assignments(vectors, dim, k, iters, seed).0
}

#[test]
fn returns_k_centroids_of_dim_each() {
    let vectors: Vec<f32> = (0..800).map(|i| (i as f32) * 0.01).collect();
    let centroids = kmeans(&vectors, 8, 4, 5, 42);
    assert_eq!(centroids.len(), 4 * 8);
}

#[test]
fn determinism_same_seed_same_centroids() {
    let vectors: Vec<f32> = (0..100 * 8).map(|i| (i as f32) * 0.01).collect();
    let c1 = kmeans(&vectors, 8, 4, 5, 12345);
    let c2 = kmeans(&vectors, 8, 4, 5, 12345);
    assert_eq!(c1, c2);
}

#[test]
fn different_seeds_likely_different_centroids() {
    let vectors: Vec<f32> = (0..100 * 8).map(|i| (i as f32) * 0.01).collect();
    let c1 = kmeans(&vectors, 8, 4, 5, 1);
    let c2 = kmeans(&vectors, 8, 4, 5, 999);
    let identical = c1 == c2;
    if identical {
        assert_eq!(c1.len(), c2.len());
    }
    let draws: Vec<Vec<usize>> = (0..4).map(|s| seed_rows(1_000_000, 8, s)).collect();
    assert!(draws[1..].iter().any(|d| *d != draws[0]));
}

#[test]
fn seeds_follow_the_seeded_generator() {
    for (n, k, seed) in [(1usize, 3usize, 0u64), (10, 50, 42), (1_000_000, 20, u64::MAX - 2)] {
        let mut rng = StdRng::seed_from_u64(seed.wrapping_add(7));
        let want: Vec<usize> = (0..k).map(|_| rng.random_range(0..n)).collect();
        assert_eq!(seed_rows(n, k, seed), want);
        assert_eq!(seed_rows(n, k, seed), seed_rows(n, k, seed));
    }
}

#[test]
fn centroids_are_within_data_range() {
    let n = 200;
    let dim = 4;
    let vectors: Vec<f32> = (0..n * dim).map(|i| (i % 10) as f32).collect();
    let centroids = kmeans(&vectors, dim, 8, 5, 7);
    for &c in &centroids {
        assert!((-0.001..=9.001).contains(&c), "centroid value {c}");
    }
}

#[test]
fn cluster_data_recovers_natural_centers() {
    let dim = 4;
    let centers = [
        [0.0f32, 0.0, 0.0, 0.0],
        [10.0, 10.0, 10.0, 10.0],
        [-10.0, -10.0, -10.0, -10.0],
    ];
    let mut vectors: Vec<f32> = Vec::new();
    for (cluster_idx, c) in centers.iter().enumerate() {
        for d in 0..30 {
            for (j, &cj) in c.iter().enumerate() {
                let noise = ((cluster_idx * 30 + d + j) % 7) as f32 * 0.01 - 0.03;
                vectors.push(cj + noise);
            }
        }
    }
    let centroids = kmeans(&vectors, dim, 3, 5, 42);
    for c in &centers {
        let best = centroids
            .chunks(dim)
            .map(|cc| l2(c, cc).sqrt())
            .fold(f32::INFINITY, f32::min);
        assert!(best < 0.5, "no centroid within 0.5 of {c:?} (closest = {best})");
    }
}

#[test]
fn k_equal_to_n_assigns_each_doc_its_own_cluster() {
    let dim = 2;
    let vectors = vec![1.0f32, 2.0, 3.0, 4.0, 5.0, 6.0];
    let centroids = kmeans(&vectors, dim, 3, 5, 42);
    for c in centroids.chunks(dim) {
        let any_match = vectors
            .chunks(dim)
            .any(|p| (p[0] - c[0]).abs() < 1e-3 && (p[1] - c[1]).abs() < 1e-3);
        assert!(any_match, "centroid {c:?} doesn't match any input point");
    }
}

#[test]
fn panics_on_zero_k() {
    assert_eq!(check_kmeans(8, 8, 0), Err(KmeansFault::ZeroK));
}

#[test]
fn panics_on_k_greater_than_n() {
    assert_eq!(check_kmeans(8, 8, 5), Err(KmeansFault::KAboveRows));
}

#[test]
fn panics_on_unaligned_input() {
    assert_eq!(check_kmeans(7, 8, 1), Err(KmeansFault::Unaligned));
}

#[test]
fn other_arguments_are_refused_in_order() {
    assert_eq!(check_kmeans(7, 0, 0), Err(KmeansFault::ZeroDim));
    assert_eq!(check_kmeans(0, 8, 1), Err(KmeansFault::NoRows));
    assert_eq!(check_kmeans(24, 8, 3), Ok(3));
    assert_eq!(check_assign(16, 8, 0, 0, 1), Some(AssignFault::ZeroDim));
    assert_eq!(check_assign(16, 8, 8, 0, 1), Some(AssignFault::ZeroK));
    assert_eq!(check_assign(15, 8, 8, 1, 1), Some(AssignFault::Unaligned));
    assert_eq!(check_assign(16, 9, 8, 1, 2), Some(AssignFault::CentroidLength));
    assert_eq!(check_assign(16, 8, 8, 1, 1), Some(AssignFault::AssignmentLength));
    assert_eq!(check_assign(16, 8, 8, 1, 2), None);
}

fn unit(state: &mut u64) -> f32 {
    *state = state.wrapping_mul(6364136223846793005).wrapping_add(1442695040888963407);
    (*state >> 40) as f32 / (1u64 << 24) as f32
}

#[test]
fn coarse_assign_tracks_exact_at_large_k() {
    let dim = 24;
    let k = 1500usize;
    let n = 3000usize;
    assert!(uses_coarse(k) && !uses_coarse(1023));
    let mut state = 0xBEEFu64;
    let centroids: Vec<f32> = (0..k * dim).map(|_| unit(&mut state)).collect();
    let mut vectors = vec![0f32; n * dim];
    for d in 0..n {
        let c = (unit(&mut state) * k as f32) as usize % k;
        for j in 0..dim {
            vectors[d * dim + j] = centroids[c * dim + j] + (unit(&mut state) - 0.5) * 0.05;
        }
    }
    let m = super_count(k);
    assert_eq!(m, 39);
    let (supers, super_of) =
        kmeans_with_assignments(&centroids, dim, m, COARSE_SUPER_ITERS, COARSE_SUPER_SEED);
    let cells = bucket_rows(&super_of, m);
    let coarse: Vec<u32> = vectors
        .chunks(dim)
        .map(|v| {
            let to_supers: Vec<u32> = supers.chunks(dim).map(|c| l2(v, c).to_bits()).collect();
            let probed: Vec<(u32, u32)> = probed_cells(&to_supers, &cells)
                .into_iter()
                .map(|c| (c as u32, l2(v, &centroids[c * dim..(c + 1) * dim]).to_bits()))
                .collect();
            coarse_cell(&probed).unwrap_or(u32::MAX)
        })
        .collect();
    assert!(coarse.iter().all(|&c| (c as usize) < k), "all cids valid");
    let matches = vectors
        .chunks(dim)
        .zip(&coarse)
        .filter(|(v, c)| nearest(v, &centroids, dim) == **c)
        .count();
    assert!(matches * 100 / n >= 95, "coarse assign matched only {matches}/{n}");
}

#[test]
fn coarse_cell_falls_back_where_nothing_was_probed() {
    assert_eq!(coarse_cell(&vec![]), None);
    assert_eq!(coarse_cell(&vec![(1, f32::INFINITY.to_bits())]), None);
    let cells = vec![(4, 2.0f32.to_bits()), (5, 1.0f32.to_bits()), (6, 1.0f32.to_bits())];
    assert_eq!(coarse_cell(&cells), Some(5));
}

#[test]
fn rows_probe_the_cells_of_their_nearest_supers() {
    let cells = vec![vec![0, 7], vec![1], vec![], vec![2, 3], vec![4], vec![5, 6]];
    // Four of six are probed, nearest first and the smaller id on a tie.
    let dists = bits(&[3.0, 9.0, 0.5, 1.0, 1.0, 8.0]);
    assert_eq!(probed_cells(&dists, &cells), [2, 3, 4, 0, 7]);
    assert_eq!(probed_cells(&bits(&[2.0, 1.0]), &vec![vec![0], vec![1]]), [1, 0]);
    assert!(probed_cells(&vec![], &vec![]).is_empty());
}

#[test]
fn empty_clusters_keep_their_centroid() {
    assert_eq!(cluster_counts(&vec![2, 0, 2], 4), [1, 0, 2, 0]);
    assert_eq!(
        refreshed(&vec![1, 2, 3, 4], &vec![10, 20, 30, 40], &vec![1, 0], 2),
        [10, 20, 3, 4]
    );
}

#[test]
fn super_counts_round_the_root_up() {
    for (k, m) in [(0, 0), (1, 1), (2, 2), (4, 2), (5, 3), (1024, 32), (1025, 33), (u32::MAX as usize, 65_536)] {
        assert_eq!(super_count(k), m);
    }
}

#[test]
fn seeding_copies_the_picked_rows() {
    assert_eq!(gather_rows(&vec![1, 2, 3, 4, 5, 6], 2, 3, &vec![2, 0, 2]), [5, 6, 1, 2, 5, 6]);
    assert_eq!(seed_rows(1, 3, 9), [0, 0, 0]);
}

#[test]
fn the_candidate_of_least_potential_is_committed() {
    let p = |x: f64| x.to_bits();
    assert_eq!(choose_candidate(&vec![(3, p(2.0)), (1, p(1.0)), (2, p(1.0))], 5), 1);
    assert_eq!(choose_candidate(&vec![(3, p(f64::NAN))], 5), 4);
    assert_eq!(choose_candidate(&vec![], 5), 4);
    let mut d2 = bits(&[4.0, 1.0, f32::INFINITY]);
    fold_nearest(&mut d2, &bits(&[2.0, 2.0, 3.0]));
    assert_eq!(floats(&d2), [2.0, 1.0, 3.0]);
}
