//! Patterns against the machine's own arithmetic.
use infino_core::calibrate::{calibration_draws, calibration_sources, clamp_to_unit, ratio};
use infino_core::codes::{sq8_walk_dot, Sq8WalkScorer};
use infino_core::float_bits::{
    at_most32, at_most64, is_finite32, is_finite64, is_nan32, is_nan64, less32, less64, total_key32,
};
use infino_core::graph::{level_draw, splitmix64};
use infino_core::rounding::negated_to_f32;
use infino_core::scorer::NodeScorer;
use infino_core::span::{derive_sq8_quantizer_from_min_max, fitted_ruler, range_of, rise32};

/// Patterns of every kind: zeros, subnormals, ordinary numbers, infinities.
fn samples() -> Vec<f32> {
    let mut out = vec![
        0.0,
        -0.0,
        f32::MIN_POSITIVE,
        f32::from_bits(1),
        f32::from_bits(0x007f_ffff),
        f32::from_bits(0x8000_0001),
        1.0,
        -1.0,
        f32::from_bits(0x3f80_0001),
        f32::from_bits(0x3f7f_ffff),
        16_777_216.0,
        -16_777_216.0,
        f32::MAX,
        f32::MIN,
        f32::INFINITY,
        f32::NEG_INFINITY,
        f32::NAN,
        1.0e-30,
        1.0e30,
        3.0e-39,
    ];
    let mut state = 0xF10A7u64;
    for _ in 0..160 {
        out.push(f32::from_bits(splitmix64(&mut state) as u32));
    }
    for _ in 0..60 {
        let r = splitmix64(&mut state);
        out.push((r >> 40) as f32 / 1000.0 - 8000.0);
    }
    out
}

#[test]
fn rises_are_the_machines_differences() {
    let xs = samples();
    let mut positive = 0;
    for &hi in &xs {
        for &lo in &xs {
            let d = hi - lo;
            let want = if d > 0.0 { d } else { 0.0 };
            let got = rise32(hi.to_bits(), lo.to_bits());
            assert_eq!(got, want.to_bits(), "{hi:e} - {lo:e}");
            positive += u32::from(d > 0.0);
        }
    }
    assert!(positive > 10_000);
}

#[test]
fn rulers_are_the_machines_quotients() {
    let xs: Vec<f32> = samples().into_iter().filter(|x| !x.is_nan()).collect();
    for &max in &xs {
        let maxs: Vec<u32> = vec![max.to_bits(); xs.len()];
        let mins: Vec<u32> = xs.iter().map(|x| x.to_bits()).collect();
        let (scale, offset) = derive_sq8_quantizer_from_min_max(&mins, &maxs);
        let (fit, fit_off) = fitted_ruler(&mins, &maxs, 65_535, true);
        let (fit4, fit4_off) = fitted_ruler(&mins, &maxs, 15, false);
        for (d, &min) in xs.iter().enumerate() {
            let span = max - min;
            let (s, o) = if span > 0.0 && span.is_finite() {
                (span / 255.0, min)
            } else {
                (1.0, if min.is_finite() { min } else { 0.0 })
            };
            assert_eq!((scale[d], offset[d]), (s.to_bits(), o.to_bits()), "{min:e}..{max:e}");
            let fitted = min.is_finite() && max > min;
            let (s, o) = if fitted {
                (span / 65_535.0, min)
            } else {
                (1.0, if min.is_finite() { min } else { 0.0 })
            };
            assert_eq!((fit[d], fit_off[d]), (s.to_bits(), o.to_bits()), "{min:e}..{max:e}");
            let (s, o) = if fitted { (span / 15.0, min) } else { (1.0, 0.0) };
            assert_eq!((fit4[d], fit4_off[d]), (s.to_bits(), o.to_bits()), "{min:e}..{max:e}");
        }
    }
}

#[test]
fn ranges_skip_what_is_not_a_number() {
    let rows: Vec<Vec<u32>> = [[1.0f32, f32::NAN], [-3.0, 2.0], [5.0, f32::NAN]]
        .iter()
        .map(|r| r.iter().map(|x| x.to_bits()).collect())
        .collect();
    let (min, max) = range_of(&rows, &vec![0, 1, 2], 2);
    assert_eq!(min, [(-3.0f32).to_bits(), 2.0f32.to_bits()]);
    assert_eq!(max, [5.0f32.to_bits(), 2.0f32.to_bits()]);
    let (min, max) = range_of(&rows, &vec![], 2);
    assert_eq!(min, [f32::INFINITY.to_bits(); 2]);
    assert_eq!(max, [f32::NEG_INFINITY.to_bits(); 2]);
    let (min, _) = range_of(&rows, &vec![2], 2);
    assert_eq!(min[0], 5.0f32.to_bits());
}

#[test]
fn comparisons_are_the_machines() {
    let xs = samples();
    for &a in &xs {
        assert_eq!(is_nan32(a.to_bits()), a.is_nan());
        assert_eq!(is_finite32(a.to_bits()), a.is_finite());
        for &b in &xs {
            assert_eq!(less32(a.to_bits(), b.to_bits()), a < b);
            assert_eq!(at_most32(a.to_bits(), b.to_bits()), a <= b);
            assert_eq!(
                total_key32(a.to_bits()) < total_key32(b.to_bits()),
                a.total_cmp(&b).is_lt()
            );
        }
    }
    for a in [0.0f64, -0.0, 1.0, -1.5, f64::NAN, f64::INFINITY, f64::MIN_POSITIVE] {
        assert_eq!(is_nan64(a.to_bits()), a.is_nan());
        assert_eq!(is_finite64(a.to_bits()), a.is_finite());
        for b in [0.0f64, -0.0, 1.0, -2.5, f64::NAN, f64::NEG_INFINITY] {
            assert_eq!(less64(a.to_bits(), b.to_bits()), a < b);
            assert_eq!(at_most64(a.to_bits(), b.to_bits()), a <= b);
        }
    }
}

#[test]
fn conversions_round_like_the_machine() {
    let mut state = 3u64;
    let mut xs: Vec<i32> = vec![0, 1, -1, 16_777_215, 16_777_216, 16_777_217, 16_777_219, -16_777_217, i32::MAX, i32::MIN + 1];
    for _ in 0..2000 {
        let r = splitmix64(&mut state);
        xs.push(((r as i32) >> (r >> 59)).max(i32::MIN + 1));
    }
    for v in xs {
        assert_eq!(negated_to_f32(v), (-(v as f32)).to_bits(), "{v}");
    }
    for total in 1u64..60 {
        for hit in 0..=total {
            assert_eq!(ratio(hit, total), (hit as f64 / total as f64).to_bits());
        }
    }
    assert_eq!(ratio(0, 0), 0);
    assert_eq!(ratio(3_333_333_333, 9_007_199_254_740_991), (3_333_333_333.0f64 / 9_007_199_254_740_991.0).to_bits());
    assert_eq!(clamp_to_unit(1.5f64.to_bits()), 1.0f64.to_bits());
    assert_eq!(clamp_to_unit((-0.5f64).to_bits()), 0);
    assert_eq!(clamp_to_unit(0.25f64.to_bits()), 0.25f64.to_bits());
}

#[test]
fn draws_follow_splitmix() {
    let mut s = 0u64;
    assert_eq!(splitmix64(&mut s), 0xE220_A839_7B1D_CDAF);
    assert_eq!(splitmix64(&mut s), 0x6E78_9E6A_A1B9_65F4);
    assert_eq!(level_draw(0, 0), 0xE220_A839_7B1D_CDAF >> 11);
    let seed = 0x5EEDu64;
    let mut state = seed ^ 0x9E37_79B9_7F4A_7C15;
    let want: Vec<u32> = (0..5).map(|_| (splitmix64(&mut state) >> 40) as u32).collect();
    assert_eq!(calibration_draws(seed, 5), want);
    let n = 1000usize;
    let want: Vec<u32> = (0..7usize).map(|i| (i.wrapping_mul(2_654_435_761) % n) as u32).collect();
    assert_eq!(calibration_sources(n, 7), want);
    assert_eq!(calibration_sources(3, 7).len(), 3);
    assert!(calibration_sources(0, 7).is_empty());
}

#[test]
fn the_baseline_centers_the_walk_dot() {
    let plane = vec![128u8, 255, 0, 130];
    let scorer = Sq8WalkScorer::new(&plane, 2, 2);
    let q = vec![3i8, -4];
    assert_eq!(sq8_walk_dot(&plane[0..2], &q), 128 * 3 - 255 * 4);
    let p = scorer.prepare(&q);
    assert_eq!(f32::from_bits(scorer.score(&p, 0)), 127.0 * 4.0);
    assert_eq!(f32::from_bits(scorer.score(&p, 1)), 128.0 * 3.0 + 2.0 * 4.0);
    let p = scorer.prepare_node(1);
    assert_eq!(f32::from_bits(scorer.score(&p, 1)), -(128.0 * 128.0 + 4.0));
    assert_eq!((scorer.len(), scorer.dim(), scorer.is_empty()), (2, 2, false));
}
