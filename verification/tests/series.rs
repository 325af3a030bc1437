use nexus_viewer::number::Real;
use nexus_viewer::series::{
    can_interpolate, compute_stats, decimate, greatest, interp_onto, least, stride_cap, Pick,
    BUCKETS, MAX_POINTS,
};

fn reals(v: &[f64]) -> Vec<Real> {
    v.iter().map(|x| Real { bits: x.to_bits() }).collect()
}

fn float(r: Real) -> f64 {
    f64::from_bits(r.bits)
}

#[test]
fn stats_give_the_extremes() {
    let data = reals(&[2.0, -1.5, 7.0, f64::NAN]);
    let mean = Real { bits: 2.5f64.to_bits() };
    let s = compute_stats(&data, mean).unwrap();
    assert_eq!(s.n, 4);
    assert_eq!(float(s.min), -1.5);
    assert_eq!(float(s.max), 7.0);
    assert_eq!(float(s.mean), 2.5);
    assert!(compute_stats(&Vec::new(), mean).is_none());
    let gaps = compute_stats(&reals(&[f64::NAN, f64::NAN]), mean).unwrap();
    assert_eq!((float(gaps.min), float(gaps.max)), (f64::INFINITY, f64::NEG_INFINITY));
    assert_eq!(float(least(&reals(&[f64::NAN]))), f64::INFINITY);
    assert_eq!(float(greatest(&reals(&[f64::NAN]))), f64::NEG_INFINITY);
}

/// Bucket by bucket the positions of the least and the greatest number.
fn min_max(y: &[f64]) -> Vec<usize> {
    let n = y.len();
    if n <= 20_000 {
        return (0..n).collect();
    }
    let buckets = 10_000;
    let mut out = Vec::new();
    for b in 0..buckets {
        let start = b * n / buckets;
        let end = ((b + 1) * n / buckets).max(start + 1);
        let (mut lo, mut hi) = (start, start);
        for i in start..end {
            if y[i] < y[lo] || (y[lo].is_nan() && !y[i].is_nan()) {
                lo = i;
            }
            if y[i] > y[hi] || (y[hi].is_nan() && !y[i].is_nan()) {
                hi = i;
            }
        }
        out.push(lo.min(hi));
        if lo != hi {
            out.push(lo.max(hi));
        }
    }
    out
}

#[test]
fn long_series_are_thinned_to_their_extremes() {
    assert_eq!((MAX_POINTS, BUCKETS), (20_000, 10_000));
    for n in [0, 1, 20_000, 20_001, 25_555, 61_234] {
        let y: Vec<f64> = (0..n).map(|i| ((i * 7919) % 1009) as f64 - 500.0).collect();
        assert_eq!(decimate(&reals(&y)), min_max(&y), "{n}");
    }
    let mut gaps: Vec<f64> = (0..40_000).map(|i| (i % 17) as f64).collect();
    for i in (0..40_000).step_by(7) {
        gaps[i] = f64::NAN;
    }
    assert_eq!(decimate(&reals(&gaps)), min_max(&gaps));
    let level = vec![1.0; 30_000];
    assert_eq!(decimate(&reals(&level)).len(), 10_000);
}

#[test]
fn spikes_survive_thinning() {
    let mut y = vec![0.0; 100_000];
    y[54_321] = 1e9;
    y[77_777] = -1e9;
    let kept = decimate(&reals(&y));
    assert!(kept.len() <= MAX_POINTS);
    assert!(kept.contains(&54_321) && kept.contains(&77_777));
    assert!(kept.windows(2).all(|w| w[0] < w[1]));
}

#[test]
fn a_gap_hides_no_spike() {
    let mut y = vec![0.0; 20_001];
    y[0] = f64::NAN;
    y[1] = 9.0;
    assert!(decimate(&reals(&y)).contains(&1));
    let mut y = vec![f64::NAN; 100_000];
    y[54_321] = 3.0;
    y[54_325] = -3.0;
    let kept = decimate(&reals(&y));
    assert!(kept.contains(&54_321) && kept.contains(&54_325));
    assert_eq!(kept.len(), 10_001);
    assert_eq!(kept[0], 0);
}

#[test]
fn capping_takes_every_nth() {
    let all: Vec<usize> = (0..10).collect();
    assert_eq!(stride_cap(all.clone(), 10), all);
    assert_eq!(stride_cap(all.clone(), 9), [0, 2, 4, 6, 8]);
    assert_eq!(stride_cap(all.clone(), 3), [0, 4, 8]);
    assert_eq!(stride_cap(all, 1), [0]);
    for n in [1usize, 99, 100, 101, 999, 12_345] {
        let v: Vec<usize> = (0..n).collect();
        assert!(stride_cap(v, 100).len() <= 100);
    }
}

/// Linear interpolation on floating-point numbers.
fn interpolated(grid: &[f64], t: &[f64], v: &[f64]) -> Vec<f64> {
    interp_onto(&reals(grid), &reals(t))
        .iter()
        .zip(grid)
        .map(|(p, x)| match *p {
            Pick::At(i) => v[i],
            Pick::Between(i) => v[i] + (v[i + 1] - v[i]) * (x - t[i]) / (t[i + 1] - t[i]),
        })
        .collect()
}

#[test]
fn interpolation_is_linear_and_clamped() {
    let t = [0.0, 1.0, 3.0];
    let v = [10.0, 20.0, 40.0];
    let grid = [-5.0, 0.0, 0.5, 1.0, 2.0, 3.0, 9.0];
    assert_eq!(interpolated(&grid, &t, &v), [10.0, 10.0, 15.0, 20.0, 30.0, 40.0, 40.0]);
    assert_eq!(interp_onto(&reals(&[0.5]), &reals(&[1.0])), [Pick::At(0)]);
    assert_eq!(interp_onto(&reals(&[0.5]), &reals(&t)), [Pick::Between(0)]);
}

#[test]
fn sorted_grids_can_be_interpolated_onto() {
    assert!(can_interpolate(&reals(&[1.0, 2.0, 2.0, 5.0]), &reals(&[0.0, 3.0, 2.0, 4.0])));
    // After a late time the search has run past the samples around an earlier one.
    assert!(!can_interpolate(&reals(&[9.0, 1.0]), &reals(&[0.0, 2.0])));
    assert!(!can_interpolate(&reals(&[1.0]), &reals(&[])));
    assert!(can_interpolate(&reals(&[]), &reals(&[1.0])));
}
