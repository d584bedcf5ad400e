use multithreshold::error::SearchError;
use multithreshold::histogram::build_histogram;
use multithreshold::otsu::{
    compute_exhaustive_otsu_thresholds, compute_otsu_thresholds_simulated_annealing,
    compute_otsu_thresholds_variable_neighborhood,
};
use multithreshold::search::{
    compute_thresholds, exhaustive_search, variable_neighborhood_search, AnnealingSchedule, Method,
    NeighborhoodSchedule, SearchLimits,
};
use multithreshold::stats::{calculate_between_class_variance, VARIANCE_SCALE};
use multithreshold::thresholds::class_of;

fn annealing() -> AnnealingSchedule {
    AnnealingSchedule { max_iterations: 100_000, cooling_steps: 1146, max_stall: 500 }
}

fn neighborhood() -> NeighborhoodSchedule {
    NeighborhoodSchedule { max_iterations: 100_000, max_stall: 500 }
}

fn limits() -> SearchLimits {
    SearchLimits { max_candidates: 10_000_000, annealing: annealing(), neighborhood: neighborhood() }
}

/// Metropolis test on scores in fixed point with `scale` units per unit of objective.
fn metropolis(scale: f64) -> impl Fn(u128, u128, usize, u64) -> bool {
    move |current: u128, candidate: u128, iteration: usize, draw: u64| {
        let temperature = 100.0 * 0.99f64.powi(iteration as i32);
        let delta = (candidate as f64 - current as f64) / scale;
        (draw as f64 / 18446744073709551616.0) < (delta / temperature).exp()
    }
}

const ENTROPY_SCALE: f64 = 4294967296.0;

/// Kapur's entropy of the classes defined by `t`, in fixed point.
fn entropy_scorer(h: Vec<u64>) -> impl Fn(&Vec<usize>) -> u128 {
    move |t: &Vec<usize>| {
        let total: f64 = h.iter().map(|&c| c as f64).sum();
        let mut sum = 0.0;
        let mut start = 0;
        for &end in t.iter().chain(std::iter::once(&h.len())) {
            let class: f64 = h[start..end].iter().map(|&c| c as f64 / total).sum();
            if class > 0.0 {
                for i in start..end {
                    let p = h[i] as f64 / total / class;
                    if p > 0.0 {
                        sum -= p * p.ln();
                    }
                }
            }
            start = end;
        }
        (sum * ENTROPY_SCALE).round() as u128
    }
}

fn two_point_masses() -> Vec<u64> {
    let mut h = vec![0u64; 256];
    h[50] = 1;
    h[200] = 1;
    h
}

fn peaked() -> Vec<u64> {
    let mut h = vec![0u64; 256];
    h[10] = 40;
    h[100] = 25;
    h[220] = 35;
    h
}

fn non_empty_classes(h: &[u64], t: &[usize]) -> usize {
    let mut bounds = vec![0];
    bounds.extend_from_slice(t);
    bounds.push(h.len());
    bounds.windows(2).filter(|w| h[w[0]..w[1]].iter().sum::<u64>() > 0).count()
}

fn assert_valid(t: &[usize], k: usize, levels: usize) {
    assert_eq!(t.len(), k - 1);
    for w in t.windows(2) {
        assert!(w[0] < w[1]);
    }
    for &c in t {
        assert!(1 <= c && c < levels);
    }
}

#[test]
fn two_point_masses_exhaustive_variance() {
    let h = two_point_masses();
    let o = compute_exhaustive_otsu_thresholds(&h, 2, 1_000_000).unwrap();
    assert_eq!(o.thresholds, vec![51]);
    assert_eq!(o.score, (50u128 * 50 + 200 * 200) * VARIANCE_SCALE);
    let n = 2.0;
    let moment = 250.0;
    let variance = (o.score as f64 / VARIANCE_SCALE as f64 - moment * moment / n) / n;
    assert_eq!(variance, 5625.0);
    assert_eq!(o.iterations, 255);
}

#[test]
fn uniform_entropy_exhaustive_midpoint() {
    let h = vec![1u64; 256];
    let f = entropy_scorer(h);
    let o = exhaustive_search(&f, 2, 256, 1_000_000).unwrap();
    assert_eq!(o.thresholds, vec![128]);
}

#[test]
fn uniform_entropy_stochastic_near_midpoint() {
    let h = vec![1u64; 256];
    let f = entropy_scorer(h);
    let accept = metropolis(ENTROPY_SCALE);
    for method in [Method::SimulatedAnnealing, Method::VariableNeighborhood] {
        let o = compute_thresholds(&f, &accept, 2, 256, method, 42, limits()).unwrap();
        assert_valid(&o.thresholds, 2, 256);
        assert!((o.thresholds[0] as i64 - 128).abs() <= 4, "{:?}", o.thresholds);
    }
}

#[test]
fn peaked_distribution_five_classes() {
    let h = peaked();
    let o = compute_otsu_thresholds_variable_neighborhood(&h, 5, 42, neighborhood()).unwrap();
    assert_valid(&o.thresholds, 5, 256);
    assert!(non_empty_classes(&h, &o.thresholds) <= 3);
    let accept = metropolis(VARIANCE_SCALE as f64 * 100.0);
    let o = compute_otsu_thresholds_simulated_annealing(&h, 5, 42, annealing(), &accept).unwrap();
    assert_valid(&o.thresholds, 5, 256);
    assert!(non_empty_classes(&h, &o.thresholds) <= 3);
    let f = entropy_scorer(h.clone());
    let o = variable_neighborhood_search(&f, 5, 256, 7, neighborhood());
    assert_valid(&o.thresholds, 5, 256);
    assert!(non_empty_classes(&h, &o.thresholds) <= 3);
}

#[test]
fn peaked_distribution_exhaustive_small_levels() {
    let mut h = vec![0u64; 16];
    h[2] = 5;
    h[7] = 3;
    h[12] = 4;
    let o = compute_exhaustive_otsu_thresholds(&h, 5, 1_000_000).unwrap();
    assert_valid(&o.thresholds, 5, 16);
    assert!(non_empty_classes(&h, &o.thresholds) <= 3);
    assert_eq!(non_empty_classes(&h, &o.thresholds), 3);
}

#[test]
fn exhaustive_matches_brute_force_first_maximum() {
    let mut h = vec![0u64; 12];
    for (i, c) in [3u64, 0, 7, 1, 0, 0, 4, 9, 2, 0, 5, 1].iter().enumerate() {
        h[i] = *c;
    }
    let o = compute_exhaustive_otsu_thresholds(&h, 3, 1_000_000).unwrap();
    let mut best: Option<(Vec<usize>, u128)> = None;
    for a in 1..12 {
        for b in a + 1..12 {
            let t = vec![a, b];
            let s = calculate_between_class_variance(&h, &t, 12);
            if best.as_ref().map_or(true, |(_, bs)| s > *bs) {
                best = Some((t, s));
            }
        }
    }
    let (bt, bs) = best.unwrap();
    assert_eq!(o.thresholds, bt);
    assert_eq!(o.score, bs);
}

#[test]
fn same_seed_same_result() {
    let h = peaked();
    let accept = metropolis(VARIANCE_SCALE as f64 * 100.0);
    for k in 2..=5 {
        let a = compute_otsu_thresholds_simulated_annealing(&h, k, 42, annealing(), &accept).unwrap();
        let b = compute_otsu_thresholds_simulated_annealing(&h, k, 42, annealing(), &accept).unwrap();
        assert_eq!(a.thresholds, b.thresholds);
        assert_eq!(a.score, b.score);
        let a = compute_otsu_thresholds_variable_neighborhood(&h, k, 42, neighborhood()).unwrap();
        let b = compute_otsu_thresholds_variable_neighborhood(&h, k, 42, neighborhood()).unwrap();
        assert_eq!(a.thresholds, b.thresholds);
        assert_eq!(a.score, b.score);
    }
}

#[test]
fn search_never_below_start() {
    let h = peaked();
    let start = calculate_between_class_variance(&h, &vec![64, 128, 192], 256);
    let o = compute_otsu_thresholds_variable_neighborhood(&h, 4, 3, neighborhood()).unwrap();
    assert!(o.score >= start);
    let accept = metropolis(VARIANCE_SCALE as f64 * 100.0);
    let o = compute_otsu_thresholds_simulated_annealing(&h, 4, 3, annealing(), &accept).unwrap();
    assert!(o.score >= start);
    assert_eq!(o.score, calculate_between_class_variance(&h, &o.thresholds, 256));
}

#[test]
fn classes_cover_levels() {
    let h = peaked();
    let o = compute_otsu_thresholds_variable_neighborhood(&h, 4, 42, neighborhood()).unwrap();
    let mut seen = vec![0usize; 4];
    let mut last = 0;
    for v in 0..256 {
        let c = class_of(&o.thresholds, 256, v);
        assert!(c >= last && c <= last + 1);
        last = c;
        seen[c] += 1;
    }
    assert_eq!(last, 3);
    assert!(seen.iter().all(|&n| n > 0));
    assert_eq!(seen.iter().sum::<usize>(), 256);
}

#[test]
fn too_few_classes_is_invalid() {
    let h = peaked();
    assert_eq!(compute_exhaustive_otsu_thresholds(&h, 1, 10).err(), Some(SearchError::InvalidParameter));
    assert_eq!(
        compute_otsu_thresholds_variable_neighborhood(&h, 0, 1, neighborhood()).err(),
        Some(SearchError::InvalidParameter)
    );
    let f = entropy_scorer(h.clone());
    let accept = metropolis(ENTROPY_SCALE);
    assert_eq!(
        compute_thresholds(&f, &accept, 1, 256, Method::SimulatedAnnealing, 1, limits()).err(),
        Some(SearchError::InvalidParameter)
    );
    assert_eq!(
        compute_thresholds(&f, &accept, 257, 256, Method::Exhaustive, 1, limits()).err(),
        Some(SearchError::InvalidParameter)
    );
}

#[test]
fn empty_image_is_resource_empty() {
    assert_eq!(build_histogram(&vec![]).err(), Some(SearchError::ResourceEmpty));
    let h = vec![0u64; 256];
    assert_eq!(compute_exhaustive_otsu_thresholds(&h, 2, 10).err(), Some(SearchError::ResourceEmpty));
    let accept = metropolis(1.0);
    assert_eq!(
        compute_otsu_thresholds_simulated_annealing(&h, 3, 1, annealing(), &accept).err(),
        Some(SearchError::ResourceEmpty)
    );
}

#[test]
fn exhaustive_bound_is_resource_exhausted() {
    let h = peaked();
    assert_eq!(compute_exhaustive_otsu_thresholds(&h, 3, 1000).err(), Some(SearchError::ResourceExhausted));
    assert!(compute_exhaustive_otsu_thresholds(&h, 2, 255).is_ok());
    assert_eq!(compute_exhaustive_otsu_thresholds(&h, 2, 254).err(), Some(SearchError::ResourceExhausted));
}

#[test]
fn histogram_counts_pixels() {
    let h = build_histogram(&vec![0u8, 5, 5, 255, 5]).unwrap();
    assert_eq!(h.len(), 256);
    assert_eq!(h[0], 1);
    assert_eq!(h[5], 3);
    assert_eq!(h[255], 1);
    assert_eq!(h.iter().sum::<u64>(), 5);
}

#[test]
fn variance_score_exact_value() {
    let mut h = vec![0u64; 4];
    h[0] = 1;
    h[1] = 2;
    h[3] = 3;
    // classes [0,2) and [2,4): counts 3 and 3, moments 2 and 9
    let s = calculate_between_class_variance(&h, &vec![2], 4);
    assert_eq!(s, 4 * VARIANCE_SCALE / 3 + 81 * VARIANCE_SCALE / 3);
    // an empty class adds nothing
    let s = calculate_between_class_variance(&h, &vec![2, 3], 4);
    assert_eq!(s, 4 * VARIANCE_SCALE / 3 + 81 * VARIANCE_SCALE / 3);
}

#[test]
fn single_valid_vector_needs_no_budget() {
    let h = vec![2u64, 1, 4];
    let o = compute_exhaustive_otsu_thresholds(&h, 3, 0).unwrap();
    assert_eq!(o.thresholds, vec![1, 2]);
    assert_eq!(o.iterations, 1);
    assert_eq!(compute_exhaustive_otsu_thresholds(&h, 2, 0).err(), Some(SearchError::ResourceExhausted));
    assert_eq!(compute_exhaustive_otsu_thresholds(&h, 4, 0).err(), Some(SearchError::InvalidParameter));
}
