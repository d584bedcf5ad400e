use multithreshold::enumerate::{combinations, next_combination};
use multithreshold::moves::{evenly_spaced, replace_threshold, shift_threshold, step_threshold};
use multithreshold::search::{
    annealing_step, enumeration_fits, local_search, neighborhood_step, shake_with, AnnealingState,
    NeighborhoodState,
};
use multithreshold::stats::calculate_between_class_variance;
use multithreshold::thresholds::{class_of, segment_of};

#[test]
fn combinations_in_lexicographic_order() {
    let c = combinations(1, 4, 2);
    assert_eq!(c, vec![vec![1, 2], vec![1, 3], vec![1, 4], vec![2, 3], vec![2, 4], vec![3, 4]]);
    assert_eq!(combinations(1, 255, 1).len(), 255);
    assert_eq!(combinations(1, 255, 2).len(), 255 * 254 / 2);
    assert_eq!(combinations(3, 5, 3), vec![vec![3, 4, 5]]);
}

#[test]
fn next_combination_successor() {
    assert_eq!(next_combination(&vec![1, 4, 5], 1, 5), Some(vec![2, 3, 4]));
    assert_eq!(next_combination(&vec![1, 2, 3], 1, 5), Some(vec![1, 2, 4]));
    assert_eq!(next_combination(&vec![3, 4, 5], 1, 5), None);
}

#[test]
fn evenly_spaced_cuts() {
    assert_eq!(evenly_spaced(4, 256), vec![64, 128, 192]);
    assert_eq!(evenly_spaced(2, 256), vec![128]);
    assert_eq!(evenly_spaced(5, 5), vec![1, 2, 3, 4]);
}

#[test]
fn shift_clamps_to_neighbours_and_range() {
    assert_eq!(shift_threshold(&vec![10, 11, 20], 0, true, 3, 256), vec![10, 11, 20]);
    assert_eq!(shift_threshold(&vec![10, 15, 20], 1, true, 3, 256), vec![10, 18, 20]);
    assert_eq!(shift_threshold(&vec![10, 15, 20], 1, true, 9, 256), vec![10, 19, 20]);
    assert_eq!(shift_threshold(&vec![10, 15, 20], 1, false, 9, 256), vec![10, 11, 20]);
    assert_eq!(shift_threshold(&vec![2, 15], 0, false, 3, 256), vec![1, 15]);
    assert_eq!(shift_threshold(&vec![2, 254], 1, true, 3, 256), vec![2, 255]);
}

#[test]
fn step_skips_collisions() {
    assert_eq!(step_threshold(&vec![10, 11], 0, true, 256), None);
    assert_eq!(step_threshold(&vec![10, 11], 1, false, 256), None);
    assert_eq!(step_threshold(&vec![10, 12], 0, true, 256), Some(vec![11, 12]));
    assert_eq!(step_threshold(&vec![1, 12], 0, false, 256), Some(vec![1, 12]));
}

#[test]
fn replace_keeps_order_and_distinct() {
    assert_eq!(replace_threshold(&vec![10, 20, 30], 0, 25, 256), vec![20, 25, 30]);
    assert_eq!(replace_threshold(&vec![10, 20, 30], 2, 5, 256), vec![5, 10, 20]);
    assert_eq!(replace_threshold(&vec![10, 20, 30], 0, 30, 256), vec![10, 20, 30]);
    assert_eq!(replace_threshold(&vec![10, 20, 30], 1, 20, 256), vec![10, 20, 30]);
}

#[test]
fn shake_neighbourhoods() {
    let t = vec![10, 20, 30];
    assert_eq!(shake_with(&t, 1, 1, true, 1, 256), vec![10, 21, 30]);
    assert_eq!(shake_with(&t, 2, 1, false, 1, 256), vec![10, 17, 30]);
    assert_eq!(shake_with(&t, 3, 1, false, 1, 256), t);
    assert_eq!(shake_with(&t, 4, 2, false, 15, 256), vec![10, 15, 20]);
}

#[test]
fn classification_ties() {
    let t = vec![50, 100];
    assert_eq!(class_of(&t, 256, 49), 0);
    assert_eq!(class_of(&t, 256, 50), 1);
    assert_eq!(class_of(&t, 256, 255), 2);
    assert_eq!(segment_of(&t, 50), 0);
    assert_eq!(segment_of(&t, 51), 1);
    assert_eq!(segment_of(&t, 100), 1);
    assert_eq!(segment_of(&t, 101), 2);
}

#[test]
fn annealing_step_tracks_best() {
    let mut s = AnnealingState { current: vec![5], current_score: 10, best: vec![5], best_score: 10, stall: 0 };
    annealing_step(&mut s, vec![6], 8, false);
    assert_eq!((s.current.clone(), s.current_score, s.best.clone(), s.best_score, s.stall), (vec![5], 10, vec![5], 10, 1));
    annealing_step(&mut s, vec![6], 8, true);
    assert_eq!((s.current.clone(), s.current_score, s.best.clone(), s.best_score, s.stall), (vec![6], 8, vec![5], 10, 2));
    annealing_step(&mut s, vec![7], 9, false);
    assert_eq!((s.current.clone(), s.best_score, s.stall), (vec![7], 10, 3));
    annealing_step(&mut s, vec![8], 12, false);
    assert_eq!((s.current.clone(), s.best.clone(), s.best_score, s.stall), (vec![8], vec![8], 12, 0));
}

#[test]
fn neighborhood_step_cycles() {
    let mut s = NeighborhoodState {
        current: vec![5],
        current_score: 10,
        best: vec![5],
        best_score: 10,
        neighborhood: 1,
        stall: 0,
    };
    let mut best_seen = s.best_score;
    for expected in [2, 3, 4, 1, 2] {
        neighborhood_step(&mut s, vec![9], 10);
        assert_eq!(s.neighborhood, expected);
        assert!(s.best_score >= best_seen);
        best_seen = s.best_score;
    }
    assert_eq!(s.stall, 5);
    neighborhood_step(&mut s, vec![9], 11);
    assert_eq!((s.current.clone(), s.best.clone(), s.best_score, s.neighborhood, s.stall), (vec![9], vec![9], 11, 1, 0));
}

#[test]
fn local_search_climbs_to_peak() {
    // unimodal objective with its top at 40
    let f = |t: &Vec<usize>| 1000u128 - (t[0] as i64 - 40).unsigned_abs() as u128;
    let (t, s, steps) = local_search(&f, vec![30], 256);
    assert_eq!(t, vec![40]);
    assert_eq!(s, 1000);
    assert_eq!(steps, 10);
}

#[test]
fn local_search_uniform_histogram_reaches_midpoint() {
    let h = vec![1u64; 256];
    let f = |t: &Vec<usize>| calculate_between_class_variance(&h, t, 256);
    let (t, s, steps) = local_search(&f, vec![120], 256);
    assert_eq!(t, vec![128]);
    assert_eq!(steps, 8);
    assert_eq!(s, calculate_between_class_variance(&h, &vec![128], 256));
}

#[test]
fn local_search_first_improvement_order() {
    // both neighbours of 20 improve; the step down is tried first
    let f = |t: &Vec<usize>| if t[0] == 19 { 5u128 } else if t[0] == 21 { 7 } else { 1 };
    let (t, s, steps) = local_search(&f, vec![20], 256);
    assert_eq!((t, s, steps), (vec![19], 5, 1));
    // cut 0 is scanned before cut 1
    let g = |t: &Vec<usize>| if t == &vec![11, 30] { 3u128 } else if t == &vec![10, 29] { 9 } else { 1 };
    let (t, _, _) = local_search(&g, vec![10, 30], 256);
    assert_eq!(t, vec![11, 30]);
}

#[test]
fn local_search_stops_at_round_cap() {
    let f = |t: &Vec<usize>| t[0] as u128;
    let (t, s, steps) = local_search(&f, vec![1], 256);
    assert_eq!(steps, 100);
    assert_eq!(t, vec![101]);
    assert_eq!(s, 101);
}

#[test]
fn combinations_edge_cases() {
    let empty: Vec<Vec<usize>> = vec![];
    assert_eq!(combinations(3, 3, 2), empty);
    assert_eq!(combinations(5, 3, 1), empty);
    assert_eq!(combinations(1, 3, 4), empty);
    assert_eq!(combinations(1, 3, 0), vec![Vec::<usize>::new()]);
    assert_eq!(combinations(0, 2, 2), vec![vec![0, 1], vec![0, 2], vec![1, 2]]);
}

#[test]
fn segment_counts_cuts_below_with_repeats() {
    let t = vec![50, 50, 100];
    assert_eq!(segment_of(&t, 50), 0);
    assert_eq!(segment_of(&t, 51), 2);
    assert_eq!(segment_of(&t, 101), 3);
}

#[test]
fn enumeration_bound_counts_without_scoring() {
    assert!(enumeration_fits(2, 256, 255));
    assert!(!enumeration_fits(2, 256, 254));
    assert!(enumeration_fits(3, 6, 10));
    assert!(!enumeration_fits(3, 6, 9));
    assert!(enumeration_fits(3, 3, 0));
}
