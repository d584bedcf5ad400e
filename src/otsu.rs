use vstd::prelude::*;

use crate::enumerate::lex_less;
use crate::error::SearchError;
use crate::moves::evenly_spaced_cuts;
use crate::search::{
    ascending_valid, covers_valid, deterministic, exhaustive_search, has_score, scored, scores_all, simulated_annealing, valid_scored,
    variable_neighborhood_search, AnnealingSchedule, NeighborhoodSchedule, SearchOutcome,
};
use crate::stats::{
    calculate_between_class_variance, range_count, variance_input, variance_score, MAX_PIXELS,
};
use crate::thresholds::{valid_thresholds, MAX_LEVELS};

verus! {

/// Total number of pixels of a histogram.
pub fn total_count(h: &Vec<u64>) -> (r: u64)
    requires
        h@.len() <= MAX_LEVELS,
        range_count(h@, 0, h@.len() as int) <= MAX_PIXELS,
    ensures
        r == range_count(h@, 0, h@.len() as int),
{
    let mut sum: u64 = 0;
    let mut i: usize = 0;
    while i < h.len()
        invariant
            i <= h@.len(),
            range_count(h@, 0, h@.len() as int) <= MAX_PIXELS,
            sum == range_count(h@, 0, i as int),
        decreases h.len() - i,
    {
        proof {
            lemma_prefix_le_total(h@, i + 1);
        }
        sum = sum + h[i];
        i = i + 1;
    }
    sum
}

proof fn lemma_prefix_le_total(h: Seq<u64>, b: int)
    requires
        0 <= b <= h.len(),
    ensures
        range_count(h, 0, b) <= range_count(h, 0, h.len() as int),
    decreases h.len() - b,
{
    if b < h.len() {
        lemma_prefix_le_total(h, b + 1);
    }
}

/// The error, if any, owed before a search over histogram `h` with `k` classes:
/// `InvalidParameter` for `k < 2` or more classes than levels, `ResourceEmpty`
/// for a histogram without pixels.
pub open spec fn precondition_error(h: Seq<u64>, k: int) -> Option<SearchError> {
    if k < 2 || k > h.len() {
        Some(SearchError::InvalidParameter)
    } else if range_count(h, 0, h.len() as int) == 0 {
        Some(SearchError::ResourceEmpty)
    } else {
        None
    }
}

fn validate_inputs(h: &Vec<u64>, k: usize) -> (r: Result<(), SearchError>)
    requires
        variance_input(h@, h@.len()),
    ensures
        r matches Err(e) ==> precondition_error(h@, k as int) == Some(e),
        r is Ok <==> precondition_error(h@, k as int) is None,
{
    if k < 2 || k > h.len() {
        return Err(SearchError::InvalidParameter);
    }
    if total_count(h) == 0 {
        return Err(SearchError::ResourceEmpty);
    }
    Ok(())
}

/// Exhaustive Otsu search over histogram `h` (one count per intensity level):
/// the valid vector of `k - 1` cuts with the largest `variance_score`, the
/// lexicographically first one among equals.
pub fn compute_exhaustive_otsu_thresholds(h: &Vec<u64>, k: usize, max_candidates: usize) -> (r: Result<
    SearchOutcome,
    SearchError,
>)
    requires
        variance_input(h@, h@.len()),
    ensures
        precondition_error(h@, k as int) matches Some(e) ==> r == Err::<SearchOutcome, SearchError>(e),
        r matches Err(e) ==> precondition_error(h@, k as int) == Some(e) || e == SearchError::ResourceExhausted,
        r == Err::<SearchOutcome, SearchError>(SearchError::ResourceExhausted) ==> exists|chain: Seq<Seq<usize>>|
            ascending_valid(chain, k as nat, h@.len()) && #[trigger] chain.len() > max_candidates && chain.len() > 1,
        r matches Ok(o) ==> {
            &&& exists|chain: Seq<Seq<usize>>|
                ascending_valid(chain, k as nat, h@.len()) && covers_valid(chain, k as nat, h@.len())
                    && #[trigger] chain.len() == o.iterations
            &&& o.iterations <= max_candidates || o.iterations == 1
            &&& valid_thresholds(o.thresholds@, k as nat, h@.len())
            &&& o.score == variance_score(h@, o.thresholds@, h@.len())
            &&& forall|w: Seq<usize>|
                valid_thresholds(w, k as nat, h@.len()) ==> #[trigger] variance_score(h@, w, h@.len()) <= o.score
            &&& forall|w: Seq<usize>|
                valid_thresholds(w, k as nat, h@.len()) && lex_less(w, o.thresholds@) ==> #[trigger] variance_score(
                    h@,
                    w,
                    h@.len(),
                ) < o.score
        },
{
    match validate_inputs(h, k) {
        Err(e) => {
            return Err(e);
        },
        Ok(()) => {},
    }
    let levels = h.len();
    let f = |t: &Vec<usize>| -> (r: u128)
        requires
            variance_input(h@, levels as nat),
            valid_thresholds(t@, k as nat, levels as nat),
        ensures
            r == variance_score(h@, t@, levels as nat),
        { calculate_between_class_variance(h, t, levels) };
    proof {
        assert(scores_all(f, k as nat, levels as nat));
        assert(deterministic(f));
    }
    let res = exhaustive_search(&f, k, levels, max_candidates);
    match res {
        Err(e) => Err(e),
        Ok(o) => {
            proof {
                let v = choose|v: &Vec<usize>| v@ == o.thresholds@ && #[trigger] f.ensures((v,), o.score);
                assert(f.ensures((v,), o.score));
                assert forall|w: Seq<usize>| valid_thresholds(w, k as nat, h@.len()) implies #[trigger] variance_score(
                    h@,
                    w,
                    h@.len(),
                ) <= o.score && (lex_less(w, o.thresholds@) ==> variance_score(h@, w, h@.len()) < o.score) by {
                    assert(has_score(f, w));
                    let s = choose|s: u128| #[trigger] scored(f, w, s);
                    let vw = choose|v: &Vec<usize>| v@ == w && #[trigger] f.ensures((v,), s);
                    assert(f.ensures((vw,), s));
                    assert(valid_scored(f, w, s, k as nat, levels as nat));
                }
            }
            Ok(o)
        },
    }
}

proof fn lemma_variance_scored<F: Fn(&Vec<usize>) -> u128>(f: F, h: Seq<u64>, k: nat, t: Seq<usize>, s: u128)
    requires
        scored(f, t, s),
        forall|v: &Vec<usize>, r: u128| #[trigger] f.ensures((v,), r) ==> r == variance_score(h, v@, h.len()),
    ensures
        s == variance_score(h, t, h.len()),
{
    let v = choose|v: &Vec<usize>| v@ == t && #[trigger] f.ensures((v,), s);
    assert(f.ensures((v,), s));
}

/// Simulated annealing on the Otsu objective over histogram `h`, from evenly
/// spaced cuts, with the generator seeded by `seed`. `accept` is the Metropolis
/// test (see `simulated_annealing`).
pub fn compute_otsu_thresholds_simulated_annealing<A: Fn(u128, u128, usize, u64) -> bool>(
    h: &Vec<u64>,
    k: usize,
    seed: u64,
    schedule: AnnealingSchedule,
    accept: &A,
) -> (r: Result<SearchOutcome, SearchError>)
    requires
        variance_input(h@, h@.len()),
        forall|c: u128, d: u128, n: usize, u: u64| #[trigger] accept.requires((c, d, n, u)),
    ensures
        precondition_error(h@, k as int) matches Some(e) ==> r == Err::<SearchOutcome, SearchError>(e),
        precondition_error(h@, k as int) is None ==> r is Ok,
        r matches Ok(o) ==> {
            &&& valid_thresholds(o.thresholds@, k as nat, h@.len())
            &&& o.score == variance_score(h@, o.thresholds@, h@.len())
            &&& o.score >= variance_score(h@, evenly_spaced_cuts(k as nat, h@.len()), h@.len())
            &&& o.iterations <= schedule.max_iterations
            &&& o.iterations <= schedule.cooling_steps
            &&& (o.iterations == schedule.max_iterations || o.iterations == schedule.cooling_steps || o.iterations
                >= schedule.max_stall)
        },
{
    match validate_inputs(h, k) {
        Err(e) => {
            return Err(e);
        },
        Ok(()) => {},
    }
    let levels = h.len();
    let f = |t: &Vec<usize>| -> (r: u128)
        requires
            variance_input(h@, levels as nat),
            valid_thresholds(t@, k as nat, levels as nat),
        ensures
            r == variance_score(h@, t@, levels as nat),
        { calculate_between_class_variance(h, t, levels) };
    let o = simulated_annealing(&f, accept, k, levels, seed, schedule);
    proof {
        lemma_variance_scored(f, h@, k as nat, o.thresholds@, o.score);
        let e = evenly_spaced_cuts(k as nat, levels as nat);
        let s0 = choose|s0: u128| #[trigger] scored(f, e, s0);
        lemma_variance_scored(f, h@, k as nat, e, s0);
        assert(deterministic(f));
    }
    Ok(o)
}

/// Variable neighbourhood search on the Otsu objective over histogram `h`, from
/// evenly spaced cuts, with the generator seeded by `seed`.
pub fn compute_otsu_thresholds_variable_neighborhood(
    h: &Vec<u64>,
    k: usize,
    seed: u64,
    schedule: NeighborhoodSchedule,
) -> (r: Result<SearchOutcome, SearchError>)
    requires
        variance_input(h@, h@.len()),
    ensures
        precondition_error(h@, k as int) matches Some(e) ==> r == Err::<SearchOutcome, SearchError>(e),
        precondition_error(h@, k as int) is None ==> r is Ok,
        r matches Ok(o) ==> {
            &&& valid_thresholds(o.thresholds@, k as nat, h@.len())
            &&& o.score == variance_score(h@, o.thresholds@, h@.len())
            &&& o.score >= variance_score(h@, evenly_spaced_cuts(k as nat, h@.len()), h@.len())
            &&& o.iterations <= schedule.max_iterations
            &&& (o.iterations == schedule.max_iterations || o.iterations >= schedule.max_stall)
        },
{
    match validate_inputs(h, k) {
        Err(e) => {
            return Err(e);
        },
        Ok(()) => {},
    }
    let levels = h.len();
    let f = |t: &Vec<usize>| -> (r: u128)
        requires
            variance_input(h@, levels as nat),
            valid_thresholds(t@, k as nat, levels as nat),
        ensures
            r == variance_score(h@, t@, levels as nat),
        { calculate_between_class_variance(h, t, levels) };
    proof {
        assert(deterministic(f));
    }
    let o = variable_neighborhood_search(&f, k, levels, seed, schedule);
    proof {
        lemma_variance_scored(f, h@, k as nat, o.thresholds@, o.score);
        let e = evenly_spaced_cuts(k as nat, levels as nat);
        let s0 = choose|s0: u128| #[trigger] scored(f, e, s0);
        lemma_variance_scored(f, h@, k as nat, e, s0);
        assert(deterministic(f));
    }
    Ok(o)
}

} // verus!
