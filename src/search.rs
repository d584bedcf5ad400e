use vstd::prelude::*;

use rand::rngs::StdRng;

use crate::moves::{
    copy_thresholds, evenly_spaced, evenly_spaced_cuts, replace_threshold, shift_threshold, shifted_value, step_fits, step_threshold, stepped_value,
};
use crate::rng::{draw_below, draw_u64, seeded_rng};
use crate::enumerate::{
    first_combination, is_combination, lemma_first_is_least, lemma_last_is_greatest, lemma_lex_asymmetric,
    lemma_lex_total, lemma_lex_transitive, lemma_rank_bound, lemma_rank_lex, lex_less, next_combination, power, rank,
};
use crate::error::SearchError;
use crate::thresholds::{valid_thresholds, MAX_LEVELS};

verus! {

/// Number of shaking neighbourhoods of the variable neighbourhood search.
pub const NEIGHBORHOODS: usize = 4;

/// Cap on the rounds of one local search.
pub const MAX_LOCAL_ROUNDS: usize = 100;

/// `f` scored a vector with view `t` as `s`.
pub open spec fn scored<F: Fn(&Vec<usize>) -> u128>(f: F, t: Seq<usize>, s: u128) -> bool {
    exists|v: &Vec<usize>| v@ == t && #[trigger] f.ensures((v,), s)
}

/// `f` can score every valid vector of `k - 1` cuts over `levels` intensities.
pub open spec fn scores_all<F: Fn(&Vec<usize>) -> u128>(f: F, k: nat, levels: nat) -> bool {
    forall|v: &Vec<usize>| valid_thresholds(v@, k, levels) ==> #[trigger] f.requires((v,))
}

/// `f` gives one score per threshold vector.
pub open spec fn deterministic<F: Fn(&Vec<usize>) -> u128>(f: F) -> bool {
    forall|a: &Vec<usize>, b: &Vec<usize>, x: u128, y: u128|
        a@ == b@ && #[trigger] f.ensures((a,), x) && #[trigger] f.ensures((b,), y) ==> x == y
}

/// Best vector found by a search, with its score and the iterations it ran.
pub struct SearchOutcome {
    pub thresholds: Vec<usize>,
    pub score: u128,
    pub iterations: usize,
}

/// Limits of a simulated-annealing run. The temperature starts at `T0` and is
/// multiplied by a cooling factor each iteration; `cooling_steps` is the number
/// of iterations after which it has fallen below the floor.
#[derive(Clone, Copy, Debug, PartialEq, Eq, Structural)]
pub struct AnnealingSchedule {
    pub max_iterations: usize,
    pub cooling_steps: usize,
    pub max_stall: usize,
}

/// Limits of a variable neighbourhood search run.
#[derive(Clone, Copy, Debug, PartialEq, Eq, Structural)]
pub struct NeighborhoodSchedule {
    pub max_iterations: usize,
    pub max_stall: usize,
}

/// Running state of a simulated-annealing search.
pub struct AnnealingState {
    pub current: Vec<usize>,
    pub current_score: u128,
    pub best: Vec<usize>,
    pub best_score: u128,
    pub stall: usize,
}

/// Running state of a variable neighbourhood search.
pub struct NeighborhoodState {
    pub current: Vec<usize>,
    pub current_score: u128,
    pub best: Vec<usize>,
    pub best_score: u128,
    pub neighborhood: usize,
    pub stall: usize,
}

/// Whether simulated annealing takes a candidate: always when it scores at least
/// the current vector, otherwise when the Metropolis draw accepted it.
pub open spec fn annealing_accepts(current_score: u128, candidate_score: u128, accept_worse: bool) -> bool {
    candidate_score >= current_score || accept_worse
}

/// One acceptance decision of simulated annealing. A taken candidate becomes
/// the current vector; one that beats the best-ever score also becomes the
/// best and resets the stall counter. Every other outcome counts as a stall.
pub fn annealing_step(state: &mut AnnealingState, candidate: Vec<usize>, candidate_score: u128, accept_worse: bool)
    requires
        old(state).stall < usize::MAX,
    ensures
        annealing_accepts(old(state).current_score, candidate_score, accept_worse) ==> final(state).current@
            == candidate@ && final(state).current_score == candidate_score,
        !annealing_accepts(old(state).current_score, candidate_score, accept_worse) ==> final(state).current@
            == old(state).current@ && final(state).current_score == old(state).current_score,
        annealing_accepts(old(state).current_score, candidate_score, accept_worse) && candidate_score
            > old(state).best_score ==> final(state).best@ == candidate@ && final(state).best_score
            == candidate_score && final(state).stall == 0,
        !(annealing_accepts(old(state).current_score, candidate_score, accept_worse) && candidate_score
            > old(state).best_score) ==> final(state).best@ == old(state).best@ && final(state).best_score
            == old(state).best_score && final(state).stall == old(state).stall + 1,
        final(state).best_score >= old(state).best_score,
{
    if candidate_score >= state.current_score || accept_worse {
        if candidate_score > state.best_score {
            state.current = copy_thresholds(&candidate);
            state.current_score = candidate_score;
            state.best = candidate;
            state.best_score = candidate_score;
            state.stall = 0;
        } else {
            state.current = candidate;
            state.current_score = candidate_score;
            state.stall = state.stall + 1;
        }
    } else {
        state.stall = state.stall + 1;
    }
}

/// The neighbourhood that follows `n`, wrapping back to 1 after the last.
pub open spec fn next_neighborhood(n: usize) -> usize {
    if n >= NEIGHBORHOODS {
        1
    } else {
        (n + 1) as usize
    }
}

/// Move decision of the variable neighbourhood search: a local optimum that
/// beats the current score is adopted, the neighbourhood goes back to 1 and the
/// stall counter to 0, and the best-ever vector follows where it is beaten too.
/// Otherwise the neighbourhood moves on and the stall counter grows.
pub fn neighborhood_step(state: &mut NeighborhoodState, candidate: Vec<usize>, candidate_score: u128)
    requires
        old(state).stall < usize::MAX,
        1 <= old(state).neighborhood <= NEIGHBORHOODS,
    ensures
        1 <= final(state).neighborhood <= NEIGHBORHOODS,
        candidate_score > old(state).current_score ==> {
            &&& final(state).current@ == candidate@
            &&& final(state).current_score == candidate_score
            &&& final(state).neighborhood == 1
            &&& final(state).stall == 0
        },
        candidate_score > old(state).current_score && candidate_score > old(state).best_score ==> final(state).best@
            == candidate@ && final(state).best_score == candidate_score,
        !(candidate_score > old(state).current_score && candidate_score > old(state).best_score) ==> final(state).best@
            == old(state).best@ && final(state).best_score == old(state).best_score,
        candidate_score <= old(state).current_score ==> {
            &&& final(state).current@ == old(state).current@
            &&& final(state).current_score == old(state).current_score
            &&& final(state).neighborhood == next_neighborhood(old(state).neighborhood)
            &&& final(state).stall == old(state).stall + 1
        },
        final(state).best_score >= old(state).best_score,
{
    if candidate_score > state.current_score {
        if candidate_score > state.best_score {
            state.current = copy_thresholds(&candidate);
            state.best = candidate;
            state.best_score = candidate_score;
        } else {
            state.current = candidate;
        }
        state.current_score = candidate_score;
        state.neighborhood = 1;
        state.stall = 0;
    } else {
        state.neighborhood = if state.neighborhood >= NEIGHBORHOODS {
            1
        } else {
            state.neighborhood + 1
        };
        state.stall = state.stall + 1;
    }
}

/// The perturbation of shaking in neighbourhood `n`, given its random draws:
/// cut `i`, a direction `up` and a level `v`.
/// 1 and 2 shift cut `i` by 1 and by 3; 3 swaps two cuts and sorts again, which
/// gives back the same vector; 4 replaces cut `i` by `v` and sorts.
pub fn shake_with(t: &Vec<usize>, n: usize, i: usize, up: bool, v: usize, levels: usize) -> (r: Vec<usize>)
    requires
        valid_thresholds(t@, (t.len() + 1) as nat, levels as nat),
        2 <= levels <= MAX_LEVELS,
        i < t.len(),
        1 <= v < levels,
    ensures
        valid_thresholds(r@, (t.len() + 1) as nat, levels as nat),
        n == 1 ==> r@ == t@.update(i as int, shifted_value(t@, i as int, up, 1, levels as nat) as usize),
        n == 2 ==> r@ == t@.update(i as int, shifted_value(t@, i as int, up, 3, levels as nat) as usize),
        n == 4 && !(exists|j: int| 0 <= j < t.len() && j != i && t@[j] == v) ==> {
            &&& r@.contains(v)
            &&& forall|j: int| 0 <= j < t.len() && j != i ==> r@.contains(#[trigger] t@[j])
        },
        n != 1 && n != 2 && !(n == 4 && !(exists|j: int| 0 <= j < t.len() && j != i && t@[j] == v)) ==> r@
            == t@,
{
    if n == 1 {
        shift_threshold(t, i, up, 1, levels)
    } else if n == 2 {
        shift_threshold(t, i, up, 3, levels)
    } else if n == 4 {
        replace_threshold(t, i, v, levels)
    } else {
        copy_thresholds(t)
    }
}

/// `r` is `t` with cut `i` replaced by `v` and the order restored, or `t` itself
/// where `v` would duplicate another cut.
pub open spec fn replaced_by(t: Seq<usize>, r: Seq<usize>, i: int, v: usize, levels: nat) -> bool {
    &&& 0 <= i < t.len()
    &&& 1 <= v < levels
    &&& (r == t || (r.contains(v) && forall|j: int| 0 <= j < t.len() && j != i ==> r.contains(#[trigger] t[j])))
}

/// Shaking in neighbourhood `n`: draws what `shake_with` needs and applies it.
fn shaking(rng: &mut StdRng, t: &Vec<usize>, n: usize, levels: usize) -> (r: Vec<usize>)
    requires
        valid_thresholds(t@, (t.len() + 1) as nat, levels as nat),
        2 <= levels <= MAX_LEVELS,
        t.len() >= 1,
    ensures
        valid_thresholds(r@, (t.len() + 1) as nat, levels as nat),
        n == 1 ==> exists|i: int, up: bool|
            0 <= i < t.len() && r@ == t@.update(i, #[trigger] shifted_value(t@, i, up, 1, levels as nat) as usize),
        n == 2 ==> exists|i: int, up: bool|
            0 <= i < t.len() && r@ == t@.update(i, #[trigger] shifted_value(t@, i, up, 3, levels as nat) as usize),
        n == 4 ==> exists|i: int, v: usize| #[trigger] replaced_by(t@, r@, i, v, levels as nat),
        n != 1 && n != 2 && n != 4 ==> r@ == t@,
{
    let i = draw_below(rng, t.len());
    let mut up = false;
    let mut v: usize = 1;
    if n == 1 || n == 2 {
        up = draw_below(rng, 2) == 1;
    } else if n == 3 {
        if t.len() >= 2 {
            let _j = draw_below(rng, t.len());
        }
    } else if n == 4 {
        v = 1 + draw_below(rng, levels - 1);
    }
    let r = shake_with(t, n, i, up, v, levels);
    proof {
        if n == 1 {
            assert(r@ == t@.update(i as int, shifted_value(t@, i as int, up, 1, levels as nat) as usize));
        } else if n == 2 {
            assert(r@ == t@.update(i as int, shifted_value(t@, i as int, up, 3, levels as nat) as usize));
        } else if n == 4 {
            assert(replaced_by(t@, r@, i as int, v, levels as nat));
        }
    }
    r
}

/// No unit step that keeps the cuts ordered scores above `s`.
pub open spec fn local_optimum<F: Fn(&Vec<usize>) -> u128>(f: F, t: Seq<usize>, s: u128, levels: nat) -> bool {
    forall|i: int, up: bool, x: u128|
        0 <= i < t.len() && step_fits(t, i, up, levels) && #[trigger] scored(
            f,
            t.update(i, stepped_value(t, i, up, levels) as usize),
            x,
        ) ==> x <= s
}

/// Position `(i2, up2)` comes before `(i, up)` in the scan of local search:
/// cuts in order, and on each cut the step down before the step up.
pub open spec fn scan_before(i2: int, up2: bool, i: int, up: bool) -> bool {
    i2 < i || (i2 == i && !up2 && up)
}

/// `b` (scored `sb`) is the unit step of `a` (scored `sa`) at cut `i` in
/// direction `up`, it scores strictly more, and no ordered unit step earlier in
/// the scan scores more than `sa`.
pub open spec fn improvement_at<F: Fn(&Vec<usize>) -> u128>(
    f: F,
    a: Seq<usize>,
    sa: u128,
    b: Seq<usize>,
    sb: u128,
    levels: nat,
    i: int,
    up: bool,
) -> bool {
    &&& 0 <= i < a.len()
    &&& step_fits(a, i, up, levels)
    &&& b == a.update(i, stepped_value(a, i, up, levels) as usize)
    &&& sb > sa
    &&& forall|i2: int, up2: bool, x: u128|
        0 <= i2 < a.len() && scan_before(i2, up2, i, up) && step_fits(a, i2, up2, levels) && #[trigger] scored(
            f,
            a.update(i2, stepped_value(a, i2, up2, levels) as usize),
            x,
        ) ==> x <= sa
}

/// `b` is the first strict improvement of `a` in scan order.
pub open spec fn first_improvement<F: Fn(&Vec<usize>) -> u128>(
    f: F,
    a: Seq<usize>,
    sa: u128,
    b: Seq<usize>,
    sb: u128,
    levels: nat,
) -> bool {
    exists|i: int, up: bool| #[trigger] improvement_at(f, a, sa, b, sb, levels, i, up)
}

/// `path` (with scores `vals`) goes from `start` to `end` in `n` first-improvement steps.
pub open spec fn descent<F: Fn(&Vec<usize>) -> u128>(
    f: F,
    start: Seq<usize>,
    path: Seq<Seq<usize>>,
    vals: Seq<u128>,
    end: Seq<usize>,
    send: u128,
    n: nat,
    levels: nat,
) -> bool {
    &&& path.len() == n + 1
    &&& vals.len() == n + 1
    &&& path[0] == start
    &&& path[n as int] == end
    &&& vals[n as int] == send
    &&& forall|m: int| 0 <= m <= n ==> #[trigger] scored(f, path[m], vals[m])
    &&& forall|m: int| 0 <= m < n ==> #[trigger] first_improvement(f, path[m], vals[m], path[m + 1], vals[m + 1], levels)
}

/// Local descent: scans the cuts in order, tries a unit step down then up on
/// each, takes the first strict improvement and starts the scan again, until a
/// full scan improves nothing or `MAX_LOCAL_ROUNDS` improvements were made.
/// Returns the vector reached, its score and the number of improvements; with
/// fewer improvements than the cap the vector is a local optimum.
pub fn local_search<F: Fn(&Vec<usize>) -> u128>(score: &F, start: Vec<usize>, levels: usize) -> (r: (
    Vec<usize>,
    u128,
    usize,
))
    requires
        valid_thresholds(start@, (start.len() + 1) as nat, levels as nat),
        2 <= levels <= MAX_LEVELS,
        scores_all(*score, (start.len() + 1) as nat, levels as nat),
        deterministic(*score),
    ensures
        valid_thresholds(r.0@, (start.len() + 1) as nat, levels as nat),
        scored(*score, r.0@, r.1),
        r.2 <= MAX_LOCAL_ROUNDS,
        exists|path: Seq<Seq<usize>>, vals: Seq<u128>|
            #[trigger] descent(*score, start@, path, vals, r.0@, r.1, r.2 as nat, levels as nat),
        r.2 < MAX_LOCAL_ROUNDS ==> local_optimum(*score, r.0@, r.1, levels as nat),
        forall|s0: u128| #[trigger] scored(*score, start@, s0) ==> r.1 >= s0,
{
    let ghost k = (start.len() + 1) as nat;
    let ghost lv = levels as nat;
    let mut current_score = score(&start);
    let mut current = start;
    let ghost s_start = current_score;
    assert(scored(*score, current@, current_score));
    let ghost mut path: Seq<Seq<usize>> = seq![current@];
    let ghost mut vals: Seq<u128> = seq![current_score];
    let mut steps: usize = 0;
    let mut improved = true;
    proof {
        assert(descent(*score, start@, path, vals, current@, current_score, 0, lv));
    }
    while improved && steps < MAX_LOCAL_ROUNDS
        invariant
            k == (start@.len() + 1) as nat,
            lv == levels,
            current@.len() == start@.len(),
            valid_thresholds(current@, k, lv),
            2 <= levels <= MAX_LEVELS,
            scores_all(*score, k, lv),
            deterministic(*score),
            scored(*score, current@, current_score),
            scored(*score, start@, s_start),
            current_score >= s_start,
            steps <= MAX_LOCAL_ROUNDS,
            descent(*score, start@, path, vals, current@, current_score, steps as nat, lv),
            !improved ==> local_optimum(*score, current@, current_score, lv),
        decreases MAX_LOCAL_ROUNDS - steps, if improved { 1int } else { 0int },
    {
        improved = false;
        let mut i: usize = 0;
        while i < current.len() && !improved
            invariant
                current@.len() == start@.len(),
                valid_thresholds(current@, k, lv),
                k == (start@.len() + 1) as nat,
                lv == levels,
                2 <= levels <= MAX_LEVELS,
                scores_all(*score, k, lv),
                deterministic(*score),
                scored(*score, current@, current_score),
                scored(*score, start@, s_start),
                current_score >= s_start,
                i <= current.len(),
                steps < MAX_LOCAL_ROUNDS,
                improved ==> descent(*score, start@, path, vals, current@, current_score, (steps + 1) as nat, lv),
                !improved ==> descent(*score, start@, path, vals, current@, current_score, steps as nat, lv),
                !improved ==> forall|i2: int, up: bool, x: u128|
                    0 <= i2 < i && step_fits(current@, i2, up, lv) && #[trigger] scored(
                        *score,
                        current@.update(i2, stepped_value(current@, i2, up, lv) as usize),
                        x,
                    ) ==> x <= current_score,
            decreases current.len() - i,
        {
            let mut d: usize = 0;
            while d < 2 && !improved
                invariant
                    i < current.len(),
                    current@.len() == start@.len(),
                    valid_thresholds(current@, k, lv),
                    k == (start@.len() + 1) as nat,
                    lv == levels,
                    2 <= levels <= MAX_LEVELS,
                    scores_all(*score, k, lv),
                    deterministic(*score),
                    scored(*score, current@, current_score),
                    scored(*score, start@, s_start),
                    current_score >= s_start,
                    d <= 2,
                    steps < MAX_LOCAL_ROUNDS,
                    improved ==> descent(*score, start@, path, vals, current@, current_score, (steps + 1) as nat, lv),
                    !improved ==> descent(*score, start@, path, vals, current@, current_score, steps as nat, lv),
                    !improved ==> forall|i2: int, up: bool, x: u128|
                        0 <= i2 < current@.len() && (i2 < i || (i2 == i && ((!up && d >= 1) || (up && d >= 2))))
                            && step_fits(current@, i2, up, lv) && #[trigger] scored(
                            *score,
                            current@.update(i2, stepped_value(current@, i2, up, lv) as usize),
                            x,
                        ) ==> x <= current_score,
                decreases 2 - d,
            {
                let ghost before = current@;
                let ghost before_score = current_score;
                let up = d == 1;
                match step_threshold(&current, i, up, levels) {
                    Some(cand) => {
                        let cs = score(&cand);
                        assert(scored(*score, cand@, cs));
                        if cs > current_score {
                            proof {
                                assert(improvement_at(*score, before, before_score, cand@, cs, lv, i as int, up));
                                let n = steps as int;
                                let p2 = path.push(cand@);
                                let v2 = vals.push(cs);
                                assert(first_improvement(*score, p2[n], v2[n], p2[n + 1], v2[n + 1], lv));
                                assert forall|m: int| 0 <= m <= n + 1 implies #[trigger] scored(*score, p2[m], v2[m]) by {
                                    if m <= n {
                                        assert(p2[m] == path[m] && v2[m] == vals[m]);
                                    }
                                }
                                assert forall|m: int| 0 <= m < n + 1 implies #[trigger] first_improvement(
                                    *score,
                                    p2[m],
                                    v2[m],
                                    p2[m + 1],
                                    v2[m + 1],
                                    lv,
                                ) by {
                                    if m < n {
                                        assert(p2[m] == path[m] && v2[m] == vals[m]);
                                        assert(p2[m + 1] == path[m + 1] && v2[m + 1] == vals[m + 1]);
                                    }
                                }
                                path = p2;
                                vals = v2;
                            }
                            current = cand;
                            current_score = cs;
                            improved = true;
                        } else {
                            proof {
                                assert forall|x: u128|
                                    #[trigger] scored(
                                        *score,
                                        before.update(i as int, stepped_value(before, i as int, up, lv) as usize),
                                        x,
                                    ) implies x <= current_score by {
                                    lemma_scored_unique(*score, cand@, x, cs);
                                }
                            }
                        }
                    },
                    None => {},
                }
                d = d + 1;
            }
            i = i + 1;
        }
        if improved {
            steps = steps + 1;
        }
    }
    proof {
        assert forall|s0: u128| #[trigger] scored(*score, start@, s0) implies current_score >= s0 by {
            lemma_scored_unique(*score, start@, s0, s_start);
        }
        assert(descent(*score, start@, path, vals, current@, current_score, steps as nat, levels as nat));
    }
    (current, current_score, steps)
}

/// Simulated annealing from evenly spaced cuts (cut `i` at `i * levels / k`).
/// Each iteration draws a cut and a direction, shifts the cut by one (clamped
/// and kept between its neighbours), scores the candidate, and lets
/// `annealing_step` decide. A worse candidate is put to `accept` with the
/// current score, its own score, the iteration and a uniform `u64` draw:
/// the Metropolis test `exp(Δ / T)` at that iteration's temperature. The run
/// stops after `max_iterations`, after `cooling_steps`, or once `max_stall`
/// iterations in a row brought no new best. The best-ever vector is returned.
pub fn simulated_annealing<F, A>(
    score: &F,
    accept: &A,
    k: usize,
    levels: usize,
    seed: u64,
    schedule: AnnealingSchedule,
) -> (r: SearchOutcome) where F: Fn(&Vec<usize>) -> u128, A: Fn(u128, u128, usize, u64) -> bool
    requires
        2 <= k <= levels <= MAX_LEVELS,
        scores_all(*score, k as nat, levels as nat),
        forall|c: u128, d: u128, n: usize, u: u64| #[trigger] accept.requires((c, d, n, u)),
    ensures
        valid_thresholds(r.thresholds@, k as nat, levels as nat),
        scored(*score, r.thresholds@, r.score),
        forall|s0: u128|
            #[trigger] scored(*score, evenly_spaced_cuts(k as nat, levels as nat), s0) && deterministic(*score) ==> r.score
                >= s0,
        has_score(*score, evenly_spaced_cuts(k as nat, levels as nat)),
        r.iterations <= schedule.max_iterations,
        r.iterations <= schedule.cooling_steps,
        r.iterations == schedule.max_iterations || r.iterations == schedule.cooling_steps || r.iterations
            >= schedule.max_stall,
{
    let init = evenly_spaced(k, levels);
    let s0 = score(&init);
    assert(scored(*score, init@, s0));
    assert(scored(*score, evenly_spaced_cuts(k as nat, levels as nat), s0));
    let mut rng = seeded_rng(seed);
    let mut state = AnnealingState {
        current: copy_thresholds(&init),
        current_score: s0,
        best: init,
        best_score: s0,
        stall: 0,
    };
    let limit = if schedule.max_iterations < schedule.cooling_steps {
        schedule.max_iterations
    } else {
        schedule.cooling_steps
    };
    let mut iter: usize = 0;
    while iter < limit && state.stall < schedule.max_stall
        invariant
            2 <= k <= levels <= MAX_LEVELS,
            scores_all(*score, k as nat, levels as nat),
            forall|c: u128, d: u128, n: usize, u: u64| #[trigger] accept.requires((c, d, n, u)),
            valid_thresholds(state.current@, k as nat, levels as nat),
            valid_thresholds(state.best@, k as nat, levels as nat),
            scored(*score, state.current@, state.current_score),
            scored(*score, state.best@, state.best_score),
            state.best_score >= s0,
            iter <= limit,
            limit <= schedule.max_iterations,
            limit <= schedule.cooling_steps,
            state.stall <= schedule.max_stall,
            state.stall <= iter,
        decreases limit - iter,
    {
        let i = draw_below(&mut rng, k - 1);
        let up = draw_below(&mut rng, 2) == 1;
        let cand = shift_threshold(&state.current, i, up, 1, levels);
        let cs = score(&cand);
        assert(scored(*score, cand@, cs));
        let accept_worse = if cs >= state.current_score {
            false
        } else {
            let u = draw_u64(&mut rng);
            accept(state.current_score, cs, iter, u)
        };
        annealing_step(&mut state, cand, cs, accept_worse);
        iter = iter + 1;
    }
    proof {
        assert forall|x: u128|
            #[trigger] scored(*score, evenly_spaced_cuts(k as nat, levels as nat), x) && deterministic(*score) implies state.best_score
                >= x by {
            lemma_scored_unique(*score, evenly_spaced_cuts(k as nat, levels as nat), x, s0);
        }
    }
    SearchOutcome { thresholds: state.best, score: state.best_score, iterations: iter }
}

/// Variable neighbourhood search from evenly spaced cuts. Each iteration shakes
/// the current vector in the current neighbourhood, runs `local_search` from
/// there, and lets `neighborhood_step` decide. The run stops after
/// `max_iterations` or once `max_stall` iterations in a row did not improve the
/// current vector. The best-ever vector is returned.
pub fn variable_neighborhood_search<F: Fn(&Vec<usize>) -> u128>(
    score: &F,
    k: usize,
    levels: usize,
    seed: u64,
    schedule: NeighborhoodSchedule,
) -> (r: SearchOutcome)
    requires
        2 <= k <= levels <= MAX_LEVELS,
        scores_all(*score, k as nat, levels as nat),
        deterministic(*score),
    ensures
        valid_thresholds(r.thresholds@, k as nat, levels as nat),
        scored(*score, r.thresholds@, r.score),
        forall|s0: u128|
            #[trigger] scored(*score, evenly_spaced_cuts(k as nat, levels as nat), s0) && deterministic(*score) ==> r.score
                >= s0,
        has_score(*score, evenly_spaced_cuts(k as nat, levels as nat)),
        r.iterations <= schedule.max_iterations,
        r.iterations == schedule.max_iterations || r.iterations >= schedule.max_stall,
{
    let init = evenly_spaced(k, levels);
    let s0 = score(&init);
    assert(scored(*score, init@, s0));
    assert(scored(*score, evenly_spaced_cuts(k as nat, levels as nat), s0));
    let mut rng = seeded_rng(seed);
    let mut state = NeighborhoodState {
        current: copy_thresholds(&init),
        current_score: s0,
        best: init,
        best_score: s0,
        neighborhood: 1,
        stall: 0,
    };
    let mut iter: usize = 0;
    while iter < schedule.max_iterations && state.stall < schedule.max_stall
        invariant
            2 <= k <= levels <= MAX_LEVELS,
            scores_all(*score, k as nat, levels as nat),
            valid_thresholds(state.current@, k as nat, levels as nat),
            valid_thresholds(state.best@, k as nat, levels as nat),
            scored(*score, state.current@, state.current_score),
            scored(*score, state.best@, state.best_score),
            deterministic(*score),
            1 <= state.neighborhood <= NEIGHBORHOODS,
            state.best_score >= s0,
            iter <= schedule.max_iterations,
            state.stall <= schedule.max_stall,
            state.stall <= iter,
        decreases schedule.max_iterations - iter,
    {
        let shaken = shaking(&mut rng, &state.current, state.neighborhood, levels);
        let (cand, cs, _steps) = local_search(score, shaken, levels);
        neighborhood_step(&mut state, cand, cs);
        iter = iter + 1;
    }
    proof {
        assert forall|x: u128|
            #[trigger] scored(*score, evenly_spaced_cuts(k as nat, levels as nat), x) && deterministic(*score) implies state.best_score
                >= x by {
            lemma_scored_unique(*score, evenly_spaced_cuts(k as nat, levels as nat), x, s0);
        }
    }
    SearchOutcome { thresholds: state.best, score: state.best_score, iterations: iter }
}

/// `chain` holds valid vectors in strictly ascending lexicographic order, so
/// all different.
pub open spec fn ascending_valid(chain: Seq<Seq<usize>>, k: nat, levels: nat) -> bool {
    &&& forall|i: int| 0 <= i < chain.len() ==> valid_thresholds(#[trigger] chain[i], k, levels)
    &&& forall|i: int, j: int| 0 <= i < j < chain.len() ==> lex_less(#[trigger] chain[i], #[trigger] chain[j])
}

/// `chain` holds every valid vector.
pub open spec fn covers_valid(chain: Seq<Seq<usize>>, k: nat, levels: nat) -> bool {
    forall|w: Seq<usize>| valid_thresholds(w, k, levels) ==> #[trigger] chain.contains(w)
}

/// `w` is scored `s` by `f`, and `w` is a valid vector of `k - 1` cuts.
pub open spec fn valid_scored<F: Fn(&Vec<usize>) -> u128>(f: F, w: Seq<usize>, s: u128, k: nat, levels: nat) -> bool {
    valid_thresholds(w, k, levels) && scored(f, w, s)
}

/// `f` scored some vector with view `w`.
pub open spec fn has_score<F: Fn(&Vec<usize>) -> u128>(f: F, w: Seq<usize>) -> bool {
    exists|s: u128| #[trigger] scored(f, w, s)
}

proof fn lemma_chain_extends(chain: Seq<Seq<usize>>, u: Seq<usize>, k: nat, levels: nat)
    requires
        ascending_valid(chain, k, levels),
        chain.len() >= 1,
        lex_less(chain.last(), u),
        valid_thresholds(u, k, levels),
    ensures
        ascending_valid(chain.push(u), k, levels),
{
    let c = chain.push(u);
    assert forall|i: int| 0 <= i < c.len() implies valid_thresholds(#[trigger] c[i], k, levels) by {
        if i < chain.len() {
            assert(c[i] == chain[i]);
        }
    }
    assert forall|i: int, j: int| 0 <= i < j < c.len() implies lex_less(#[trigger] c[i], #[trigger] c[j]) by {
        assert(c[i] == chain[i]);
        if j < chain.len() {
            assert(c[j] == chain[j]);
        } else if i < chain.len() - 1 {
            assert(lex_less(chain[i], chain[chain.len() - 1]));
            lemma_lex_transitive(chain[i], chain.last(), u);
        }
    }
}

proof fn lemma_scored_unique<F: Fn(&Vec<usize>) -> u128>(f: F, a: Seq<usize>, x: u128, y: u128)
    requires
        deterministic(f),
        scored(f, a, x),
        scored(f, a, y),
    ensures
        x == y,
{
    let va = choose|v: &Vec<usize>| v@ == a && #[trigger] f.ensures((v,), x);
    let vb = choose|v: &Vec<usize>| v@ == a && #[trigger] f.ensures((v,), y);
    assert(f.ensures((va,), x));
    assert(f.ensures((vb,), y));
}

/// Whether the exhaustive enumeration of `k - 1` cuts over `levels` intensities
/// stays within `max_candidates` vectors. It walks the lexicographic successors
/// without scoring anything and stops after `max_candidates + 1` of them; where
/// it says no, more than `max_candidates` valid vectors exist.
pub fn enumeration_fits(k: usize, levels: usize, max_candidates: usize) -> (r: bool)
    requires
        2 <= k <= levels <= MAX_LEVELS,
    ensures
        !r ==> exists|chain: Seq<Seq<usize>>|
            ascending_valid(chain, k as nat, levels as nat) && #[trigger] chain.len() > max_candidates && chain.len() > 1,
{
    let ghost m = (k - 1) as nat;
    let mut cur = evenly_spaced(k, levels);
    let mut j: usize = 0;
    while j < k - 1
        invariant
            j <= k - 1,
            cur@.len() == k - 1,
            forall|e: int| 0 <= e < j ==> #[trigger] cur@[e] == 1 + e,
            2 <= k <= levels <= MAX_LEVELS,
        decreases k - 1 - j,
    {
        cur.set(j, j + 1);
        j = j + 1;
    }
    proof {
        assert forall|a: int, b: int| 0 <= a < b < cur@.len() implies #[trigger] cur@[a] < #[trigger] cur@[b] by {}
    }
    let mut count: usize = 1;
    let ghost mut visited: Seq<Seq<usize>> = seq![cur@];
    loop
        invariant
            2 <= k <= levels <= MAX_LEVELS,
            m == k - 1,
            is_combination(cur@, 1, levels - 1, m),
            visited.len() == count,
            count >= 1,
            visited.last() == cur@,
            ascending_valid(visited, k as nat, levels as nat),
        decreases power(levels as int, m) - rank(cur@, levels as int),
    {
        proof {
            lemma_rank_bound(cur@, levels as int);
        }
        match next_combination(&cur, 1, levels - 1) {
            None => {
                return true;
            },
            Some(u) => {
                proof {
                    lemma_rank_lex(cur@, u@, levels as int);
                    lemma_rank_bound(u@, levels as int);
                    lemma_chain_extends(visited, u@, k as nat, levels as nat);
                    visited = visited.push(u@);
                }
                if count >= max_candidates {
                    proof {
                        assert(ascending_valid(visited, k as nat, levels as nat) && visited.len() > max_candidates
                            && visited.len() > 1);
                    }
                    return false;
                }
                cur = u;
                count = count + 1;
            },
        }
    }
}

/// Exhaustive search: scores every valid vector in ascending lexicographic
/// order, one at a time, and keeps the first strict maximum. Nothing is
/// materialised; where `enumeration_fits` finds more than `max_candidates`
/// vectors the search stops with `ResourceExhausted` before scoring any. So it succeeds exactly when there
/// are at most `max(max_candidates, 1)` valid vectors. A result is a global
/// optimum, and every vector before it in lexicographic order scores strictly less.
pub fn exhaustive_search<F: Fn(&Vec<usize>) -> u128>(
    score: &F,
    k: usize,
    levels: usize,
    max_candidates: usize,
) -> (r: Result<SearchOutcome, SearchError>)
    requires
        2 <= k <= levels <= MAX_LEVELS,
        scores_all(*score, k as nat, levels as nat),
        deterministic(*score),
    ensures
        r matches Err(e) ==> e == SearchError::ResourceExhausted,
        r is Err ==> exists|chain: Seq<Seq<usize>>|
            ascending_valid(chain, k as nat, levels as nat) && #[trigger] chain.len() > max_candidates && chain.len() > 1,
        r matches Ok(o) ==> {
            &&& exists|chain: Seq<Seq<usize>>|
                ascending_valid(chain, k as nat, levels as nat) && covers_valid(chain, k as nat, levels as nat)
                    && #[trigger] chain.len() == o.iterations
            &&& o.iterations <= max_candidates || o.iterations == 1
            &&& valid_thresholds(o.thresholds@, k as nat, levels as nat)
            &&& scored(*score, o.thresholds@, o.score)
            &&& forall|w: Seq<usize>| valid_thresholds(w, k as nat, levels as nat) ==> #[trigger] has_score(*score, w)
            &&& forall|w: Seq<usize>, s: u128| #[trigger] valid_scored(*score, w, s, k as nat, levels as nat) ==> s <= o.score
            &&& forall|w: Seq<usize>, s: u128|
                #[trigger] valid_scored(*score, w, s, k as nat, levels as nat) && lex_less(w, o.thresholds@) ==> s < o.score
        },
{
    if !enumeration_fits(k, levels, max_candidates) {
        return Err(SearchError::ResourceExhausted);
    }
    let ghost m = (k - 1) as nat;
    let ghost hi = (levels - 1) as int;
    let mut cur = evenly_spaced(k, levels);
    let mut j: usize = 0;
    while j < k - 1
        invariant
            j <= k - 1,
            cur@.len() == k - 1,
            forall|e: int| 0 <= e < j ==> #[trigger] cur@[e] == 1 + e,
            2 <= k <= levels <= MAX_LEVELS,
        decreases k - 1 - j,
    {
        cur.set(j, j + 1);
        j = j + 1;
    }
    proof {
        assert(cur@ =~= first_combination(1, m));
        assert forall|a: int, b: int| 0 <= a < b < cur@.len() implies #[trigger] cur@[a] < #[trigger] cur@[b] by {}
    }
    let first_score = score(&cur);
    assert(scored(*score, cur@, first_score));
    let mut best = copy_thresholds(&cur);
    let mut best_score = first_score;
    let mut count: usize = 1;
    let ghost mut visited: Seq<Seq<usize>> = seq![cur@];
    proof {
        assert forall|w: Seq<usize>|
            valid_thresholds(w, k as nat, levels as nat) && (w == cur@ || lex_less(w, cur@)) implies #[trigger] visited.contains(w) by {
            lemma_first_is_least(w, 1, hi, m);
            assert(visited[0] == w);
        }
        assert forall|w: Seq<usize>, s: u128|
            #[trigger] valid_scored(*score, w, s, k as nat, levels as nat) && (w == cur@ || lex_less(w, cur@)) implies s <= best_score by {
            lemma_first_is_least(w, 1, hi, m);
            lemma_scored_unique(*score, w, s, first_score);
        }
        assert forall|w: Seq<usize>|
            valid_thresholds(w, k as nat, levels as nat) && (w == cur@ || lex_less(w, cur@)) implies #[trigger] has_score(*score, w) by {
            lemma_first_is_least(w, 1, hi, m);
            assert(scored(*score, w, first_score));
        }
        assert forall|w: Seq<usize>, s: u128|
            #[trigger] valid_scored(*score, w, s, k as nat, levels as nat) && lex_less(w, best@) implies s < best_score by {
            lemma_first_is_least(w, 1, hi, m);
        }
    }
    loop
        invariant
            2 <= k <= levels <= MAX_LEVELS,
            m == k - 1,
            hi == levels - 1,
            scores_all(*score, k as nat, levels as nat),
            deterministic(*score),
            is_combination(cur@, 1, hi, m),
            valid_thresholds(best@, k as nat, levels as nat),
            scored(*score, best@, best_score),
            forall|w: Seq<usize>, s: u128|
                #[trigger] valid_scored(*score, w, s, k as nat, levels as nat) && (w == cur@ || lex_less(w, cur@)) ==> s <= best_score,
            forall|w: Seq<usize>, s: u128|
                #[trigger] valid_scored(*score, w, s, k as nat, levels as nat) && lex_less(w, best@) ==> s < best_score,
            forall|w: Seq<usize>|
                valid_thresholds(w, k as nat, levels as nat) && (w == cur@ || lex_less(w, cur@)) ==> #[trigger] has_score(*score, w),
            visited.len() == count,
            count >= 1,
            count <= max_candidates || count == 1,
            visited.last() == cur@,
            ascending_valid(visited, k as nat, levels as nat),
            forall|w: Seq<usize>|
                valid_thresholds(w, k as nat, levels as nat) && (w == cur@ || lex_less(w, cur@)) ==> #[trigger] visited.contains(w),
        decreases power(levels as int, m) - rank(cur@, levels as int),
    {
        proof {
            lemma_rank_bound(cur@, levels as int);
        }
        match next_combination(&cur, 1, levels - 1) {
            None => {
                proof {
                    assert forall|w: Seq<usize>, s: u128| #[trigger] valid_scored(*score, w, s, k as nat, levels as nat) implies s <= best_score by {
                        lemma_last_is_greatest(w, cur@, 1, hi, m);
                    }
                    assert forall|w: Seq<usize>| valid_thresholds(w, k as nat, levels as nat) implies #[trigger] has_score(*score, w) by {
                        lemma_last_is_greatest(w, cur@, 1, hi, m);
                    }
                    assert forall|w: Seq<usize>| valid_thresholds(w, k as nat, levels as nat) implies #[trigger] visited.contains(w) by {
                        lemma_last_is_greatest(w, cur@, 1, hi, m);
                    }
                    assert(covers_valid(visited, k as nat, levels as nat));
                }
                return Ok(SearchOutcome { thresholds: best, score: best_score, iterations: count });
            },
            Some(u) => {
                proof {
                    lemma_chain_extends(visited, u@, k as nat, levels as nat);
                }
                if count >= max_candidates {
                    proof {
                        assert(ascending_valid(visited.push(u@), k as nat, levels as nat));
                        assert(visited.push(u@).len() > max_candidates);
                    }
                    return Err(SearchError::ResourceExhausted);
                }
                let su = score(&u);
                assert(scored(*score, u@, su));
                proof {
                    lemma_rank_lex(cur@, u@, levels as int);
                    lemma_rank_bound(u@, levels as int);
                }
                let ghost old_best = best_score;
                let ghost old_cur = cur@;
                if su > best_score {
                    best = copy_thresholds(&u);
                    best_score = su;
                }
                proof {
                    assert forall|w: Seq<usize>, s: u128|
                        #[trigger] valid_scored(*score, w, s, k as nat, levels as nat) && (w == u@ || lex_less(w, u@)) implies s <= best_score by {
                        if w == u@ {
                            lemma_scored_unique(*score, w, s, su);
                        } else {
                            lemma_lex_total(w, old_cur);
                            lemma_lex_asymmetric(w, u@);
                            if lex_less(old_cur, w) {
                                assert(w == u@ || lex_less(u@, w));
                            }
                        }
                    }
                    assert forall|w: Seq<usize>|
                        valid_thresholds(w, k as nat, levels as nat) && (w == u@ || lex_less(w, u@)) implies #[trigger] has_score(*score, w) by {
                        if w == u@ {
                            assert(scored(*score, w, su));
                        } else {
                            lemma_lex_total(w, old_cur);
                            lemma_lex_asymmetric(w, u@);
                            if lex_less(old_cur, w) {
                                assert(w == u@ || lex_less(u@, w));
                            }
                        }
                    }
                    if su > old_best {
                        assert forall|w: Seq<usize>, s: u128|
                            #[trigger] valid_scored(*score, w, s, k as nat, levels as nat) && lex_less(w, best@) implies s < best_score by {
                            lemma_lex_total(w, old_cur);
                            lemma_lex_asymmetric(w, u@);
                            if lex_less(old_cur, w) {
                                assert(w == u@ || lex_less(u@, w));
                            }
                        }
                    }
                }
                proof {
                    assert forall|w: Seq<usize>|
                        valid_thresholds(w, k as nat, levels as nat) && (w == u@ || lex_less(w, u@)) implies #[trigger] visited.push(
                        u@,
                    ).contains(w) by {
                        if w == u@ {
                            assert(visited.push(u@)[visited.len() as int] == w);
                        } else {
                            lemma_lex_total(w, old_cur);
                            lemma_lex_asymmetric(w, u@);
                            if lex_less(old_cur, w) {
                                assert(w == u@ || lex_less(u@, w));
                            }
                            assert(visited.contains(w));
                            let n = choose|n: int| 0 <= n < visited.len() && visited[n] == w;
                            assert(visited.push(u@)[n] == w);
                        }
                    }
                    visited = visited.push(u@);
                }
                cur = u;
                count = count + 1;
            },
        }
    }
}

/// Search strategy of `compute_thresholds`.
#[derive(Clone, Copy, Debug, PartialEq, Eq, Structural)]
pub enum Method {
    Exhaustive,
    SimulatedAnnealing,
    VariableNeighborhood,
}

/// Limits of every strategy, so that one call can select any of them.
#[derive(Clone, Copy, Debug, PartialEq, Eq, Structural)]
pub struct SearchLimits {
    pub max_candidates: usize,
    pub annealing: AnnealingSchedule,
    pub neighborhood: NeighborhoodSchedule,
}

/// Searches `k - 1` cuts over `levels` intensities with the chosen strategy and
/// the objective `score`. `accept` is only used by simulated annealing, and
/// `seed` only by the two stochastic strategies.
pub fn compute_thresholds<F, A>(
    score: &F,
    accept: &A,
    k: usize,
    levels: usize,
    method: Method,
    seed: u64,
    limits: SearchLimits,
) -> (r: Result<SearchOutcome, SearchError>) where
    F: Fn(&Vec<usize>) -> u128,
    A: Fn(u128, u128, usize, u64) -> bool,

    requires
        2 <= levels <= MAX_LEVELS,
        scores_all(*score, k as nat, levels as nat),
        deterministic(*score),
        forall|c: u128, d: u128, n: usize, u: u64| #[trigger] accept.requires((c, d, n, u)),
    ensures
        (k < 2 || k > levels) ==> r == Err::<SearchOutcome, SearchError>(SearchError::InvalidParameter),
        !(k < 2 || k > levels) && method != Method::Exhaustive ==> r is Ok,
        r matches Err(e) ==> e == SearchError::InvalidParameter || (method == Method::Exhaustive && e
            == SearchError::ResourceExhausted),
        r matches Ok(o) ==> {
            &&& valid_thresholds(o.thresholds@, k as nat, levels as nat)
            &&& scored(*score, o.thresholds@, o.score)
        },
        method != Method::Exhaustive ==> (r matches Ok(o) ==> {
            &&& has_score(*score, evenly_spaced_cuts(k as nat, levels as nat))
            &&& forall|s0: u128|
                #[trigger] scored(*score, evenly_spaced_cuts(k as nat, levels as nat), s0) ==> o.score >= s0
        }),
        method == Method::SimulatedAnnealing ==> (r matches Ok(o) ==> {
            &&& o.iterations <= limits.annealing.max_iterations
            &&& o.iterations <= limits.annealing.cooling_steps
            &&& (o.iterations == limits.annealing.max_iterations || o.iterations == limits.annealing.cooling_steps
                || o.iterations >= limits.annealing.max_stall)
        }),
        method == Method::VariableNeighborhood ==> (r matches Ok(o) ==> {
            &&& o.iterations <= limits.neighborhood.max_iterations
            &&& (o.iterations == limits.neighborhood.max_iterations || o.iterations >= limits.neighborhood.max_stall)
        }),
        method == Method::Exhaustive && r == Err::<SearchOutcome, SearchError>(SearchError::ResourceExhausted) ==> exists|
            chain: Seq<Seq<usize>>,
        | ascending_valid(chain, k as nat, levels as nat) && #[trigger] chain.len() > limits.max_candidates && chain.len()
            > 1,
        method == Method::Exhaustive ==> (r matches Ok(o) ==> {
            &&& exists|chain: Seq<Seq<usize>>|
                ascending_valid(chain, k as nat, levels as nat) && covers_valid(chain, k as nat, levels as nat)
                    && #[trigger] chain.len() == o.iterations
            &&& o.iterations <= limits.max_candidates || o.iterations == 1
            &&& forall|w: Seq<usize>| valid_thresholds(w, k as nat, levels as nat) ==> #[trigger] has_score(*score, w)
            &&& forall|w: Seq<usize>, s: u128| #[trigger] valid_scored(*score, w, s, k as nat, levels as nat) ==> s <= o.score
            &&& forall|w: Seq<usize>, s: u128|
                #[trigger] valid_scored(*score, w, s, k as nat, levels as nat) && lex_less(w, o.thresholds@) ==> s < o.score
        }),
{
    if k < 2 || k > levels {
        return Err(SearchError::InvalidParameter);
    }
    match method {
        Method::Exhaustive => exhaustive_search(score, k, levels, limits.max_candidates),
        Method::SimulatedAnnealing => Ok(simulated_annealing(score, accept, k, levels, seed, limits.annealing)),
        Method::VariableNeighborhood => Ok(variable_neighborhood_search(score, k, levels, seed, limits.neighborhood)),
    }
}

} // verus!
