use vstd::prelude::*;

use crate::thresholds::{valid_thresholds, MAX_LEVELS};

verus! {

/// `x` brought into `[1, levels - 1]`.
pub open spec fn clamp_level(x: int, levels: nat) -> int {
    if x < 1 {
        1
    } else if x > levels - 1 {
        levels - 1
    } else {
        x
    }
}

/// Value of cut `i` after a shift by `step` up or down: first clamped to
/// `[1, levels - 1]`, then pushed to one past the lower neighbour and to one
/// below the upper neighbour where it would reach them.
pub open spec fn shifted_value(t: Seq<usize>, i: int, up: bool, step: nat, levels: nat) -> int {
    let v0 = clamp_level(if up { t[i] + step } else { t[i] - step }, levels);
    let v1 = if i > 0 && v0 <= t[i - 1] { t[i - 1] + 1 } else { v0 };
    if i + 1 < t.len() && v1 >= t[i + 1] { t[i + 1] - 1 } else { v1 }
}

/// Value of cut `i` after a unit step of local search, clamped to `[1, levels - 1]`.
pub open spec fn stepped_value(t: Seq<usize>, i: int, up: bool, levels: nat) -> int {
    clamp_level(if up { t[i] + 1 } else { t[i] - 1 }, levels)
}

/// Whether a unit step of cut `i` keeps it strictly between its neighbours.
pub open spec fn step_fits(t: Seq<usize>, i: int, up: bool, levels: nat) -> bool {
    let v = stepped_value(t, i, up, levels);
    !(i > 0 && v <= t[i - 1]) && !(i + 1 < t.len() && v >= t[i + 1])
}

proof fn lemma_update_valid(t: Seq<usize>, i: int, v: usize, levels: nat)
    requires
        valid_thresholds(t, t.len() + 1, levels),
        0 <= i < t.len(),
        1 <= v < levels,
        i > 0 ==> t[i - 1] < v,
        i + 1 < t.len() ==> v < t[i + 1],
    ensures
        valid_thresholds(t.update(i, v), t.len() + 1, levels),
{
    let r = t.update(i, v);
    assert forall|a: int, b: int| 0 <= a < b < r.len() implies #[trigger] r[a] < #[trigger] r[b] by {
        if a == i {
            if b > i + 1 {
                assert(t[i + 1] < t[b]);
            }
        } else if b == i {
            if a < i - 1 {
                assert(t[a] < t[i - 1]);
            }
        } else {
            assert(t[a] < t[b]);
        }
    }
}

/// Copy of a threshold vector.
pub fn copy_thresholds(t: &Vec<usize>) -> (r: Vec<usize>)
    ensures
        r@ == t@,
{
    let mut r: Vec<usize> = Vec::new();
    let mut j: usize = 0;
    while j < t.len()
        invariant
            j <= t.len(),
            r@ == t@.subrange(0, j as int),
        decreases t.len() - j,
    {
        r.push(t[j]);
        j = j + 1;
        assert(r@ =~= t@.subrange(0, j as int));
    }
    assert(r@ =~= t@);
    r
}

/// Shifts cut `i` by `step` up or down, clamped to the level range and kept
/// strictly between its neighbours.
pub fn shift_threshold(t: &Vec<usize>, i: usize, up: bool, step: usize, levels: usize) -> (r: Vec<usize>)
    requires
        valid_thresholds(t@, (t.len() + 1) as nat, levels as nat),
        i < t.len(),
        levels <= MAX_LEVELS,
        step <= MAX_LEVELS,
    ensures
        r@ == t@.update(i as int, shifted_value(t@, i as int, up, step as nat, levels as nat) as usize),
        valid_thresholds(r@, (t.len() + 1) as nat, levels as nat),
{
    let cur = t[i];
    let mut v: usize = if up {
        if cur + step > levels - 1 {
            levels - 1
        } else {
            cur + step
        }
    } else {
        if cur <= step {
            1
        } else {
            cur - step
        }
    };
    if i > 0 && v <= t[i - 1] {
        v = t[i - 1] + 1;
    }
    if i + 1 < t.len() && v >= t[i + 1] {
        v = t[i + 1] - 1;
    }
    proof {
        if i > 0 {
            assert(t@[i - 1] < t@[i as int]);
        }
        if i + 1 < t.len() {
            assert(t@[i as int] < t@[i + 1]);
        }
        lemma_update_valid(t@, i as int, v, levels as nat);
    }
    let mut r = copy_thresholds(t);
    r.set(i, v);
    r
}

/// A unit step of cut `i` for local search; `None` where the stepped value
/// would reach a neighbour.
pub fn step_threshold(t: &Vec<usize>, i: usize, up: bool, levels: usize) -> (r: Option<Vec<usize>>)
    requires
        valid_thresholds(t@, (t.len() + 1) as nat, levels as nat),
        i < t.len(),
        levels <= MAX_LEVELS,
    ensures
        r is Some <==> step_fits(t@, i as int, up, levels as nat),
        r matches Some(c) ==> c@ == t@.update(i as int, stepped_value(t@, i as int, up, levels as nat) as usize)
            && valid_thresholds(c@, (t.len() + 1) as nat, levels as nat),
{
    let cur = t[i];
    let v: usize = if up {
        if cur + 1 > levels - 1 {
            levels - 1
        } else {
            cur + 1
        }
    } else {
        if cur <= 1 {
            1
        } else {
            cur - 1
        }
    };
    if i > 0 && v <= t[i - 1] {
        return None;
    }
    if i + 1 < t.len() && v >= t[i + 1] {
        return None;
    }
    proof {
        lemma_update_valid(t@, i as int, v, levels as nat);
    }
    let mut r = copy_thresholds(t);
    r.set(i, v);
    Some(r)
}

/// Replaces cut `i` by `v` and restores ascending order. Where `v` equals
/// another cut the vector is returned unchanged, so that cuts stay distinct.
pub fn replace_threshold(t: &Vec<usize>, i: usize, v: usize, levels: usize) -> (r: Vec<usize>)
    requires
        valid_thresholds(t@, (t.len() + 1) as nat, levels as nat),
        i < t.len(),
        1 <= v < levels,
    ensures
        valid_thresholds(r@, (t.len() + 1) as nat, levels as nat),
        (exists|j: int| 0 <= j < t.len() && j != i && t@[j] == v) ==> r@ == t@,
        !(exists|j: int| 0 <= j < t.len() && j != i && t@[j] == v) ==> {
            &&& r@.contains(v)
            &&& forall|j: int| 0 <= j < t.len() && j != i ==> r@.contains(#[trigger] t@[j])
        },
{
    let n = t.len();
    let mut j: usize = 0;
    while j < n
        invariant
            n == t.len(),
            j <= n,
            valid_thresholds(t@, (t.len() + 1) as nat, levels as nat),
            forall|m: int| 0 <= m < j && m != i ==> t@[m] != v,
        decreases n - j,
    {
        if j != i && t[j] == v {
            return copy_thresholds(t);
        }
        j = j + 1;
    }
    let mut s = copy_thresholds(t);
    s.remove(i);
    proof {
        assert forall|a: int, b: int| 0 <= a < b < s@.len() implies #[trigger] s@[a] < #[trigger] s@[b] by {
            let ta = if a < i { a } else { a + 1 };
            let tb = if b < i { b } else { b + 1 };
            assert(s@[a] == t@[ta]);
            assert(s@[b] == t@[tb]);
        }
        assert forall|m: int| 0 <= m < s@.len() implies #[trigger] s@[m] != v && 1 <= s@[m] < levels by {
            let tm = if m < i { m } else { m + 1 };
            assert(s@[m] == t@[tm]);
        }
    }
    let mut p: usize = 0;
    while p < s.len() && s[p] < v
        invariant
            p <= s.len(),
            forall|m: int| 0 <= m < p ==> s@[m] < v,
        decreases s.len() - p,
    {
        p = p + 1;
    }
    let ghost s0 = s@;
    s.insert(p, v);
    proof {
        assert(s@ =~= s0.insert(p as int, v));
        assert forall|a: int, b: int| 0 <= a < b < s@.len() implies #[trigger] s@[a] < #[trigger] s@[b] by {
            if b < p {
                assert(s0[a] < s0[b]);
            } else if b == p {
                assert(s0[a] < v);
            } else if a < p {
                assert(s0[a] < v);
                assert(v <= s0[p as int]);
                if b - 1 > p {
                    assert(s0[p as int] < s0[b - 1]);
                }
            } else if a == p {
                assert(v <= s0[p as int]);
                assert(s0[p as int] != v);
                if b - 1 > p {
                    assert(s0[p as int] < s0[b - 1]);
                }
            } else {
                assert(s0[a - 1] < s0[b - 1]);
            }
        }
        assert forall|m: int| 0 <= m < s@.len() implies 1 <= #[trigger] s@[m] < levels by {
            if m < p {
                assert(s@[m] == s0[m]);
            } else if m > p {
                assert(s@[m] == s0[m - 1]);
            }
        }
        assert(s@[p as int] == v);
        assert forall|m: int| 0 <= m < t.len() && m != i implies s@.contains(#[trigger] t@[m]) by {
            let sm = if m < i { m } else { m - 1 };
            assert(s0[sm] == t@[m]);
            if sm < p {
                assert(s@[sm] == t@[m]);
            } else {
                assert(s@[sm + 1] == t@[m]);
            }
        }
    }
    s
}

/// Evenly spaced starting cuts: cut `i` (from 1) is `i * levels / k`.
pub open spec fn evenly_spaced_value(i: int, k: nat, levels: nat) -> int {
    i * levels / (k as int)
}

/// The evenly spaced starting vector for `k` classes.
pub open spec fn evenly_spaced_cuts(k: nat, levels: nat) -> Seq<usize> {
    Seq::new((k - 1) as nat, |j: int| evenly_spaced_value(j + 1, k, levels) as usize)
}

pub fn evenly_spaced(k: usize, levels: usize) -> (r: Vec<usize>)
    requires
        2 <= k <= levels <= MAX_LEVELS,
    ensures
        valid_thresholds(r@, k as nat, levels as nat),
        r@ == evenly_spaced_cuts(k as nat, levels as nat),
        forall|j: int| 0 <= j < r@.len() ==> #[trigger] r@[j] == evenly_spaced_value(j + 1, k as nat, levels as nat),
{
    let mut r: Vec<usize> = Vec::new();
    let mut i: usize = 1;
    while i < k
        invariant
            1 <= i <= k,
            2 <= k <= levels <= MAX_LEVELS,
            r@.len() == i - 1,
            forall|j: int| 0 <= j < r@.len() ==> #[trigger] r@[j] == evenly_spaced_value(j + 1, k as nat, levels as nat),
        decreases k - i,
    {
        proof {
            assert(i * levels <= k * MAX_LEVELS) by (nonlinear_arith)
                requires
                    i <= k,
                    levels <= MAX_LEVELS,
            ;
            assert(k * MAX_LEVELS <= MAX_LEVELS * MAX_LEVELS) by (nonlinear_arith)
                requires
                    k <= MAX_LEVELS,
            ;
        }
        r.push(i * levels / k);
        i = i + 1;
    }
    proof {
        let t = r@;
        assert forall|n: int| 0 <= n < t.len() - 1 implies #[trigger] t[n] < t[n + 1] by {
            let a = (n + 1) * levels;
            assert((n + 2) * levels == (n + 1) * levels + levels) by (nonlinear_arith);
            assert(a / (k as int) + 1 <= (a + levels) / (k as int)) by (nonlinear_arith)
                requires
                    a >= 0,
                    levels >= k,
                    k > 0,
            ;
        }
        crate::thresholds::lemma_adjacent_increasing(t);
        assert forall|j: int| 0 <= j < t.len() implies #[trigger] t[j] == evenly_spaced_cuts(k as nat, levels as nat)[j] by {
            assert(t[j] == evenly_spaced_value(j + 1, k as nat, levels as nat));
            assert(0 <= evenly_spaced_value(j + 1, k as nat, levels as nat) <= usize::MAX) by {
                assert((j + 1) * levels >= 0) by (nonlinear_arith)
                    requires
                        j >= 0,
                        levels >= 0,
                ;
            }
        }
        assert(t =~= evenly_spaced_cuts(k as nat, levels as nat));
        assert forall|n: int| 0 <= n < t.len() implies 1 <= #[trigger] t[n] < levels by {
            assert((n + 1) * levels >= levels) by (nonlinear_arith)
                requires
                    n >= 0,
                    levels >= 0,
            ;
            assert((n + 1) * levels / (k as int) >= 1) by (nonlinear_arith)
                requires
                    (n + 1) * levels >= levels,
                    levels >= k,
                    k > 0,
            ;
            assert((n + 1) * levels < k * levels) by (nonlinear_arith)
                requires
                    n + 1 < k,
                    levels > 0,
            ;
            assert((n + 1) * levels / (k as int) < levels) by (nonlinear_arith)
                requires
                    (n + 1) * levels < k * levels,
                    k > 0,
            ;
        }
    }
    r
}

} // verus!
