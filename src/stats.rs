use vstd::prelude::*;

use crate::thresholds::{class_lower, class_upper, valid_thresholds, MAX_LEVELS};

verus! {

/// Largest total pixel count that the variance objective accepts.
pub const MAX_PIXELS: u64 = 0x1_0000_0000;

/// Fixed-point scale of the variance score.
pub const VARIANCE_SCALE: u128 = 65536;

/// Number of pixels with intensity in `[a, b)`.
pub open spec fn range_count(h: Seq<u64>, a: int, b: int) -> int
    decreases b - a,
{
    if b <= a {
        0
    } else {
        range_count(h, a, b - 1) + h[b - 1]
    }
}

/// Sum of `i * h[i]` over intensities `i` in `[a, b)`.
pub open spec fn range_moment(h: Seq<u64>, a: int, b: int) -> int
    decreases b - a,
{
    if b <= a {
        0
    } else {
        range_moment(h, a, b - 1) + (b - 1) * h[b - 1]
    }
}

/// Contribution of a class with `c` pixels and moment `s`: `s² / c` in fixed
/// point, and 0 for an empty class.
pub open spec fn class_term(c: int, s: int) -> int {
    if c > 0 {
        s * s * VARIANCE_SCALE / c
    } else {
        0
    }
}

/// Sum of the class terms of the first `j` classes.
pub open spec fn variance_sum(h: Seq<u64>, t: Seq<usize>, levels: nat, j: int) -> int
    decreases j,
{
    if j <= 0 {
        0
    } else {
        variance_sum(h, t, levels, j - 1) + class_term(
            range_count(h, class_lower(t, j - 1), class_upper(t, levels, j - 1)),
            range_moment(h, class_lower(t, j - 1), class_upper(t, levels, j - 1)),
        )
    }
}

/// Otsu score of a threshold vector over a histogram of counts.
///
/// With `N` pixels, total moment `S` and classes of `c_j` pixels and moment
/// `s_j`, the between-class variance is `(Σ s_j² / c_j − S² / N) / N`. `N` and
/// `S` do not depend on the cuts, so the score is `Σ s_j² / c_j`, each term
/// taken in fixed point (`VARIANCE_SCALE`) and rounded down; empty classes add 0.
pub open spec fn variance_score(h: Seq<u64>, t: Seq<usize>, levels: nat) -> int {
    variance_sum(h, t, levels, (t.len() + 1) as int)
}

/// The inputs on which the variance objective is defined: one count per level,
/// and a total that keeps the fixed-point arithmetic in range.
pub open spec fn variance_input(h: Seq<u64>, levels: nat) -> bool {
    &&& h.len() == levels
    &&& 2 <= levels <= MAX_LEVELS
    &&& range_count(h, 0, levels as int) <= MAX_PIXELS
}

proof fn lemma_range_split(h: Seq<u64>, a: int, m: int, b: int)
    requires
        a <= m <= b,
    ensures
        range_count(h, a, b) == range_count(h, a, m) + range_count(h, m, b),
    decreases b - m,
{
    if b > m {
        lemma_range_split(h, a, m, b - 1);
    }
}

proof fn lemma_range_count_nonneg(h: Seq<u64>, a: int, b: int)
    ensures
        range_count(h, a, b) >= 0,
    decreases b - a,
{
    if b > a {
        lemma_range_count_nonneg(h, a, b - 1);
    }
}

proof fn lemma_moment_bound(h: Seq<u64>, a: int, b: int)
    requires
        0 <= a,
    ensures
        0 <= range_moment(h, a, b) <= (if b > 0 { b - 1 } else { 0 }) * range_count(h, a, b),
    decreases b - a,
{
    if b > a {
        lemma_moment_bound(h, a, b - 1);
        lemma_range_count_nonneg(h, a, b - 1);
        let c0 = range_count(h, a, b - 1);
        let m0 = range_moment(h, a, b - 1);
        let hb = h[b - 1] as int;
        assert(m0 <= (b - 1) * c0) by (nonlinear_arith)
            requires
                m0 <= (if b - 1 > 0 { b - 2 } else { 0 }) * c0,
                c0 >= 0,
                b >= 1,
        ;
        assert(m0 + (b - 1) * hb <= (b - 1) * (c0 + hb)) by (nonlinear_arith)
            requires
                m0 <= (b - 1) * c0,
        ;
        assert((b - 1) * hb >= 0) by (nonlinear_arith)
            requires
                b >= 1,
                hb >= 0,
        ;
    }
}

proof fn lemma_class_term_bound(c: int, s: int, levels: int)
    requires
        0 <= c,
        0 <= s <= levels * c,
        levels >= 0,
    ensures
        0 <= class_term(c, s) <= levels * levels * VARIANCE_SCALE * c,
{
    if c > 0 {
        assert(s * s <= levels * levels * c * c) by (nonlinear_arith)
            requires
                0 <= s <= levels * c,
        ;
        assert(s * s * VARIANCE_SCALE <= (levels * levels * VARIANCE_SCALE * c) * c) by (nonlinear_arith)
            requires
                s * s <= levels * levels * c * c,
        ;
        assert(s * s * VARIANCE_SCALE / c <= levels * levels * VARIANCE_SCALE * c) by (nonlinear_arith)
            requires
                s * s * VARIANCE_SCALE <= (levels * levels * VARIANCE_SCALE * c) * c,
                c > 0,
        ;
        assert(s * s * VARIANCE_SCALE / c >= 0) by (nonlinear_arith)
            requires
                c > 0,
        ;
    }
}

/// Otsu objective: between-class variance score of `t` over the histogram `h`
/// (see `variance_score`).
pub fn calculate_between_class_variance(h: &Vec<u64>, t: &Vec<usize>, levels: usize) -> (r: u128)
    requires
        variance_input(h@, levels as nat),
        valid_thresholds(t@, (t.len() + 1) as nat, levels as nat),
    ensures
        r == variance_score(h@, t@, levels as nat),
{
    proof {
        crate::thresholds::lemma_valid_len(t@, (t.len() + 1) as nat, levels as nat);
    }
    let ghost total = range_count(h@, 0, levels as int);
    let ghost lv = levels as int;
    let mut sum: u128 = 0;
    let mut start: usize = 0;
    let mut j: usize = 0;
    while j <= t.len()
        invariant
            variance_input(h@, levels as nat),
            valid_thresholds(t@, (t.len() + 1) as nat, levels as nat),
            total == range_count(h@, 0, levels as int),
            lv == levels,
            j <= t.len() + 1,
            t.len() < levels,
            j <= t.len() ==> start == class_lower(t@, j as int),
            j <= t.len() ==> start < class_upper(t@, levels as nat, j as int),
            start <= levels,
            sum == variance_sum(h@, t@, levels as nat, j as int),
            0 <= sum <= lv * lv * VARIANCE_SCALE * range_count(h@, 0, start as int),
        decreases t.len() + 1 - j,
    {
        let end: usize = if j < t.len() {
            t[j]
        } else {
            levels
        };
        proof {
            if j > 0 && j < t.len() {
                assert(t@[j - 1] < t@[j as int]);
            }
            if j > 0 && j == t.len() {
                assert(t@[j - 1] < levels);
            }
            lemma_range_split(h@, 0, start as int, end as int);
            lemma_range_split(h@, 0, end as int, levels as int);
            lemma_range_count_nonneg(h@, end as int, levels as int);
            lemma_range_count_nonneg(h@, 0, start as int);
        }
        let mut c: u64 = 0;
        let mut s: u128 = 0;
        let mut i: usize = start;
        while i < end
            invariant
                variance_input(h@, levels as nat),
                total == range_count(h@, 0, levels as int),
                start <= i <= end <= levels,
                range_count(h@, 0, end as int) <= total,
                range_count(h@, 0, end as int) == range_count(h@, 0, start as int) + range_count(h@, start as int, end as int),
                c == range_count(h@, start as int, i as int),
                s == range_moment(h@, start as int, i as int),
            decreases end - i,
        {
            proof {
                lemma_range_split(h@, start as int, i + 1, end as int);
                lemma_range_count_nonneg(h@, i + 1, end as int);
                lemma_range_count_nonneg(h@, 0, start as int);
                lemma_moment_bound(h@, start as int, i as int);
                lemma_range_count_nonneg(h@, start as int, i as int);
                assert(s <= (i as int) * (c as int) <= (MAX_LEVELS as int) * (MAX_PIXELS as int)) by (nonlinear_arith)
                    requires
                        s <= (if i > 0 { i - 1 } else { 0 }) * c,
                        c >= 0,
                        i <= MAX_LEVELS,
                        c <= MAX_PIXELS,
                ;
                assert((i as int) * (h@[i as int] as int) <= (MAX_LEVELS as int) * (MAX_PIXELS as int)) by (nonlinear_arith)
                    requires
                        i <= MAX_LEVELS,
                        h@[i as int] <= MAX_PIXELS,
                ;
            }
            c = c + h[i];
            s = s + (i as u128) * (h[i] as u128);
            i = i + 1;
        }
        proof {
            lemma_moment_bound(h@, start as int, end as int);
            lemma_range_count_nonneg(h@, start as int, end as int);
            assert(s <= lv * c) by (nonlinear_arith)
                requires
                    s <= (if end > 0 { end - 1 } else { 0 }) * c,
                    end <= lv,
                    c >= 0,
            ;
            lemma_class_term_bound(c as int, s as int, lv);
            assert(lv * lv * VARIANCE_SCALE * range_count(h@, 0, start as int) + lv * lv * VARIANCE_SCALE * c
                == lv * lv * VARIANCE_SCALE * range_count(h@, 0, end as int)) by (nonlinear_arith)
                requires
                    range_count(h@, 0, end as int) == range_count(h@, 0, start as int) + c,
            ;
            assert(lv * lv * VARIANCE_SCALE * range_count(h@, 0, end as int)
                <= (MAX_LEVELS as int) * (MAX_LEVELS as int) * VARIANCE_SCALE * (MAX_PIXELS as int)) by (nonlinear_arith)
                requires
                    0 <= lv <= MAX_LEVELS,
                    0 <= range_count(h@, 0, end as int) <= MAX_PIXELS,
            ;
            assert(s * s <= (MAX_LEVELS as int) * (MAX_PIXELS as int) * ((MAX_LEVELS as int) * (MAX_PIXELS as int))) by (nonlinear_arith)
                requires
                    0 <= s <= lv * c,
                    lv <= MAX_LEVELS,
                    c <= MAX_PIXELS,
                    c >= 0,
            ;
            assert(s * s * VARIANCE_SCALE <= (MAX_LEVELS as int) * (MAX_PIXELS as int) * ((MAX_LEVELS as int) * (MAX_PIXELS as int)) * VARIANCE_SCALE) by (nonlinear_arith)
                requires
                    s * s <= (MAX_LEVELS as int) * (MAX_PIXELS as int) * ((MAX_LEVELS as int) * (MAX_PIXELS as int)),
            ;
        }
        if c > 0 {
            sum = sum + s * s * VARIANCE_SCALE / (c as u128);
        }
        start = end;
        j = j + 1;
    }
    sum
}

proof fn lemma_variance_sum_bounds(h: Seq<u64>, t: Seq<usize>, levels: nat, j: int)
    requires
        variance_input(h, levels),
        valid_thresholds(t, (t.len() + 1) as nat, levels),
        0 <= j <= t.len() + 1,
    ensures
        0 <= variance_sum(h, t, levels, j) <= levels * levels * VARIANCE_SCALE * range_count(
            h,
            0,
            if j == 0 { 0 } else { class_upper(t, levels, j - 1) },
        ),
    decreases j,
{
    if j > 0 {
        lemma_variance_sum_bounds(h, t, levels, j - 1);
        let a = class_lower(t, j - 1);
        let b = class_upper(t, levels, j - 1);
        let prev = if j - 1 == 0 { 0 } else { class_upper(t, levels, j - 2) };
        assert(prev == a);
        if j - 1 > 0 && j - 1 < t.len() {
            assert(t[j - 2] < t[j - 1]);
        }
        if j - 1 > 0 && j - 1 == t.len() {
            assert(t[j - 2] < levels);
        }
        if j - 1 == 0 && t.len() > 0 {
            assert(1 <= t[0]);
        }
        assert(0 <= a <= b <= levels);
        lemma_range_split(h, 0, a, b);
        lemma_range_count_nonneg(h, a, b);
        lemma_range_count_nonneg(h, 0, a);
        lemma_moment_bound(h, a, b);
        let c = range_count(h, a, b);
        let s = range_moment(h, a, b);
        let lv = levels as int;
        let bm = if b > 0 { b - 1 } else { 0 };
        assert(s <= bm * c);
        assert(bm * c <= lv * c) by (nonlinear_arith)
            requires
                0 <= bm <= lv,
                c >= 0,
        ;
        lemma_class_term_bound(c, s, lv);
        assert(lv * lv * VARIANCE_SCALE * range_count(h, 0, a) + lv * lv * VARIANCE_SCALE * c == lv * lv * VARIANCE_SCALE
            * range_count(h, 0, b)) by (nonlinear_arith)
            requires
                range_count(h, 0, b) == range_count(h, 0, a) + c,
        ;
    }
}

/// The variance score of any valid threshold vector is non-negative and at
/// most `levels² · VARIANCE_SCALE · N` for `N` pixels: it is always a finite,
/// non-negative number.
pub proof fn lemma_variance_score_bounds(h: Seq<u64>, t: Seq<usize>, levels: nat)
    requires
        variance_input(h, levels),
        valid_thresholds(t, (t.len() + 1) as nat, levels),
    ensures
        0 <= variance_score(h, t, levels) <= levels * levels * VARIANCE_SCALE * range_count(h, 0, levels as int),
{
    lemma_variance_sum_bounds(h, t, levels, (t.len() + 1) as int);
}

proof fn lemma_mass_has_support(h: Seq<u64>, a: int, b: int)
    requires
        range_count(h, a, b) > 0,
    ensures
        exists|i: int| a <= i < b && #[trigger] h[i] > 0,
    decreases b - a,
{
    if b > a && h[b - 1] == 0 {
        lemma_mass_has_support(h, a, b - 1);
        let i = choose|i: int| a <= i < b - 1 && #[trigger] h[i] > 0;
        assert(h[i] > 0);
    } else if b > a {
        assert(h[b - 1] > 0);
    }
}

/// A class that holds pixels contains an intensity with a non-zero count.
/// Since the classes do not overlap, at most as many classes hold pixels as
/// the histogram has non-zero levels: a distribution on three intensities
/// leaves at least `k - 3` classes empty, and `class_term` scores those 0.
pub proof fn lemma_nonempty_class_has_support(h: Seq<u64>, t: Seq<usize>, levels: nat, j: int)
    requires
        variance_input(h, levels),
        valid_thresholds(t, (t.len() + 1) as nat, levels),
        0 <= j <= t.len(),
        range_count(h, class_lower(t, j), class_upper(t, levels, j)) > 0,
    ensures
        exists|i: int| class_lower(t, j) <= i < class_upper(t, levels, j) && #[trigger] h[i] > 0,
{
    lemma_mass_has_support(h, class_lower(t, j), class_upper(t, levels, j));
}

} // verus!
