use vstd::prelude::*;

verus! {

/// The largest number of intensity levels the library works with.
pub const MAX_LEVELS: usize = 65536;

pub open spec fn strictly_increasing(t: Seq<usize>) -> bool {
    forall|i: int, j: int| 0 <= i < j < t.len() ==> #[trigger] t[i] < #[trigger] t[j]
}

pub open spec fn within_levels(t: Seq<usize>, levels: nat) -> bool {
    forall|i: int| 0 <= i < t.len() ==> 1 <= #[trigger] t[i] < levels
}

/// A threshold vector for `k` classes over `levels` intensities: `k - 1` cut
/// points, strictly increasing, each in `[1, levels - 1]`.
pub open spec fn valid_thresholds(t: Seq<usize>, k: nat, levels: nat) -> bool {
    t.len() + 1 == k && strictly_increasing(t) && within_levels(t, levels)
}

/// Lower boundary of class `j`: 0 for the first class, else the `j`-th cut.
pub open spec fn class_lower(t: Seq<usize>, j: int) -> int {
    if j <= 0 {
        0
    } else {
        t[j - 1] as int
    }
}

/// Upper (exclusive) boundary of class `j`: the next cut, or `levels` for the last class.
pub open spec fn class_upper(t: Seq<usize>, levels: nat, j: int) -> int {
    if j < t.len() {
        t[j] as int
    } else {
        levels as int
    }
}

pub proof fn lemma_adjacent_chain(t: Seq<usize>, i: int, j: int)
    requires
        forall|n: int| 0 <= n < t.len() - 1 ==> #[trigger] t[n] < t[n + 1],
        0 <= i < j < t.len(),
    ensures
        t[i] < t[j],
    decreases j - i,
{
    if j > i + 1 {
        lemma_adjacent_chain(t, i, j - 1);
        assert(t[j - 1] < t[j]);
    }
}

/// Strict order between neighbours gives strict order between all pairs.
pub proof fn lemma_adjacent_increasing(t: Seq<usize>)
    requires
        forall|n: int| 0 <= n < t.len() - 1 ==> #[trigger] t[n] < t[n + 1],
    ensures
        strictly_increasing(t),
{
    assert forall|i: int, j: int| 0 <= i < j < t.len() implies #[trigger] t[i] < #[trigger] t[j] by {
        lemma_adjacent_chain(t, i, j);
    }
}

proof fn lemma_cut_at_least_index(t: Seq<usize>, i: int)
    requires
        strictly_increasing(t),
        forall|n: int| 0 <= n < t.len() ==> 1 <= #[trigger] t[n],
        0 <= i < t.len(),
    ensures
        t[i] >= i + 1,
    decreases i,
{
    if i > 0 {
        lemma_cut_at_least_index(t, i - 1);
        assert(t[i - 1] < t[i]);
    }
}

/// A valid threshold vector has fewer cuts than there are levels.
pub proof fn lemma_valid_len(t: Seq<usize>, k: nat, levels: nat)
    requires
        valid_thresholds(t, k, levels),
    ensures
        t.len() == 0 || k <= levels,
{
    if t.len() > 0 {
        lemma_cut_at_least_index(t, t.len() - 1);
    }
}

/// The classes that a valid threshold vector defines are `k` non-empty,
/// contiguous ranges `[class_lower(j), class_upper(j))` that start at 0, end at
/// `levels`, lie in order without overlap, and each intensity in `[0, levels)`
/// lies in one of them.
pub proof fn lemma_classes_partition_levels(t: Seq<usize>, k: nat, levels: nat)
    requires
        k >= 2,
        valid_thresholds(t, k, levels),
    ensures
        class_lower(t, 0) == 0,
        class_upper(t, levels, k - 1) == levels,
        forall|j: int| 0 <= j < k - 1 ==> class_upper(t, levels, j) == #[trigger] class_lower(t, j + 1),
        forall|j: int| 0 <= j < k ==> #[trigger] class_lower(t, j) < class_upper(t, levels, j),
        forall|j1: int, j2: int|
            0 <= j1 < j2 < k ==> #[trigger] class_upper(t, levels, j1) <= #[trigger] class_lower(t, j2),
        forall|v: int|
            0 <= v < levels ==> 0 <= #[trigger] class_index(t, v) < k && class_lower(t, class_index(t, v)) <= v
                < class_upper(t, levels, class_index(t, v)),
{
    assert forall|j1: int, j2: int| 0 <= j1 < j2 < k implies class_upper(t, levels, j1) <= class_lower(t, j2) by {
        if j2 - 1 > j1 {
            assert(t[j1] < t[j2 - 1]);
        }
    }
    assert forall|j: int| 0 <= j < k implies #[trigger] class_lower(t, j) < class_upper(t, levels, j) by {
        if 0 < j < k - 1 {
            assert(t[j - 1] < t[j]);
        } else if j < k - 1 {
            assert(1 <= t[j]);
        } else if j > 0 {
            assert(t[j - 1] < levels);
        }
    }
    assert forall|v: int| 0 <= v < levels implies 0 <= #[trigger] class_index(t, v) < k && class_lower(t, class_index(t, v)) <= v
        < class_upper(t, levels, class_index(t, v)) by {
        lemma_class_index(t, levels, v);
    }
}

/// The class of intensity `v`: the number of cuts at or below it.
pub open spec fn class_index(t: Seq<usize>, v: int) -> int
    decreases t.len(),
{
    if t.len() == 0 || v < t[0] {
        0
    } else {
        1 + class_index(t.drop_first(), v)
    }
}

proof fn lemma_class_index(t: Seq<usize>, levels: nat, v: int)
    requires
        strictly_increasing(t),
        within_levels(t, levels),
        0 <= v < levels,
    ensures
        0 <= class_index(t, v) <= t.len(),
        class_lower(t, class_index(t, v)) <= v < class_upper(t, levels, class_index(t, v)),
    decreases t.len(),
{
    if t.len() > 0 && v >= t[0] {
        let s = t.drop_first();
        assert forall|i: int, j: int| 0 <= i < j < s.len() implies #[trigger] s[i] < #[trigger] s[j] by {
            assert(t[i + 1] < t[j + 1]);
        }
        assert forall|i: int| 0 <= i < s.len() implies 1 <= #[trigger] s[i] < levels by {
            assert(1 <= t[i + 1] < levels);
        }
        lemma_class_index(s, levels, v);
    }
}

/// Index of the class that holds intensity `v`: the `r` with
/// `class_lower(r) <= v < class_upper(r)`.
pub fn class_of(t: &Vec<usize>, levels: usize, v: usize) -> (r: usize)
    requires
        valid_thresholds(t@, (t.len() + 1) as nat, levels as nat),
        v < levels,
    ensures
        r <= t.len(),
        class_lower(t@, r as int) <= v < class_upper(t@, levels as nat, r as int),
{
    let mut i: usize = 0;
    while i < t.len() && t[i] <= v
        invariant
            i <= t.len(),
            i > 0 ==> t@[i - 1] <= v,
        decreases t.len() - i,
    {
        i = i + 1;
    }
    i
}

/// Number of cuts strictly below `v`.
pub open spec fn count_below(t: Seq<usize>, v: int) -> nat
    decreases t.len(),
{
    if t.len() == 0 {
        0
    } else {
        count_below(t.drop_last(), v) + if t.last() < v { 1nat } else { 0nat }
    }
}

/// The cuts never decrease (repeats allowed).
pub open spec fn sorted(t: Seq<usize>) -> bool {
    forall|i: int, j: int| 0 <= i < j < t.len() ==> #[trigger] t[i] <= #[trigger] t[j]
}

proof fn lemma_count_below_split(t: Seq<usize>, v: int, r: int)
    requires
        0 <= r <= t.len(),
        forall|j: int| 0 <= j < r ==> #[trigger] t[j] < v,
        forall|j: int| r <= j < t.len() ==> #[trigger] t[j] >= v,
    ensures
        count_below(t, v) == r,
    decreases t.len(),
{
    if t.len() > 0 {
        let p = t.drop_last();
        if r == t.len() {
            assert(t[t.len() - 1] < v);
            lemma_count_below_split(p, v, r - 1);
        } else {
            assert(t[t.len() - 1] >= v);
            lemma_count_below_split(p, v, r);
        }
    }
}

/// Lower end of colouring segment `j`: 0, or one past the `j`-th cut.
pub open spec fn segment_lower(t: Seq<usize>, j: int) -> int {
    if j <= 0 {
        0
    } else {
        t[j - 1] + 1
    }
}

/// Upper (exclusive) end of colouring segment `j`: one past the next cut, or `levels`.
pub open spec fn segment_upper(t: Seq<usize>, levels: nat, j: int) -> int {
    if j < t.len() {
        t[j] + 1
    } else {
        levels as int
    }
}

proof fn lemma_count_below_bounds(t: Seq<usize>, v: int)
    requires
        strictly_increasing(t),
    ensures
        count_below(t, v) <= t.len(),
        count_below(t, v) > 0 ==> t[count_below(t, v) - 1] < v,
        count_below(t, v) < t.len() ==> t[count_below(t, v) as int] >= v,
    decreases t.len(),
{
    if t.len() > 0 {
        let p = t.drop_last();
        assert forall|i: int, j: int| 0 <= i < j < p.len() implies #[trigger] p[i] < #[trigger] p[j] by {
            assert(t[i] < t[j]);
        }
        lemma_count_below_bounds(p, v);
        let c = count_below(p, v) as int;
        if c < p.len() {
            assert(t[c] < t[t.len() - 1]);
        }
    }
}

/// Colouring by the number of cuts strictly below an intensity (so a value equal
/// to a cut goes to the lower class) also splits `[0, levels)` into `k`
/// contiguous, ordered, non-overlapping segments `[segment_lower(j),
/// segment_upper(j))`, each intensity lying in segment `count_below(t, v)`.
/// All `k` are non-empty when the last cut is below `levels - 1`; a cut at
/// `levels - 1` leaves the last segment empty.
pub proof fn lemma_segments_partition_levels(t: Seq<usize>, k: nat, levels: nat)
    requires
        k >= 2,
        valid_thresholds(t, k, levels),
    ensures
        segment_lower(t, 0) == 0,
        segment_upper(t, levels, k - 1) == levels,
        forall|j: int| 0 <= j < k - 1 ==> segment_upper(t, levels, j) == #[trigger] segment_lower(t, j + 1),
        forall|j: int| 0 <= j < k - 1 ==> #[trigger] segment_lower(t, j) < segment_upper(t, levels, j),
        t[k - 2] < levels - 1 ==> segment_lower(t, k - 1) < segment_upper(t, levels, k - 1),
        forall|j1: int, j2: int|
            0 <= j1 < j2 < k ==> #[trigger] segment_upper(t, levels, j1) <= #[trigger] segment_lower(t, j2),
        forall|v: int|
            0 <= v < levels ==> #[trigger] count_below(t, v) < k && segment_lower(t, count_below(t, v) as int) <= v
                < segment_upper(t, levels, count_below(t, v) as int),
{
    assert forall|j1: int, j2: int| 0 <= j1 < j2 < k implies #[trigger] segment_upper(t, levels, j1) <= #[trigger] segment_lower(t, j2) by {
        if j2 - 1 > j1 {
            assert(t[j1] < t[j2 - 1]);
        }
    }
    assert forall|j: int| 0 <= j < k - 1 implies #[trigger] segment_lower(t, j) < segment_upper(t, levels, j) by {
        if j > 0 {
            assert(t[j - 1] < t[j]);
        }
    }
    assert forall|v: int| 0 <= v < levels implies #[trigger] count_below(t, v) < k && segment_lower(t, count_below(t, v) as int) <= v
        < segment_upper(t, levels, count_below(t, v) as int) by {
        lemma_count_below_bounds(t, v);
    }
}

/// Index used when colouring a pixel: the number of cuts strictly below `v`,
/// so that a pixel equal to a cut goes to the lower class.
pub fn segment_of(t: &Vec<usize>, v: usize) -> (r: usize)
    requires
        sorted(t@),
    ensures
        r == count_below(t@, v as int),
        r <= t.len(),
        forall|j: int| 0 <= j < r ==> t@[j] < v,
        r < t.len() ==> v <= t@[r as int],
{
    let mut i: usize = 0;
    while i < t.len() && t[i] < v
        invariant
            i <= t.len(),
            forall|j: int| 0 <= j < i ==> t@[j] < v,
        decreases t.len() - i,
    {
        i = i + 1;
    }
    proof {
        assert forall|j: int| i <= j < t@.len() implies #[trigger] t@[j] >= v by {
            assert(t@[i as int] <= t@[j]);
        }
        lemma_count_below_split(t@, v as int, i as int);
    }
    i
}

} // verus!
