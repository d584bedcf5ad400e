use vstd::prelude::*;

verus! {

/// `t` is a strictly increasing sequence of `m` values in `[lo, hi]`.
pub open spec fn is_combination(t: Seq<usize>, lo: int, hi: int, m: nat) -> bool {
    &&& t.len() == m
    &&& forall|i: int, j: int| 0 <= i < j < t.len() ==> #[trigger] t[i] < #[trigger] t[j]
    &&& forall|i: int| 0 <= i < t.len() ==> lo <= #[trigger] t[i] <= hi
}

/// `a` and `b` agree before position `d` and `a` is smaller at `d`.
pub open spec fn lex_less_at(a: Seq<usize>, b: Seq<usize>, d: int) -> bool {
    &&& 0 <= d < a.len()
    &&& d < b.len()
    &&& a[d] < b[d]
    &&& forall|e: int| 0 <= e < d ==> a[e] == b[e]
}

/// `a` comes strictly before `b` in lexicographic order.
pub open spec fn lex_less(a: Seq<usize>, b: Seq<usize>) -> bool {
    a.len() == b.len() && exists|d: int| #[trigger] lex_less_at(a, b, d)
}

/// The first combination: `lo, lo + 1, ..., lo + m - 1`.
pub open spec fn first_combination(lo: int, m: nat) -> Seq<usize> {
    Seq::new(m, |i: int| (lo + i) as usize)
}

/// The last combination: `hi - m + 1, ..., hi`.
pub open spec fn is_last_combination(t: Seq<usize>, hi: int) -> bool {
    forall|i: int| 0 <= i < t.len() ==> #[trigger] t[i] == hi - (t.len() - 1 - i)
}

/// `t` read as the digits of a number in base `base`, most significant first.
pub open spec fn rank(t: Seq<usize>, base: int) -> int
    decreases t.len(),
{
    if t.len() == 0 {
        0
    } else {
        rank(t.drop_last(), base) * base + t.last()
    }
}

/// `base` to the power `n`.
pub open spec fn power(base: int, n: nat) -> int
    decreases n,
{
    if n == 0 {
        1
    } else {
        power(base, (n - 1) as nat) * base
    }
}

pub proof fn lemma_rank_bound(t: Seq<usize>, base: int)
    requires
        base >= 1,
        forall|i: int| 0 <= i < t.len() ==> #[trigger] t[i] < base,
    ensures
        0 <= rank(t, base) < power(base, t.len()),
    decreases t.len(),
{
    if t.len() > 0 {
        let p = t.drop_last();
        assert forall|i: int| 0 <= i < p.len() implies #[trigger] p[i] < base by {
            assert(p[i] == t[i]);
        }
        lemma_rank_bound(p, base);
        let rp = rank(p, base);
        let pw = power(base, p.len());
        let l = t.last() as int;
        assert(rp * base + l < pw * base) by (nonlinear_arith)
            requires
                0 <= rp < pw,
                0 <= l < base,
        ;
        assert(rp * base + l >= 0) by (nonlinear_arith)
            requires
                0 <= rp,
                0 <= l,
                base >= 1,
        ;
    }
}

/// Lexicographic order agrees with the order of ranks.
pub proof fn lemma_rank_lex(a: Seq<usize>, b: Seq<usize>, base: int)
    requires
        base >= 1,
        lex_less(a, b),
        forall|i: int| 0 <= i < a.len() ==> #[trigger] a[i] < base,
        forall|i: int| 0 <= i < b.len() ==> #[trigger] b[i] < base,
    ensures
        rank(a, base) < rank(b, base),
    decreases a.len(),
{
    let d = choose|d: int| #[trigger] lex_less_at(a, b, d);
    let pa = a.drop_last();
    let pb = b.drop_last();
    if d == a.len() - 1 {
        assert(pa =~= pb);
    } else {
        assert(lex_less_at(pa, pb, d));
        assert forall|i: int| 0 <= i < pa.len() implies #[trigger] pa[i] < base by {
            assert(pa[i] == a[i]);
        }
        assert forall|i: int| 0 <= i < pb.len() implies #[trigger] pb[i] < base by {
            assert(pb[i] == b[i]);
        }
        lemma_rank_lex(pa, pb, base);
        lemma_rank_bound(pa, base);
        let ra = rank(pa, base);
        let rb = rank(pb, base);
        let la = a.last() as int;
        let lb = b.last() as int;
        assert(ra * base + la < rb * base + lb) by (nonlinear_arith)
            requires
                ra < rb,
                0 <= la < base,
                0 <= lb,
        ;
    }
}

proof fn lemma_combination_gap(t: Seq<usize>, lo: int, hi: int, m: nat, i: int, j: int)
    requires
        is_combination(t, lo, hi, m),
        0 <= i <= j < m,
    ensures
        t[j] >= t[i] + (j - i),
    decreases j - i,
{
    if j > i {
        lemma_combination_gap(t, lo, hi, m, i, j - 1);
        assert(t[j - 1] < t[j]);
    }
}

proof fn lemma_combination_bounds(t: Seq<usize>, lo: int, hi: int, m: nat, i: int, j: int)
    requires
        is_combination(t, lo, hi, m),
        0 <= i <= j < m,
    ensures
        t[j] >= t[i] + (j - i),
        t[i] >= lo + i,
        t[i] <= hi - (m - 1 - i),
{
    lemma_combination_gap(t, lo, hi, m, i, j);
    lemma_combination_gap(t, lo, hi, m, 0, i);
    lemma_combination_gap(t, lo, hi, m, i, m - 1);
}

proof fn lemma_first_difference(a: Seq<usize>, b: Seq<usize>, n: int) -> (d: int)
    requires
        a.len() == b.len(),
        0 <= n <= a.len(),
        forall|e: int| 0 <= e < n ==> a[e] == b[e],
        a != b,
    ensures
        n <= d < a.len(),
        a[d] != b[d],
        forall|e: int| 0 <= e < d ==> a[e] == b[e],
    decreases a.len() - n,
{
    if n == a.len() {
        assert(a =~= b);
        n
    } else if a[n] != b[n] {
        n
    } else {
        lemma_first_difference(a, b, n + 1)
    }
}

/// Two different sequences of one length are ordered one way or the other.
pub proof fn lemma_lex_total(a: Seq<usize>, b: Seq<usize>)
    requires
        a.len() == b.len(),
    ensures
        a == b || lex_less(a, b) || lex_less(b, a),
{
    if a != b {
        let d = lemma_first_difference(a, b, 0);
        if a[d] < b[d] {
            assert(lex_less_at(a, b, d));
        } else {
            assert(lex_less_at(b, a, d));
        }
    }
}

/// Lexicographic order is irreflexive and asymmetric.
pub proof fn lemma_lex_asymmetric(a: Seq<usize>, b: Seq<usize>)
    ensures
        !(lex_less(a, b) && lex_less(b, a)),
        !lex_less(a, a),
{
    if lex_less(a, b) && lex_less(b, a) {
        let d1 = choose|d: int| #[trigger] lex_less_at(a, b, d);
        let d2 = choose|d: int| #[trigger] lex_less_at(b, a, d);
        if d1 < d2 {
            assert(a[d1] == b[d1]);
        } else if d2 < d1 {
            assert(b[d2] == a[d2]);
        }
    }
    if lex_less(a, a) {
        let d = choose|d: int| #[trigger] lex_less_at(a, a, d);
    }
}

/// Lexicographic order is transitive.
pub proof fn lemma_lex_transitive(a: Seq<usize>, b: Seq<usize>, c: Seq<usize>)
    requires
        lex_less(a, b),
        lex_less(b, c),
    ensures
        lex_less(a, c),
{
    let d1 = choose|d: int| #[trigger] lex_less_at(a, b, d);
    let d2 = choose|d: int| #[trigger] lex_less_at(b, c, d);
    if d1 <= d2 {
        assert(lex_less_at(a, c, d1));
    } else {
        assert(lex_less_at(a, c, d2));
    }
}

/// No combination comes before the first one.
pub proof fn lemma_first_is_least(w: Seq<usize>, lo: int, hi: int, m: nat)
    requires
        0 <= lo,
        hi <= usize::MAX,
        is_combination(w, lo, hi, m),
    ensures
        !lex_less(w, first_combination(lo, m)),
{
    let f = first_combination(lo, m);
    if lex_less(w, f) {
        let d = choose|d: int| #[trigger] lex_less_at(w, f, d);
        lemma_combination_bounds(w, lo, hi, m, d, d);
        assert(f[d] == lo + d);
    }
}

/// Every combination is the last one or comes before it.
pub proof fn lemma_last_is_greatest(w: Seq<usize>, t: Seq<usize>, lo: int, hi: int, m: nat)
    requires
        is_combination(w, lo, hi, m),
        t.len() == m,
        is_last_combination(t, hi),
    ensures
        w == t || lex_less(w, t),
{
    if w != t {
        let d = lemma_first_difference(w, t, 0);
        lemma_combination_bounds(w, lo, hi, m, d, d);
        assert(lex_less_at(w, t, d));
    }
}

/// The combination that follows `t` in lexicographic order, or `None` when `t`
/// is the last one.
pub fn next_combination(t: &Vec<usize>, lo: usize, hi: usize) -> (r: Option<Vec<usize>>)
    requires
        is_combination(t@, lo as int, hi as int, t.len() as nat),
        hi < usize::MAX,
    ensures
        r is None <==> is_last_combination(t@, hi as int),
        r matches Some(u) ==> {
            &&& is_combination(u@, lo as int, hi as int, t.len() as nat)
            &&& lex_less(t@, u@)
            &&& forall|w: Seq<usize>|
                is_combination(w, lo as int, hi as int, t.len() as nat) && lex_less(t@, w) ==> w == u@
                    || #[trigger] lex_less(u@, w)
        },
{
    let m = t.len();
    proof {
        assert forall|j: int| 0 <= j < m implies #[trigger] t@[j] <= hi - (m - 1 - j) by {
            lemma_combination_bounds(t@, lo as int, hi as int, m as nat, j, j);
        }
    }
    let mut i: usize = m;
    while i > 0 && t[i - 1] == hi - (m - i)
        invariant
            forall|j: int| 0 <= j < m ==> #[trigger] t@[j] <= hi - (m - 1 - j),
            i <= m,
            m == t.len(),
            is_combination(t@, lo as int, hi as int, m as nat),
            hi < usize::MAX,
            forall|j: int| i <= j < m ==> #[trigger] t@[j] == hi - (m - 1 - j),
        decreases i,
    {
        proof {
            lemma_combination_bounds(t@, lo as int, hi as int, m as nat, i - 1, i - 1);
        }
        i = i - 1;
    }
    if i == 0 {
        return None;
    }
    let p = i - 1;
    proof {
        lemma_combination_bounds(t@, lo as int, hi as int, m as nat, p as int, p as int);
    }
    let base = t[p] + 1;
    let mut u: Vec<usize> = Vec::new();
    let mut j: usize = 0;
    while j < m
        invariant
            m == t.len(),
            p < m,
            j <= m,
            u@.len() == j,
            base == t@[p as int] + 1,
            base + (m - 1 - p) <= hi,
            forall|e: int| 0 <= e < j && e < p ==> #[trigger] u@[e] == t@[e],
            forall|e: int| 0 <= e < j && e >= p ==> #[trigger] u@[e] == base + (e - p),
        decreases m - j,
    {
        if j < p {
            u.push(t[j]);
        } else {
            u.push(base + (j - p));
        }
        j = j + 1;
    }
    proof {
        let tt = t@;
        let uu = u@;
        assert forall|a: int, b: int| 0 <= a < b < uu.len() implies #[trigger] uu[a] < #[trigger] uu[b] by {
            if b < p {
                assert(tt[a] < tt[b]);
            } else if a < p {
                if a < p - 1 {
                    assert(tt[a] < tt[p - 1]);
                }
                assert(tt[p - 1] < tt[p as int]);
            }
        }
        assert forall|a: int| 0 <= a < uu.len() implies lo <= #[trigger] uu[a] <= hi by {
            if a >= p {
                lemma_combination_bounds(tt, lo as int, hi as int, m as nat, p as int, p as int);
            }
        }
        assert(lex_less_at(tt, uu, p as int));
        assert forall|w: Seq<usize>|
            is_combination(w, lo as int, hi as int, m as nat) && lex_less(tt, w) implies w == uu || #[trigger] lex_less(uu, w) by {
            let d = choose|d: int| #[trigger] lex_less_at(tt, w, d);
            lemma_combination_bounds(w, lo as int, hi as int, m as nat, d, d);
            if d > p {
                assert(tt[d] == hi - (m - 1 - d));
            } else if d < p {
                assert(lex_less_at(uu, w, d));
            } else if w[d] > uu[d] {
                assert(lex_less_at(uu, w, d));
            } else if w != uu {
                let e = lemma_first_difference(uu, w, 0);
                if e > p {
                    lemma_combination_bounds(w, lo as int, hi as int, m as nat, p as int, e);
                    assert(lex_less_at(uu, w, e));
                } else {
                    assert(uu[e] == w[e]);
                }
            }
        }
    }
    Some(u)
}

/// All strictly increasing sequences of `k` values in `[start, end]`, in
/// ascending lexicographic order: one empty sequence for `k == 0`, none where
/// the range holds fewer than `k` values.
pub fn combinations(start: usize, end: usize, k: usize) -> (r: Vec<Vec<usize>>)
    requires
        end < usize::MAX,
    ensures
        forall|n: int| 0 <= n < r@.len() ==> is_combination(#[trigger] r@[n]@, start as int, end as int, k as nat),
        forall|a: int, b: int| 0 <= a < b < r@.len() ==> lex_less(#[trigger] r@[a]@, #[trigger] r@[b]@),
        forall|w: Seq<usize>|
            is_combination(w, start as int, end as int, k as nat) ==> exists|n: int| 0 <= n < r@.len() && #[trigger] r@[n]@ == w,
        r@.len() >= 1 <==> (k == 0 || start + k - 1 <= end),
        r@.len() >= 1 ==> r@[0]@ == first_combination(start as int, k as nat) && is_last_combination(
            r@[r@.len() - 1]@,
            end as int,
        ),
        forall|n: int|
            0 <= n < r@.len() - 1 ==> forall|w: Seq<usize>|
                is_combination(w, start as int, end as int, k as nat) && lex_less(#[trigger] r@[n]@, w) ==> w == r@[n
                    + 1]@ || #[trigger] lex_less(r@[n + 1]@, w),
{
    if k > 0 && (start > end || end - start < k - 1) {
        let out: Vec<Vec<usize>> = Vec::new();
        proof {
            assert forall|w: Seq<usize>| is_combination(w, start as int, end as int, k as nat) implies exists|n: int|
                0 <= n < out@.len() && #[trigger] out@[n]@ == w by {
                lemma_combination_bounds(w, start as int, end as int, k as nat, 0, k - 1);
            }
        }
        return out;
    }
    let mut first: Vec<usize> = Vec::new();
    let mut j: usize = 0;
    while j < k
        invariant
            j <= k,
            start + k - 1 <= end || k == 0,
            first@.len() == j,
            forall|e: int| 0 <= e < j ==> #[trigger] first@[e] == start + e,
        decreases k - j,
    {
        first.push(start + j);
        j = j + 1;
    }
    assert(first@ =~= first_combination(start as int, k as nat));
    let mut out: Vec<Vec<usize>> = Vec::new();
    let mut cur = first;
    proof {
        assert forall|w: Seq<usize>| is_combination(w, start as int, end as int, k as nat) && lex_less(w, cur@) implies exists|n: int|
            0 <= n < out@.len() && #[trigger] out@[n]@ == w by {
            lemma_first_is_least(w, start as int, end as int, k as nat);
        }
    }
    loop
        invariant
            is_combination(cur@, start as int, end as int, k as nat),
            end < usize::MAX,
            k == 0 || start + k - 1 <= end,
            out@.len() == 0 ==> cur@ == first_combination(start as int, k as nat),
            out@.len() > 0 ==> out@[0]@ == first_combination(start as int, k as nat),
            out@.len() > 0 ==> lex_less(out@[out@.len() - 1]@, cur@) && forall|w: Seq<usize>|
                is_combination(w, start as int, end as int, k as nat) && lex_less(out@[out@.len() - 1]@, w) ==> w
                    == cur@ || #[trigger] lex_less(cur@, w),
            forall|n: int| 0 <= n < out@.len() ==> is_combination(#[trigger] out@[n]@, start as int, end as int, k as nat),
            forall|a: int, b: int| 0 <= a < b < out@.len() ==> lex_less(#[trigger] out@[a]@, #[trigger] out@[b]@),
            forall|w: Seq<usize>|
                is_combination(w, start as int, end as int, k as nat) && lex_less(w, cur@) ==> exists|n: int|
                    0 <= n < out@.len() && #[trigger] out@[n]@ == w,
            forall|n: int|
                0 <= n < out@.len() - 1 ==> forall|w: Seq<usize>|
                    is_combination(w, start as int, end as int, k as nat) && lex_less(#[trigger] out@[n]@, w) ==> w
                        == out@[n + 1]@ || #[trigger] lex_less(out@[n + 1]@, w),
        decreases power(end + 1, k as nat) - rank(cur@, end + 1),
    {
        let next = next_combination(&cur, start, end);
        proof {
            lemma_rank_bound(cur@, end + 1);
        }
        let ghost old_out = out@;
        let ghost old_cur = cur@;
        out.push(cur);
        proof {
            let o = out@;
            assert(o[o.len() - 1]@ == old_cur);
            assert forall|a: int, b: int| 0 <= a < b < o.len() implies lex_less(#[trigger] o[a]@, #[trigger] o[b]@) by {
                assert(o[a] == old_out[a]);
                if b < old_out.len() {
                    assert(o[b] == old_out[b]);
                } else if a < old_out.len() - 1 {
                    assert(lex_less(old_out[a]@, old_out[old_out.len() - 1]@));
                    lemma_lex_transitive(old_out[a]@, old_out[old_out.len() - 1]@, old_cur);
                }
            }
            assert forall|n: int| 0 <= n < o.len() implies is_combination(#[trigger] o[n]@, start as int, end as int, k as nat) by {
                if n < old_out.len() {
                    assert(o[n] == old_out[n]);
                }
            }
            assert forall|w: Seq<usize>|
                is_combination(w, start as int, end as int, k as nat) && (w == old_cur || lex_less(w, old_cur)) implies exists|n: int|
                0 <= n < o.len() && #[trigger] o[n]@ == w by {
                if w == old_cur {
                    assert(o[o.len() - 1]@ == w);
                } else {
                    let n = choose|n: int| 0 <= n < old_out.len() && #[trigger] old_out[n]@ == w;
                    assert(o[n] == old_out[n]);
                }
            }
            assert forall|n: int|
                0 <= n < o.len() - 1 implies forall|w: Seq<usize>|
                is_combination(w, start as int, end as int, k as nat) && lex_less(#[trigger] o[n]@, w) ==> w == o[n + 1]@
                    || #[trigger] lex_less(o[n + 1]@, w) by {
                assert(o[n] == old_out[n]);
                if n + 1 < old_out.len() {
                    assert(o[n + 1] == old_out[n + 1]);
                }
            }
        }
        match next {
            None => {
                proof {
                    let o = out@;
                    assert forall|w: Seq<usize>| is_combination(w, start as int, end as int, k as nat) implies exists|n: int|
                        0 <= n < o.len() && #[trigger] o[n]@ == w by {
                        lemma_last_is_greatest(w, old_cur, start as int, end as int, k as nat);
                    }
                }
                return out;
            },
            Some(u) => {
                proof {
                    lemma_rank_lex(old_cur, u@, end + 1);
                    lemma_rank_bound(u@, end + 1);
                    let o = out@;
                    assert forall|w: Seq<usize>| is_combination(w, start as int, end as int, k as nat) && lex_less(w, u@) implies exists|n: int|
                        0 <= n < o.len() && #[trigger] o[n]@ == w by {
                        lemma_lex_total(w, old_cur);
                        lemma_lex_asymmetric(w, u@);
                        if lex_less(old_cur, w) {
                            assert(w == u@ || lex_less(u@, w));
                        }
                    }
                }
                cur = u;
            },
        }
    }
}

} // verus!
