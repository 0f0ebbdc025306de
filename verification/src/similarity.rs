//! Exact cosine-similarity scoring.
//!
//! A similarity score is reported as an integer in units of
//! `1 / SIM_SCALE`: the cosine of the angle between the two vectors,
//! scaled by `SIM_SCALE` and truncated toward zero.  The denominator
//! `sqrt(|a|^2 * |b|^2)` is computed as a floor integer square root of the
//! exact product, so a vector compared with itself scores exactly
//! `SIM_SCALE`, and a zero vector scores exactly zero against everything.

use vstd::prelude::*;
use vstd::arithmetic::mul::lemma_mul_inequality;
use vstd::arithmetic::div_mod::lemma_div_is_ordered_by_denominator;
use vstd::arithmetic::div_mod::lemma_div_pos_is_pos;
use vstd::arithmetic::div_mod::lemma_div_multiples_vanish;

verus! {

/// Scores are reported in units of `1 / SIM_SCALE`; a score of
/// `SIM_SCALE` is a cosine of exactly one.
pub const SIM_SCALE: i64 = 10000;

/// `SIM_SCALE * SIM_SCALE`, the scale applied under the square root.
pub const SCALE_SQ: i64 = 100_000_000;

/// Largest query dimension accepted by the scoring functions: keeps every
/// intermediate product of the exact computation inside `u128`.
pub const MAX_DIM: usize = 65536;

/// Exact dot product of two integer vectors (over the common prefix;
/// callers only apply it to vectors of equal length).
pub open spec fn dot_s(a: Seq<i16>, b: Seq<i16>) -> int
    decreases a.len(),
{
    if a.len() == 0 || b.len() == 0 {
        0
    } else {
        dot_s(a.drop_last(), b.drop_last()) + (a.last() as int) * (b.last() as int)
    }
}

/// Exact sum of squares of a vector: the square of its magnitude.
pub open spec fn sum_sq(a: Seq<i16>) -> int {
    dot_s(a, a)
}

/// `r` is the floor integer square root of `n`.
pub open spec fn is_isqrt(n: int, r: int) -> bool {
    0 <= r && r * r <= n && n < (r + 1) * (r + 1)
}

/// The floor integer square root of `n` (meaningful for `n >= 0`;
/// see `lemma_isqrt`).
pub open spec fn isqrt_spec(n: int) -> int {
    choose|r: int| is_isqrt(n, r)
}

/// Division truncating toward zero, as the `/` operator of the machine
/// integers behaves.
pub open spec fn trunc_div(a: int, b: int) -> int {
    if a >= 0 {
        a / b
    } else {
        -((-a) / b)
    }
}

/// The similarity score of `q` and `v`: the cosine of their angle in
/// units of `1 / SIM_SCALE`, truncated toward zero, and exactly zero
/// when either vector has zero magnitude.
pub open spec fn score_of(q: Seq<i16>, v: Seq<i16>) -> int {
    let denom = isqrt_spec(sum_sq(q) * sum_sq(v) * (SCALE_SQ as int));
    if denom == 0 {
        0
    } else {
        trunc_div(dot_s(q, v) * (SCALE_SQ as int), denom)
    }
}

proof fn lemma_isqrt_exists(n: int) -> (r: int)
    requires
        0 <= n,
    ensures
        is_isqrt(n, r),
    decreases n,
{
    if n == 0 {
        assert(is_isqrt(0, 0)) by (nonlinear_arith);
        0
    } else {
        let r0 = lemma_isqrt_exists(n - 1);
        if (r0 + 1) * (r0 + 1) <= n {
            assert(n - 1 < (r0 + 1) * (r0 + 1));
            assert(n == (r0 + 1) * (r0 + 1));
            assert(is_isqrt(n, r0 + 1)) by (nonlinear_arith)
                requires
                    0 <= r0,
                    n == (r0 + 1) * (r0 + 1),
            ;
            r0 + 1
        } else {
            r0
        }
    }
}

proof fn lemma_isqrt_unique(n: int, r1: int, r2: int)
    requires
        is_isqrt(n, r1),
        is_isqrt(n, r2),
    ensures
        r1 == r2,
{
    if r1 < r2 {
        lemma_mul_inequality(r1 + 1, r2, r2);
        lemma_mul_inequality(r1 + 1, r2, r1 + 1);
        assert((r1 + 1) * (r1 + 1) <= r2 * r2);
        assert(false);
    }
    if r2 < r1 {
        lemma_mul_inequality(r2 + 1, r1, r1);
        lemma_mul_inequality(r2 + 1, r1, r2 + 1);
        assert((r2 + 1) * (r2 + 1) <= r1 * r1);
        assert(false);
    }
}

/// For nonnegative `n`, `isqrt_spec(n)` is the floor square root of `n`.
pub proof fn lemma_isqrt(n: int)
    requires
        0 <= n,
    ensures
        is_isqrt(n, isqrt_spec(n)),
{
    let w = lemma_isqrt_exists(n);
    assert(is_isqrt(n, w));
}

/// The floor square root of a perfect square is its root.
pub proof fn lemma_isqrt_square(k: int)
    requires
        0 <= k,
    ensures
        isqrt_spec(k * k) == k,
{
    assert(is_isqrt(k * k, k)) by (nonlinear_arith)
        requires
            0 <= k,
    ;
    lemma_isqrt(k * k);
    lemma_isqrt_unique(k * k, isqrt_spec(k * k), k);
}

proof fn lemma_dot_take_succ(a: Seq<i16>, b: Seq<i16>, i: int)
    requires
        0 <= i < a.len(),
        i < b.len(),
    ensures
        dot_s(a.take(i + 1), b.take(i + 1)) == dot_s(a.take(i), b.take(i)) + (a[i] as int) * (
        b[i] as int),
{
    let a1 = a.take(i + 1);
    let b1 = b.take(i + 1);
    assert(a1.drop_last() =~= a.take(i));
    assert(b1.drop_last() =~= b.take(i));
    assert(a1.last() == a[i]);
    assert(b1.last() == b[i]);
}

/// One sequential pass computing the three independent reductions of the
/// cosine formula: the dot product and the two squared magnitudes.
pub fn reductions(a: &Vec<i16>, b: &Vec<i16>) -> (r: (i64, i64, i64))
    requires
        a@.len() == b@.len(),
        a@.len() <= MAX_DIM,
    ensures
        r.0 == dot_s(a@, b@),
        r.1 == sum_sq(a@),
        r.2 == sum_sq(b@),
        -0x4000_0000_0000 <= r.0 <= 0x4000_0000_0000,
        0 <= r.1 <= 0x4000_0000_0000,
        0 <= r.2 <= 0x4000_0000_0000,
{
    let n = a.len();
    let mut acc_dot: i64 = 0;
    let mut acc_p: i64 = 0;
    let mut acc_q: i64 = 0;
    let mut i: usize = 0;
    while i < n
        invariant
            n == a@.len(),
            n == b@.len(),
            n <= MAX_DIM,
            0 <= i <= n,
            acc_dot == dot_s(a@.take(i as int), b@.take(i as int)),
            acc_p == sum_sq(a@.take(i as int)),
            acc_q == sum_sq(b@.take(i as int)),
            -(i as int) * 0x4000_0000 <= acc_dot <= (i as int) * 0x4000_0000,
            0 <= acc_p <= (i as int) * 0x4000_0000,
            0 <= acc_q <= (i as int) * 0x4000_0000,
        decreases n - i,
    {
        let x = a[i] as i64;
        let y = b[i] as i64;
        proof {
            lemma_dot_take_succ(a@, b@, i as int);
            lemma_dot_take_succ(a@, a@, i as int);
            lemma_dot_take_succ(b@, b@, i as int);
            assert(-0x4000_0000 <= x * y <= 0x4000_0000) by (nonlinear_arith)
                requires
                    -0x8000 <= x <= 0x7fff,
                    -0x8000 <= y <= 0x7fff,
            ;
            assert(0 <= x * x <= 0x4000_0000) by (nonlinear_arith)
                requires
                    -0x8000 <= x <= 0x7fff,
            ;
            assert(0 <= y * y <= 0x4000_0000) by (nonlinear_arith)
                requires
                    -0x8000 <= y <= 0x7fff,
            ;
        }
        acc_dot = acc_dot + x * y;
        acc_p = acc_p + x * x;
        acc_q = acc_q + y * y;
        i = i + 1;
    }
    proof {
        assert(a@.take(n as int) =~= a@);
        assert(b@.take(n as int) =~= b@);
    }
    (acc_dot, acc_p, acc_q)
}

/// The square of a magnitude is never negative.
pub proof fn lemma_sum_sq_nonneg(a: Seq<i16>)
    ensures
        sum_sq(a) >= 0,
    decreases a.len(),
{
    if a.len() == 0 {
    } else {
        lemma_sum_sq_nonneg(a.drop_last());
        let x = a.last() as int;
        assert(x * x >= 0) by (nonlinear_arith);
    }
}


proof fn lemma_cs_step(d: int, p: int, q: int, x: int, y: int)
    requires
        p >= 0,
        q >= 0,
        d * d <= p * q,
    ensures
        (d + x * y) * (d + x * y) <= (p + x * x) * (q + y * y),
{
    let u = x * y;
    let cross = p * (y * y) + q * (x * x);
    assert(cross >= 0) by (nonlinear_arith)
        requires
            p >= 0,
            q >= 0,
            cross == p * (y * y) + q * (x * x),
    ;
    assert(cross * cross >= 4 * (p * q) * (u * u)) by (nonlinear_arith)
        requires
            u == x * y,
            cross == p * (y * y) + q * (x * x),
    ;
    assert(4 * (p * q) * (u * u) >= 4 * (d * d) * (u * u)) by (nonlinear_arith)
        requires
            d * d <= p * q,
    ;
    assert(4 * (d * d) * (u * u) == (2 * (d * u)) * (2 * (d * u))) by (nonlinear_arith);
    assert(cross >= 2 * (d * u)) by (nonlinear_arith)
        requires
            cross >= 0,
            cross * cross >= (2 * (d * u)) * (2 * (d * u)),
    ;
    assert((d + u) * (d + u) == d * d + 2 * (d * u) + u * u) by (nonlinear_arith);
    assert((p + x * x) * (q + y * y) == p * q + cross + u * u) by (nonlinear_arith)
        requires
            u == x * y,
            cross == p * (y * y) + q * (x * x),
    ;
    assert((d + u) * (d + u) <= (p + x * x) * (q + y * y));
}

/// The Cauchy-Schwarz inequality over the exact integer reductions: the
/// squared dot product never exceeds the product of the squared
/// magnitudes.
pub proof fn lemma_cauchy_schwarz(a: Seq<i16>, b: Seq<i16>)
    requires
        a.len() == b.len(),
    ensures
        dot_s(a, b) * dot_s(a, b) <= sum_sq(a) * sum_sq(b),
    decreases a.len(),
{
    if a.len() == 0 {
    } else {
        lemma_cauchy_schwarz(a.drop_last(), b.drop_last());
        lemma_sum_sq_nonneg(a.drop_last());
        lemma_sum_sq_nonneg(b.drop_last());
        lemma_cs_step(
            dot_s(a.drop_last(), b.drop_last()),
            sum_sq(a.drop_last()),
            sum_sq(b.drop_last()),
            a.last() as int,
            b.last() as int,
        );
    }
}

/// Any nonnegative `k` whose square is at most `n` is at most the floor
/// square root of `n`.
pub proof fn lemma_isqrt_lower(n: int, k: int)
    requires
        0 <= n,
        0 <= k,
        k * k <= n,
    ensures
        k <= isqrt_spec(n),
{
    lemma_isqrt(n);
    let m = isqrt_spec(n);
    if k > m {
        lemma_mul_inequality(m + 1, k, k);
        lemma_mul_inequality(m + 1, k, m + 1);
        assert((m + 1) * (m + 1) <= k * k);
        assert(false);
    }
}

proof fn lemma_div_score_le(d: int, m: int)
    requires
        0 <= d,
        0 < m,
        d * (SIM_SCALE as int) <= m,
    ensures
        0 <= (d * (SCALE_SQ as int)) / m <= SIM_SCALE as int,
{
    let sc = SIM_SCALE as int;
    let s2 = SCALE_SQ as int;
    assert(0 <= d * s2) by (nonlinear_arith)
        requires
            0 <= d,
            0 < s2,
    ;
    lemma_div_pos_is_pos(d * s2, m);
    if d == 0 {
        assert(d * s2 == 0);
        assert(0int / m == 0);
    } else {
        assert(1 <= d * sc) by (nonlinear_arith)
            requires
                1 <= d,
                1 <= sc,
        ;
        lemma_div_is_ordered_by_denominator(d * s2, d * sc, m);
        assert(d * s2 == (d * sc) * sc) by (nonlinear_arith)
            requires
                s2 == sc * sc,
        ;
        lemma_div_multiples_vanish(sc, d * sc);
        assert(((d * sc) * sc) / (d * sc) == sc);
    }
}

/// Given the Cauchy-Schwarz bound, the scaled magnitude product `m`
/// dominates `|d| * SIM_SCALE`, so the quotient stays within the scale.
proof fn lemma_score_div_bound(d: int, ad: int, p: int, s: int, m: int)
    requires
        d * d <= p * s,
        ad == if d >= 0 { d } else { -d },
        0 <= p,
        0 <= s,
        m == isqrt_spec(p * s * (SCALE_SQ as int)),
        m != 0,
    ensures
        0 < m,
        ad * (SIM_SCALE as int) <= m,
        0 <= (ad * (SCALE_SQ as int)) / m <= SIM_SCALE as int,
{
    let sc = SIM_SCALE as int;
    let s2 = SCALE_SQ as int;
    let n = p * s * s2;
    assert(n >= 0) by (nonlinear_arith)
        requires
            0 <= p,
            0 <= s,
            0 < s2,
            n == p * s * s2,
    ;
    lemma_isqrt(n);
    assert(0 <= m);
    assert(0 < m);
    assert(ad * ad == d * d) by (nonlinear_arith)
        requires
            ad == d || ad == -d,
    ;
    assert(0 <= ad);
    assert(0 <= ad * sc) by (nonlinear_arith)
        requires
            0 <= ad,
            0 <= sc,
    ;
    assert((ad * sc) * (ad * sc) <= n) by (nonlinear_arith)
        requires
            ad * ad <= p * s,
            n == p * s * s2,
            s2 == sc * sc,
    ;
    lemma_isqrt_lower(n, ad * sc);
    lemma_div_score_le(ad, m);
}

/// Exec floor integer square root, by bisection.
pub fn isqrt(n: u128) -> (r: u128)
    requires
        n < 0x4000_0000_0000_0000_0000_0000_0000_0000,
    ensures
        is_isqrt(n as int, r as int),
{
    let mut lo: u128 = 0;
    let mut hi: u128 = 0x8000_0000_0000_0000;
    proof {
        assert((hi as int) * (hi as int) > n as int) by (nonlinear_arith)
            requires
                hi == 0x8000_0000_0000_0000u128,
                n < 0x4000_0000_0000_0000_0000_0000_0000_0000u128,
        ;
    }
    while hi - lo > 1
        invariant
            lo < hi,
            hi <= 0x8000_0000_0000_0000,
            (lo as int) * (lo as int) <= n as int,
            (n as int) < (hi as int) * (hi as int),
        decreases hi - lo,
    {
        let mid = lo + (hi - lo) / 2;
        proof {
            assert((mid as int) * (mid as int) < 0x1_0000_0000_0000_0000_0000_0000_0000_0000)
                by (nonlinear_arith)
                requires
                    mid <= 0x8000_0000_0000_0000u128,
            ;
        }
        if mid * mid <= n {
            lo = mid;
        } else {
            hi = mid;
        }
    }
    lo
}

/// The similarity score is always between `-SIM_SCALE` and `SIM_SCALE`:
/// the cosine never leaves `[-1, 1]`.
pub proof fn lemma_score_bounds(q: Seq<i16>, v: Seq<i16>)
    requires
        q.len() == v.len(),
    ensures
        -(SIM_SCALE as int) <= score_of(q, v) <= SIM_SCALE as int,
{
    let s2 = SCALE_SQ as int;
    let d = dot_s(q, v);
    let p = sum_sq(q);
    let s = sum_sq(v);
    lemma_sum_sq_nonneg(q);
    lemma_sum_sq_nonneg(v);
    lemma_cauchy_schwarz(q, v);
    let m = isqrt_spec(p * s * s2);
    if m != 0 {
        let ad = if d >= 0 { d } else { -d };
        lemma_score_div_bound(d, ad, p, s, m);
        if d >= 0 {
            assert(score_of(q, v) == (d * s2) / m);
        } else {
            assert(-(d * s2) == ad * s2) by (nonlinear_arith)
                requires
                    ad == -d,
            ;
            assert(score_of(q, v) == -((ad * s2) / m));
        }
    }
}

/// Cosine similarity of two equal-length vectors, in units of
/// `1 / SIM_SCALE`, truncated toward zero; exactly zero when either
/// vector has zero magnitude.
pub fn similarity(a: &Vec<i16>, b: &Vec<i16>) -> (s: i64)
    requires
        a@.len() == b@.len(),
        a@.len() <= MAX_DIM,
    ensures
        s == score_of(a@, b@),
        -SIM_SCALE <= s <= SIM_SCALE,
{
    let (d, p, q) = reductions(a, b);
    proof {
        assert((p as int) * (q as int) <= 0x1000_0000_0000_0000_0000_0000)
            by (nonlinear_arith)
            requires
                0 <= p <= 0x4000_0000_0000i64,
                0 <= q <= 0x4000_0000_0000i64,
        ;
    }
    let prod: u128 = (p as u128) * (q as u128);
    let scaled: u128 = prod * (SCALE_SQ as u128);
    let m_exec = isqrt(scaled);
    proof {
        lemma_isqrt(scaled as int);
        lemma_isqrt_unique(scaled as int, m_exec as int, isqrt_spec(scaled as int));
        assert(scaled as int == sum_sq(a@) * sum_sq(b@) * (SCALE_SQ as int));
        lemma_score_bounds(a@, b@);
        lemma_cauchy_schwarz(a@, b@);
        lemma_sum_sq_nonneg(a@);
        lemma_sum_sq_nonneg(b@);
    }
    if m_exec == 0 {
        0
    } else if d >= 0 {
        proof {
            lemma_score_div_bound(
                d as int,
                d as int,
                sum_sq(a@),
                sum_sq(b@),
                m_exec as int,
            );
            assert((d as int) * (SCALE_SQ as int) <= 0x1_0000_0000_0000_0000_0000)
                by (nonlinear_arith)
                requires
                    0 <= d <= 0x4000_0000_0000i64,
            ;
        }
        let num: u128 = (d as u128) * (SCALE_SQ as u128);
        (num / m_exec) as i64
    } else {
        let dpos: i64 = -d;
        proof {
            lemma_score_div_bound(
                d as int,
                dpos as int,
                sum_sq(a@),
                sum_sq(b@),
                m_exec as int,
            );
            assert((dpos as int) * (SCALE_SQ as int) <= 0x1_0000_0000_0000_0000_0000)
                by (nonlinear_arith)
                requires
                    0 <= dpos <= 0x4000_0000_0000i64,
            ;
            assert(-((d as int) * (SCALE_SQ as int)) == (dpos as int) * (SCALE_SQ as int))
                by (nonlinear_arith)
                requires
                    dpos as int == -(d as int),
            ;
        }
        let num: u128 = (dpos as u128) * (SCALE_SQ as u128);
        -((num / m_exec) as i64)
    }
}

/// The dot product does not depend on the order of its arguments.
pub proof fn lemma_dot_symmetric(a: Seq<i16>, b: Seq<i16>)
    ensures
        dot_s(a, b) == dot_s(b, a),
    decreases a.len(),
{
    if a.len() == 0 || b.len() == 0 {
    } else {
        lemma_dot_symmetric(a.drop_last(), b.drop_last());
    }
}

/// Similarity is symmetric: two vectors of equal nonzero length score
/// the same in either order.
pub proof fn lemma_similarity_symmetric(a: Seq<i16>, b: Seq<i16>)
    requires
        a.len() == b.len(),
        a.len() > 0,
    ensures
        score_of(a, b) == score_of(b, a),
{
    lemma_dot_symmetric(a, b);
    assert(sum_sq(a) * sum_sq(b) * (SCALE_SQ as int) == sum_sq(b) * sum_sq(a) * (SCALE_SQ as int))
        by (nonlinear_arith);
}

/// A vector of nonzero magnitude scores exactly `SIM_SCALE` against
/// itself: its cosine with itself is exactly one.
pub proof fn lemma_self_similarity(a: Seq<i16>)
    requires
        sum_sq(a) > 0,
    ensures
        score_of(a, a) == SIM_SCALE as int,
{
    let sc = SIM_SCALE as int;
    let s2 = SCALE_SQ as int;
    let p = sum_sq(a);
    assert((p * sc) * (p * sc) == p * p * s2) by (nonlinear_arith)
        requires
            s2 == sc * sc,
    ;
    assert(0 <= p * sc && 1 <= p * sc) by (nonlinear_arith)
        requires
            1 <= p,
            1 <= sc,
    ;
    lemma_isqrt_square(p * sc);
    assert(isqrt_spec(p * p * s2) == p * sc);
    assert(p * s2 == (p * sc) * sc) by (nonlinear_arith)
        requires
            s2 == sc * sc,
    ;
    lemma_div_multiples_vanish(sc, p * sc);
    assert(((p * sc) * sc) / (p * sc) == sc);
    assert(0 <= p * s2) by (nonlinear_arith)
        requires
            0 <= p,
            0 <= s2,
    ;
    assert(score_of(a, a) == trunc_div(p * s2, p * sc));
}

/// The vector whose components are all zero.
pub open spec fn is_zero_vec(a: Seq<i16>) -> bool {
    forall|i: int| 0 <= i < a.len() ==> a[i] == 0
}

/// An all-zero vector has zero magnitude.
pub proof fn lemma_zero_vec_sum_sq(a: Seq<i16>)
    requires
        is_zero_vec(a),
    ensures
        sum_sq(a) == 0,
    decreases a.len(),
{
    if a.len() == 0 {
    } else {
        assert(is_zero_vec(a.drop_last()));
        lemma_zero_vec_sum_sq(a.drop_last());
        assert(a.last() == a[a.len() - 1]);
    }
}

/// An all-zero vector on either side scores exactly zero, by policy:
/// no division by zero can arise.
pub proof fn lemma_zero_vector_similarity(a: Seq<i16>, b: Seq<i16>)
    requires
        a.len() == b.len(),
        is_zero_vec(a) || is_zero_vec(b),
    ensures
        score_of(a, b) == 0,
{
    let s2 = SCALE_SQ as int;
    if is_zero_vec(a) {
        lemma_zero_vec_sum_sq(a);
    } else {
        lemma_zero_vec_sum_sq(b);
    }
    assert(sum_sq(a) * sum_sq(b) * s2 == 0) by (nonlinear_arith)
        requires
            sum_sq(a) == 0 || sum_sq(b) == 0,
    ;
    assert(is_isqrt(0, 0)) by (nonlinear_arith);
    lemma_isqrt(0);
    lemma_isqrt_unique(0, isqrt_spec(0), 0);
}

} // verus!
