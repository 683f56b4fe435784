//! Fixed-point arithmetic for the ranking engine.
//!
//! Every statistic (term frequency, IDF, weight) and every score is a
//! fixed-point number in units of one millionth: the integer `1_000_000`
//! stands for the real value `1.0`. The engine needs three operations beyond
//! the ring ones: an integer square root (for the cosine norms), a base-2
//! logarithm (for the combined score), and the cosine quotient itself.

use vstd::prelude::*;
use vstd::arithmetic::power2::pow2;
use vstd::arithmetic::power2::lemma_pow2_unfold;
use vstd::arithmetic::power2::lemma_pow2_strictly_increases;
use vstd::arithmetic::power2::lemma2_to64;
use vstd::arithmetic::div_mod::lemma_fundamental_div_mod;
use vstd::arithmetic::mul::lemma_mul_inequality;

verus! {

/// Number of fixed-point units in `1.0`.
pub const SCALE: u64 = 1_000_000;

/// `sqrt_floor(n)` is the largest `r` with `r * r <= n`.
pub open spec fn sqrt_floor(n: nat) -> nat
    decreases n,
{
    if n == 0 {
        0
    } else {
        let r = sqrt_floor((n - 1) as nat);
        if (r + 1) * (r + 1) <= n {
            (r + 1) as nat
        } else {
            r
        }
    }
}

pub proof fn lemma_sqrt_floor_bounds(n: nat)
    ensures
        sqrt_floor(n) * sqrt_floor(n) <= n,
        n < (sqrt_floor(n) + 1) * (sqrt_floor(n) + 1),
    decreases n,
{
    if n == 0 {
        assert(sqrt_floor(0) == 0);
        assert((0 + 1) * (0 + 1) == 1nat) by (nonlinear_arith);
    } else {
        lemma_sqrt_floor_bounds((n - 1) as nat);
        let r = sqrt_floor((n - 1) as nat);
        assert(r * r <= n - 1);
        assert(n - 1 < (r + 1) * (r + 1));
        if (r + 1) * (r + 1) <= n {
            assert(sqrt_floor(n) == r + 1);
            assert(n == (r + 1) * (r + 1));
            assert((r + 1) * (r + 1) < (r + 2) * (r + 2)) by (nonlinear_arith);
            assert(n < (sqrt_floor(n) + 1) * (sqrt_floor(n) + 1));
        } else {
            assert(sqrt_floor(n) == r);
            assert(n < (sqrt_floor(n) + 1) * (sqrt_floor(n) + 1));
        }
    }
}

pub proof fn lemma_sqrt_floor_unique(n: nat, r: nat)
    requires
        r * r <= n,
        n < (r + 1) * (r + 1),
    ensures
        r == sqrt_floor(n),
{
    lemma_sqrt_floor_bounds(n);
    let s = sqrt_floor(n);
    if r < s {
        assert((r + 1) * (r + 1) <= s * s) by (nonlinear_arith)
            requires
                r + 1 <= s,
        ;
    } else if s < r {
        assert((s + 1) * (s + 1) <= r * r) by (nonlinear_arith)
            requires
                s + 1 <= r,
        ;
    }
}

/// Integer square root by bisection.
pub fn isqrt(x: u64) -> (r: u64)
    ensures
        r as nat == sqrt_floor(x as nat),
        r * r <= x,
{
    let mut lo: u64 = 0;
    let mut hi: u64 = 4_294_967_296;
    proof {
        assert(4_294_967_296nat * 4_294_967_296nat > u64::MAX as nat) by (nonlinear_arith);
    }
    while lo + 1 < hi
        invariant
            lo < hi,
            hi <= 4_294_967_296,
            (lo as nat) * (lo as nat) <= x as nat,
            (x as nat) < (hi as nat) * (hi as nat),
        decreases hi - lo,
    {
        let mid: u64 = lo + (hi - lo) / 2;
        proof {
            assert((mid as nat) * (mid as nat) <= 4_294_967_296nat * 4_294_967_296nat)
                by (nonlinear_arith)
                requires
                    mid <= 4_294_967_296,
            ;
        }
        let sq: u128 = (mid as u128) * (mid as u128);
        if sq <= x as u128 {
            lo = mid;
        } else {
            hi = mid;
        }
    }
    proof {
        assert(hi == lo + 1);
        lemma_sqrt_floor_unique(x as nat, lo as nat);
    }
    lo
}

/// The cosine-similarity quotient `x / (sqrt(den) * sqrt(y))` in fixed point,
/// with the two degenerate-norm cases resolved to `0` and the result clamped
/// to the unit upper bound. Mathematically the cosine of two non-negative
/// vectors never exceeds `1.0`; any excess here could only be an integer
/// rounding artifact, and the clamp keeps every score inside `[0, 1]`.
pub open spec fn score_of(x: int, den: int, y: int) -> int {
    if den <= 0 || y <= 0 {
        0
    } else {
        let q = (x * (SCALE as int)) / ((sqrt_floor(den as nat) * sqrt_floor(y as nat)) as int);
        if q > SCALE as int {
            SCALE as int
        } else {
            q
        }
    }
}

pub proof fn lemma_score_of_range(x: int, den: int, y: int)
    requires
        x >= 0,
    ensures
        0 <= score_of(x, den, y) <= SCALE as int,
{
    if den <= 0 || y <= 0 {
    } else {
        let d = (sqrt_floor(den as nat) * sqrt_floor(y as nat)) as int;
        if sqrt_floor(den as nat) == 0 {
            lemma_sqrt_floor_bounds(den as nat);
            assert((0 + 1) * (0 + 1) == 1nat) by (nonlinear_arith);
        }
        if sqrt_floor(y as nat) == 0 {
            lemma_sqrt_floor_bounds(y as nat);
            assert((0 + 1) * (0 + 1) == 1nat) by (nonlinear_arith);
        }
        assert(d >= 1) by (nonlinear_arith)
            requires
                sqrt_floor(den as nat) >= 1,
                sqrt_floor(y as nat) >= 1,
                d == (sqrt_floor(den as nat) * sqrt_floor(y as nat)) as int,
        ;
        vstd::arithmetic::div_mod::lemma_div_pos_is_pos(x * (SCALE as int), d);
        assert(x * (SCALE as int) >= 0) by (nonlinear_arith)
            requires
                x >= 0,
        ;
    }
}

/// Cosine score of accumulated sums: numerator `x`, query-norm part `den`,
/// document-norm part `y`, all fixed point at squared scale.
pub fn cosine_score(x: u64, den: u64, y: u64) -> (r: u64)
    ensures
        r as int == score_of(x as int, den as int, y as int),
        r <= SCALE,
{
    if den == 0 || y == 0 {
        return 0;
    }
    let sd = isqrt(den);
    let sy = isqrt(y);
    proof {
        if sd == 0 {
            lemma_sqrt_floor_bounds(den as nat);
            assert((0 + 1) * (0 + 1) == 1nat) by (nonlinear_arith);
        }
        if sy == 0 {
            lemma_sqrt_floor_bounds(y as nat);
            assert((0 + 1) * (0 + 1) == 1nat) by (nonlinear_arith);
        }
        assert((x as nat) * (SCALE as nat) <= u64::MAX as nat * (SCALE as nat)) by (nonlinear_arith)
            requires
                x <= u64::MAX,
        ;
        assert((sd as nat) * (sy as nat) >= 1) by (nonlinear_arith)
            requires
                sd >= 1,
                sy >= 1,
        ;
        assert((sd as nat) * (sy as nat) <= u64::MAX as nat * u64::MAX as nat) by (nonlinear_arith)
            requires
                sd <= u64::MAX,
                sy <= u64::MAX,
        ;
    }
    let num: u128 = (x as u128) * (SCALE as u128);
    let d: u128 = (sd as u128) * (sy as u128);
    let q: u128 = num / d;
    if q > SCALE as u128 {
        SCALE
    } else {
        q as u64
    }
}

/// `norm_shift(c)` is the number of doublings that lift `c` to at least `1.0`:
/// the integer part of `-log2(c / SCALE)` for `c` in `(0, SCALE]`.
pub open spec fn norm_shift(c: int) -> int
    decreases 2 * SCALE as int - c
    when 1 <= c
{
    if c >= SCALE as int {
        0
    } else {
        1 + norm_shift(2 * c)
    }
}

/// `frac_bits(m, n)` is the `n`-bit binary fraction of `log2(m / SCALE)`
/// for a normalized mantissa `m` in `[1.0, 2.0)`, computed by the classical
/// repeated-squaring recurrence on truncating fixed-point arithmetic.
pub open spec fn frac_bits(m: int, n: nat) -> int
    decreases n,
{
    if n == 0 {
        0
    } else {
        let m2 = (m * m) / (SCALE as int);
        if m2 >= 2 * SCALE as int {
            pow2((n - 1) as nat) as int + frac_bits(m2 / 2, (n - 1) as nat)
        } else {
            frac_bits(m2, (n - 1) as nat)
        }
    }
}

/// `-log2(c / SCALE)` in fixed point for `c` in `(0, SCALE]`: integer part
/// from [`norm_shift`], 20 fraction bits from [`frac_bits`].
pub open spec fn neglog2_of(c: int) -> int {
    let k = norm_shift(c);
    let m = c * pow2(k as nat) as int;
    k * SCALE as int - (frac_bits(m, 20) * SCALE as int) / pow2(20) as int
}

pub proof fn lemma_frac_bits_range(m: int, n: nat)
    ensures
        0 <= frac_bits(m, n) < pow2(n),
    decreases n,
{
    vstd::arithmetic::power2::lemma_pow2_pos(n);
    if n == 0 {
    } else {
        let m2 = (m * m) / (SCALE as int);
        lemma_frac_bits_range(m2 / 2, (n - 1) as nat);
        lemma_frac_bits_range(m2, (n - 1) as nat);
        lemma_pow2_unfold(n);
    }
}

pub proof fn lemma_frac_bits_one(n: nat)
    ensures
        frac_bits(SCALE as int, n) == 0,
    decreases n,
{
    if n == 0 {
    } else {
        assert((SCALE as int * SCALE as int) / (SCALE as int) == SCALE as int);
        lemma_frac_bits_one((n - 1) as nat);
    }
}

/// Fixed-point `-log2(c / SCALE)` for a score `c` in `(0, 1]`.
pub fn neglog2(c: u64) -> (r: u64)
    requires
        1 <= c <= SCALE,
    ensures
        r as int == neglog2_of(c as int),
        r <= 20 * SCALE,
        r == 0 <==> c == SCALE,
{
    let mut m: u64 = c;
    let mut k: u64 = 0;
    proof {
        lemma2_to64();
    }
    while m < SCALE
        invariant
            1 <= m < 2 * SCALE,
            norm_shift(c as int) == k + norm_shift(m as int),
            m as int == c as int * pow2(k as nat) as int,
            1 <= c <= SCALE,
            k <= 20,
        decreases 2 * SCALE - m,
    {
        proof {
            lemma_pow2_unfold((k + 1) as nat);
            assert(2 * (c as int * pow2(k as nat) as int) == c as int * (2 * pow2(k as nat) as int))
                by (nonlinear_arith);
            if k + 1 > 20 {
                lemma2_to64();
                lemma_pow2_strictly_increases(20, (k + 1) as nat);
                assert(c as int * pow2((k + 1) as nat) as int >= pow2((k + 1) as nat) as int)
                    by (nonlinear_arith)
                    requires
                        c >= 1,
                ;
                assert(false);
            }
        }
        m = m * 2;
        k = k + 1;
    }
    proof {
        assert(norm_shift(m as int) == 0);
        assert(norm_shift(c as int) == k);
    }
    let ghost m0 = m as int;
    let mut bits: u64 = 0;
    let mut i: u64 = 0;
    while i < 20
        invariant
            m < 2 * SCALE,
            i <= 20,
            bits < pow2(i as nat),
            frac_bits(m0, 20) == bits * pow2((20 - i) as nat) + frac_bits(m as int, (20 - i) as nat),
        decreases 20 - i,
    {
        proof {
            assert((m as int) * (m as int) < (2 * SCALE as int) * (2 * SCALE as int))
                by (nonlinear_arith)
                requires
                    0 <= m < 2 * SCALE,
            ;
            lemma_fundamental_div_mod((m as int) * (m as int), SCALE as int);
            assert(((m as int) * (m as int)) / (SCALE as int) < 4 * SCALE as int) by {
                let a = (m as int) * (m as int);
                let q = a / (SCALE as int);
                if q >= 4 * SCALE as int {
                    lemma_mul_inequality(4 * SCALE as int, q, SCALE as int);
                    assert(q * SCALE as int <= a);
                    assert((4 * SCALE as int) * SCALE as int == 4 * (SCALE as int * SCALE as int))
                        by (nonlinear_arith);
                    assert((2 * SCALE as int) * (2 * SCALE as int) == 4 * (SCALE as int
                        * SCALE as int)) by (nonlinear_arith);
                    assert(false);
                }
            }
        }
        let m2: u64 = (m * m) / SCALE;
        let ghost bits0 = bits as int;
        let ghost n0 = (20 - i) as nat;
        proof {
            lemma2_to64();
            if (i as nat) < 20 {
                lemma_pow2_strictly_increases(i as nat, 20);
            }
            lemma_pow2_unfold(n0);
        }
        if m2 >= 2 * SCALE {
            m = m2 / 2;
            bits = bits * 2 + 1;
            proof {
                let p = pow2((n0 - 1) as nat) as int;
                assert(frac_bits(m0, 20) == bits0 * (2 * p) + (p + frac_bits(m as int, (n0
                    - 1) as nat)));
                assert(bits0 * (2 * p) + p == (2 * bits0 + 1) * p) by (nonlinear_arith);
            }
        } else {
            m = m2;
            bits = bits * 2;
            proof {
                let p = pow2((n0 - 1) as nat) as int;
                assert(frac_bits(m0, 20) == bits0 * (2 * p) + frac_bits(m as int, (n0 - 1) as nat));
                assert(bits0 * (2 * p) == (2 * bits0) * p) by (nonlinear_arith);
            }
        }
        i = i + 1;
    }
    proof {
        lemma2_to64();
        assert(frac_bits(m as int, 0) == 0);
        assert(pow2(0) == 1);
        assert(bits as int * pow2(0) as int == bits as int) by (nonlinear_arith)
            requires
                pow2(0) == 1,
        ;
        assert(frac_bits(m0, 20) == bits);
        lemma_frac_bits_range(m0, 20);
    }
    let f: u64 = (bits * SCALE) / 1_048_576;
    proof {
        let a = (bits as int) * (SCALE as int);
        assert(a < 1_048_576 * SCALE as int) by (nonlinear_arith)
            requires
                bits < 1_048_576,
                a == (bits as int) * (SCALE as int),
        ;
        lemma_fundamental_div_mod(a, 1_048_576);
        assert(a / 1_048_576 < SCALE as int) by {
            if a / 1_048_576 >= SCALE as int {
                lemma_mul_inequality(SCALE as int, a / 1_048_576, 1_048_576);
                assert(false);
            }
        }
        if k == 0 {
            assert(c == SCALE);
            assert(m0 == c as int * pow2(0) as int);
            lemma_frac_bits_one(20);
            assert(f == 0);
        }
    }
    let r = k * SCALE - f;
    proof {
        assert(r as int == neglog2_of(c as int));
        if c < SCALE {
            assert(k >= 1);
            assert(r > 0);
        }
    }
    r
}

/// A vector aligned with itself scores exactly `1.0`: when the numerator
/// is `w * t`, the query norm part is `w * w` and the document norm part is
/// `t * t`, the cosine quotient is exact and equals the unit score.
pub proof fn lemma_self_alignment_unit(w: int, t: int)
    requires
        1 <= w,
        1 <= t,
    ensures
        score_of(w * t, w * w, t * t) == SCALE as int,
{
    assert(w * w >= 1 && t * t >= 1 && w * t >= 1) by (nonlinear_arith)
        requires
            w >= 1,
            t >= 1,
    ;
    assert((w as nat) * (w as nat) <= (w * w) as nat && ((w * w) as nat) < (w as nat + 1) * (
    w as nat + 1)) by (nonlinear_arith)
        requires
            w >= 1,
    ;
    assert((t as nat) * (t as nat) <= (t * t) as nat && ((t * t) as nat) < (t as nat + 1) * (
    t as nat + 1)) by (nonlinear_arith)
        requires
            t >= 1,
    ;
    lemma_sqrt_floor_unique((w * w) as nat, w as nat);
    lemma_sqrt_floor_unique((t * t) as nat, t as nat);
    let d = (sqrt_floor((w * w) as nat) * sqrt_floor((t * t) as nat)) as int;
    assert(d == w * t) by (nonlinear_arith)
        requires
            w >= 1,
            t >= 1,
            sqrt_floor((w * w) as nat) == w as nat,
            sqrt_floor((t * t) as nat) == t as nat,
            d == (sqrt_floor((w * w) as nat) * sqrt_floor((t * t) as nat)) as int,
    ;
    assert((w * t) * (SCALE as int) == d * (SCALE as int));
    vstd::arithmetic::div_mod::lemma_div_multiples_vanish(SCALE as int, d);
    assert(d * (SCALE as int) == (SCALE as int) * d) by (nonlinear_arith);
    assert(((w * t) * (SCALE as int)) / d == SCALE as int);
}

/// Floor value for the combined score of a record whose corpus score
/// degenerated to `0`: strictly below every value the formula can produce
/// on a positive corpus score, so such records sort last.
pub const MIXED_FLOOR: i64 = -21_000_000;

/// The combined score `(1 - record_score) * log2(corpus_score)` in fixed
/// point. Since both scores lie in `[0, 1]`, the logarithm is non-positive
/// and the product is computed as a negated product of non-negative parts.
/// A zero corpus score has no logarithm and is mapped to [`MIXED_FLOOR`].
pub open spec fn mixed_of(record_rank: int, corpus_rank: int) -> int {
    if corpus_rank <= 0 {
        MIXED_FLOOR as int
    } else {
        -(((SCALE as int - record_rank) * neglog2_of(corpus_rank)) / (SCALE as int))
    }
}

/// Combined score of a record score and its corpus score, both in `[0, 1]`.
pub fn mixed_score(record_rank: u64, corpus_rank: u64) -> (r: i64)
    requires
        record_rank <= SCALE,
        corpus_rank <= SCALE,
    ensures
        r as int == mixed_of(record_rank as int, corpus_rank as int),
        MIXED_FLOOR as int <= r as int <= 0,
        corpus_rank >= 1 ==> r as int > MIXED_FLOOR as int,
{
    if corpus_rank == 0 {
        return MIXED_FLOOR;
    }
    let nl = neglog2(corpus_rank);
    proof {
        assert((SCALE - record_rank) as int * nl as int <= SCALE as int * (20 * SCALE as int))
            by (nonlinear_arith)
            requires
                0 <= (SCALE - record_rank) as int <= SCALE as int,
                0 <= nl as int <= 20 * SCALE as int,
        ;
        assert((SCALE - record_rank) as int * nl as int >= 0) by (nonlinear_arith)
            requires
                0 <= (SCALE - record_rank) as int,
                0 <= nl as int,
        ;
    }
    let prod: u64 = (SCALE - record_rank) * nl;
    let q: u64 = prod / SCALE;
    proof {
        let a = prod as int;
        lemma_fundamental_div_mod(a, SCALE as int);
        assert(a / (SCALE as int) <= 20 * SCALE as int) by {
            if a / (SCALE as int) > 20 * SCALE as int {
                lemma_mul_inequality(20 * SCALE as int + 1, a / (SCALE as int), SCALE as int);
                assert((20 * SCALE as int + 1) * SCALE as int > SCALE as int * (20 * SCALE as int))
                    by (nonlinear_arith);
                assert(false);
            }
        }
    }
    -(q as i64)
}

} // verus!
