//! Division of a two-word number by a one-word divisor through a precomputed reciprocal
//! (Moeller and Granlund, "Improved Division by Invariant Integers", 2010, algorithm 4).
use crate::arith::{lemma_shl64, lemma_shr64};
use crate::clif::machine::{b64, wide, wrap64};
use vstd::arithmetic::div_mod::*;
use vstd::arithmetic::mul::*;
use vstd::arithmetic::power2::*;
use vstd::bits::lemma_u64_low_bits_mask_is_mod;
use vstd::prelude::*;

verus! {

/// The reciprocal of a normalized divisor: `floor((2^128 - 1) / d) - 2^64`.
pub open spec fn reciprocal(d: int) -> int {
    (b64() * b64() - 1) / d - b64()
}

/// Precomputes the reciprocal of a divisor whose top bit is set.
pub fn precompute_recip(d_norm: u64) -> (v: u64)
    requires
        d_norm >= 0x8000_0000_0000_0000,
    ensures
        v == reciprocal(d_norm as int),
{
    let q: u128 = u128::MAX / (d_norm as u128);
    proof {
        let d = d_norm as int;
        assert(b64() * b64() - 1 == u128::MAX) by (nonlinear_arith);
        assert(q == u128::MAX as int / d);
        lemma_fundamental_div_mod(u128::MAX as int, d);
        assert(d * q <= u128::MAX);
        assert(u128::MAX < d * q + d);
        assert(q >= b64()) by (nonlinear_arith)
            requires
                u128::MAX < d * q + d,
                d <= 0xffff_ffff_ffff_ffff,
                b64() == 0x1_0000_0000_0000_0000,
                u128::MAX == 0xffff_ffff_ffff_ffff_ffff_ffff_ffff_ffff,
        ;
        assert(q < 2 * b64()) by (nonlinear_arith)
            requires
                d * q <= u128::MAX,
                d >= 0x8000_0000_0000_0000,
                b64() == 0x1_0000_0000_0000_0000,
                u128::MAX == 0xffff_ffff_ffff_ffff_ffff_ffff_ffff_ffff,
        ;
    }
    (q - 0x1_0000_0000_0000_0000u128) as u64
}

/// The candidate remainder of the algorithm, before it is reduced to one word, lies between
/// `max(-d, q0 + 1 - 2^64)` and `max(2^64 - d, q0)`.
proof fn lemma_candidate(d: int, v: int, u1: int, u0: int, q1: int, q0: int)
    requires
        b64() <= 2 * d,
        d < b64(),
        v == reciprocal(d),
        0 <= u1 < d,
        0 <= u0 < b64(),
        0 <= q0 < b64(),
        q1 * b64() + q0 == (b64() + v) * u1 + u0,
    ensures
        ({
            let r = u1 * b64() + u0 - (q1 + 1) * d;
            &&& -d <= r
            &&& q0 - b64() < r
            &&& r < b64() - d || r < q0
        }),
{
    let b = b64();
    let r = u1 * b + u0 - (q1 + 1) * d;
    let k = b * b - (b + v) * d;
    lemma_fundamental_div_mod(b * b - 1, d);
    assert(1 <= k <= d) by {
        assert((b + v) * d == d * ((b * b - 1) / d)) by (nonlinear_arith)
            requires
                b + v == (b * b - 1) / d,
        ;
    }
    let w = b + v;
    let x = q1 * b;
    let bb = b * b;
    let wd = w * d;
    assert(b * r == u1 * bb + b * u0 - x * d - b * d) by (nonlinear_arith)
        requires
            r == u1 * b + u0 - (q1 + 1) * d,
            x == q1 * b,
            bb == b * b,
    ;
    assert(x * d == u1 * wd + u0 * d - q0 * d) by (nonlinear_arith)
        requires
            x == w * u1 + u0 - q0,
            wd == w * d,
    ;
    assert(u1 * k == u1 * bb - u1 * wd) by (nonlinear_arith)
        requires
            k == bb - wd,
    ;
    assert(u0 * (b - d) == b * u0 - u0 * d) by (nonlinear_arith);
    assert(u1 * k >= 0 && u0 * (b - d) >= 0 && q0 * d >= 0) by (nonlinear_arith)
        requires
            u1 >= 0,
            k >= 0,
            u0 >= 0,
            b >= d,
            q0 >= 0,
            d >= 0,
    ;
    assert(-d <= r) by (nonlinear_arith)
        requires
            b * r >= -(b * d),
            b > 0,
    ;
    assert(q0 - b < r) by (nonlinear_arith)
        requires
            b * r >= q0 * d - b * d,
            0 <= q0 < b,
            0 < d < b,
    ;
    assert(b * r < (b - d) * (b - d) + q0 * d) by (nonlinear_arith)
        requires
            b * r == u1 * k + u0 * (b - d) + q0 * d - b * d,
            0 <= u1 < d,
            1 <= k <= d,
            0 <= u0 < b,
            0 < d < b,
    ;
    if r >= b - d && r >= q0 {
        assert(false) by (nonlinear_arith)
            requires
                b * r < (b - d) * (b - d) + q0 * d,
                r >= b - d,
                r >= q0,
                0 < d < b,
        ;
    }
}

/// A quotient of a number below `a * b` by `a` is below `b`.
proof fn lemma_quotient_below(x: int, a: int, b: int)
    requires
        0 < a,
        0 <= x < a * b,
    ensures
        0 <= x / a < b,
{
    lemma_fundamental_div_mod(x, a);
    assert(0 <= x / a < b) by (nonlinear_arith)
        requires
            x == a * (x / a) + x % a,
            0 <= x % a < a,
            0 <= x < a * b,
    ;
}

/// The algorithm computes quotient and remainder. `q1` is the high word of the estimate plus
/// one, `q0` its low word.
proof fn lemma_div2by1(d: int, v: int, u1: int, u0: int, q1: int, q0: int)
    requires
        b64() <= 2 * d,
        d < b64(),
        v == reciprocal(d),
        0 <= u1 < d,
        0 <= u0 < b64(),
        0 <= q0 < b64(),
        (q1 - 1) * b64() + q0 == (b64() + v) * u1 + u0,
    ensures
        ({
            let u = u1 * b64() + u0;
            let r = wrap64(u0 - q1 * d) as int;
            let (qa, ra) = if r > q0 {
                (q1 - 1, wrap64(r + d) as int)
            } else {
                (q1, r)
            };
            let (qb, rb) = if ra >= d {
                (qa + 1, ra - d)
            } else {
                (qa, ra)
            };
            &&& qb == u / d
            &&& rb == u % d
            &&& 0 <= qb < b64()
        }),
{
    let b = b64();
    let u = u1 * b + u0;
    lemma_candidate(d, v, u1, u0, q1 - 1, q0);
    let c = u - q1 * d;
    let r = wrap64(u0 - q1 * d) as int;
    // The word `r` is the candidate remainder, taken modulo 2^64.
    assert(r == c % b) by {
        lemma_mod_multiples_vanish(u1, u0 - q1 * d, b);
        assert(b * u1 + (u0 - q1 * d) == c) by (nonlinear_arith)
            requires
                c == u1 * b + u0 - q1 * d,
        ;
    }
    let (qa, ra) = if r > q0 {
        (q1 - 1, wrap64(r + d) as int)
    } else {
        (q1, r)
    };
    let (qb, rb) = if ra >= d {
        (qa + 1, ra - d)
    } else {
        (qa, ra)
    };
    if c >= 0 {
        assert(c < b);
        assert(r == c) by {
            lemma_small_mod(c as nat, b as nat);
        }
        if r > q0 {
            lemma_small_mod((r + d) as nat, b as nat);
            assert(qb == q1 && rb == c);
        }
    } else {
        assert(r == c + b) by {
            lemma_fundamental_div_mod_converse(c, b, -1, c + b);
        }
        assert(r > q0);
        assert(wrap64(r + d) as int == c + d) by {
            lemma_fundamental_div_mod_converse(r + d, b, 1, c + d);
        }
    }
    assert(0 <= rb < d);
    assert(u == qb * d + rb) by (nonlinear_arith)
        requires
            c == u - q1 * d,
            qb == q1 && rb == c || qb == q1 + 1 && rb == c - d || qb == q1 - 1 && rb == c + d,
    ;
    lemma_fundamental_div_mod_converse(u, d, qb, rb);
    assert(0 <= qb < b) by (nonlinear_arith)
        requires
            u1 * b + u0 == qb * d + rb,
            0 <= u1 < d,
            0 <= u0 < b,
            0 <= rb < d,
            0 < b,
    ;
}

/// The estimate on machine words: the high word of `v * u1 + (u1, u0)` plus one, and its low
/// word.
pub open spec fn estimate_words(v: u64, u1: u64, u0: u64) -> (u64, u64) {
    let carry: u64 = if wrap64(v * u1) + u0 >= b64() {
        1
    } else {
        0
    };
    (
        wrap64(wrap64(wrap64(((v * u1) / b64()) as u64 + u1) + carry) + 1),
        wrap64(wrap64(v * u1) + u0),
    )
}

/// The two adjustments on machine words, from an estimate `(q1, q0)`: quotient and remainder.
pub open spec fn adjust_words(d: u64, u0: u64, q1: u64, q0: u64) -> (u64, u64) {
    let r = wrap64(u0 - wrap64(q1 * d));
    let (qa, ra) = if r > q0 {
        (wrap64(q1 + 0xffff_ffff_ffff_ffffu64), wrap64(r + d))
    } else {
        (q1, r)
    };
    if ra >= d {
        (wrap64(qa + 1), wrap64(ra - d))
    } else {
        (qa, ra)
    }
}

/// The algorithm on machine words: quotient and remainder of `(u1, u0)` by the normalized
/// divisor `d` with reciprocal `v`.
pub open spec fn div2by1_words(d: u64, v: u64, u1: u64, u0: u64) -> (u64, u64) {
    let (q1, q0) = estimate_words(v, u1, u0);
    adjust_words(d, u0, q1, q0)
}

/// On machine words the algorithm computes quotient and remainder.
pub proof fn lemma_div2by1_words(d: u64, v: u64, u1: u64, u0: u64)
    requires
        d >= 0x8000_0000_0000_0000,
        v == reciprocal(d as int),
        u1 < d,
    ensures
        div2by1_words(d, v, u1, u0).0 == (u1 * b64() + u0) / d as int,
        div2by1_words(d, v, u1, u0).1 == (u1 * b64() + u0) % d as int,
{
    let b = b64();
    let e = (b + v) * u1 + u0;
    let q0 = wrap64(wrap64(v * u1) + u0);
    let carry: u64 = if wrap64(v * u1) + u0 >= b64() {
        1
    } else {
        0
    };
    let hi = ((v * u1) / b) as u64;
    let lo = wrap64(v * u1);
    assert(0 <= v * u1 < b * b) by (nonlinear_arith)
        requires
            0 <= v < b,
            0 <= u1 < b,
    ;
    lemma_fundamental_div_mod(v * u1, b);
    lemma_quotient_below(v * u1, b, b);
    assert(v * u1 == b * hi + lo);
    // The estimate: high word `q1 - 1`, low word `q0`.
    let q1 = hi + u1 + carry + 1;
    assert(lo + u0 == carry * b + q0) by {
        lemma_fundamental_div_mod_converse(lo + u0, b, carry as int, lo + u0 - carry * b);
    }
    assert((q1 - 1) * b + q0 == e) by (nonlinear_arith)
        requires
            e == (b + v) * u1 + u0,
            v * u1 == b * hi + lo,
            lo + u0 == carry * b + q0,
            q1 == hi + u1 + carry + 1,
    ;
    lemma_div2by1(d as int, v as int, u1 as int, u0 as int, q1 as int, q0 as int);
    // Reduction to words keeps everything that the algorithm looks at.
    let q1w = wrap64(wrap64(wrap64(hi + u1) + carry) + 1);
    lemma_add_mod_noop(hi + u1, carry as int, b);
    lemma_small_mod(carry as nat, b as nat);
    lemma_add_mod_noop(hi + u1 + carry, 1, b);
    lemma_small_mod(1, b as nat);
    assert(q1w == q1 % b);
    let r = wrap64(u0 - q1 * d);
    assert(wrap64(u0 - wrap64(q1w * d)) == r) by {
        lemma_mul_mod_noop_left(q1 as int, d as int, b);
        assert(wrap64(q1w * d) == wrap64(q1 * d));
        lemma_sub_mod_noop_right(u0 as int, q1 * d, b);
    }
    let qa: int = if r > q0 {
        q1 - 1
    } else {
        q1 as int
    };
    let qaw = if r > q0 {
        wrap64(q1w + 0xffff_ffff_ffff_ffffu64)
    } else {
        q1w
    };
    assert(qaw == qa % b) by {
        lemma_add_mod_noop_right(0xffff_ffff_ffff_ffffint, q1 as int, b);
        lemma_mod_multiples_vanish(1, q1 - 1, b);
        lemma_mod_twice(q1 as int, b);
    }
    let ra = if r > q0 {
        wrap64(r + d)
    } else {
        r
    };
    if ra >= d {
        assert(wrap64(qaw + 1) == (qa + 1) % b) by {
            lemma_add_mod_noop_right(1, qa, b);
        }
        lemma_small_mod((qa + 1) as nat, b as nat);
        lemma_small_mod((ra - d) as nat, b as nat);
    } else {
        lemma_small_mod(qa as nat, b as nat);
    }
}

/// Division by the normalized divisor undoes the normalization: the quotient is the one by the
/// divisor itself, and the remainder is scaled.
pub proof fn lemma_denormalize(u: int, d: int, p: int)
    requires
        0 <= u,
        0 < d,
        0 < p,
    ensures
        (u * p) / (d * p) == u / d,
        ((u * p) % (d * p)) / p == u % d,
{
    let q = u / d;
    let r = u % d;
    lemma_fundamental_div_mod(u, d);
    assert(u * p == q * (d * p) + r * p) by (nonlinear_arith)
        requires
            u == d * q + r,
    ;
    assert(0 <= r * p < d * p) by (nonlinear_arith)
        requires
            0 <= r < d,
            0 < p,
    ;
    lemma_fundamental_div_mod_converse(u * p, d * p, q, r * p);
    lemma_div_by_multiple(r, p);
}

/// The algorithm on the shifted number and the normalized divisor gives the quotient by the
/// divisor itself, and a remainder that shifts back to the remainder by it.
pub proof fn lemma_div_normalized(
    u1: u64,
    u0: u64,
    n1: u64,
    n0: u64,
    d: u64,
    s: u64,
    d_norm: u64,
    v: u64,
)
    requires
        u1 < d,
        s < 64,
        d_norm >= 0x8000_0000_0000_0000,
        d_norm == d * pow2(s as nat),
        v == reciprocal(d_norm as int),
        wide(n1, n0) == (wide(u1, u0) * pow2(s as nat)) % (b64() * b64()),
    ensures
        div2by1_words(d_norm, v, n1, n0).0 == wide(u1, u0) / d as int,
        div2by1_words(d_norm, v, n1, n0).1 >> s == wide(u1, u0) % d as int,
        s == 0 ==> div2by1_words(d_norm, v, n1, n0).1 == wide(u1, u0) % d as int,
{
    let b = b64();
    let p = pow2(s as nat) as int;
    let u = wide(u1, u0);
    lemma_shr64(0, s);
    assert(0 <= u < d * b) by (nonlinear_arith)
        requires
            u == u1 * b + u0,
            0 <= u1 < d,
            0 <= u0 < b,
    ;
    assert(0 <= u * p < d_norm * b) by (nonlinear_arith)
        requires
            0 <= u < d * b,
            d_norm == d * p,
            p > 0,
    ;
    assert(d_norm * b < b * b) by (nonlinear_arith)
        requires
            0 < d_norm < b,
    ;
    lemma_small_mod((u * p) as nat, (b * b) as nat);
    assert(n1 < d_norm) by (nonlinear_arith)
        requires
            n1 * b + n0 < d_norm * b,
            n0 >= 0,
            b > 0,
    ;
    lemma_div2by1_words(d_norm, v, n1, n0);
    lemma_denormalize(u, d as int, p);
    lemma_shr64(div2by1_words(d_norm, v, n1, n0).1, s);
    lemma2_to64();
}

/// Long division of a two-word number by one word: the high word first, then what it leaves
/// together with the low word.
pub proof fn lemma_long_division(hi: u64, lo: u64, d: u64)
    requires
        d > 0,
    ensures
        ({
            let n = wide(hi, lo);
            let q_hi = hi as int / d as int;
            let u = (hi as int % d as int) * b64() + lo;
            &&& q_hi * d <= hi
            &&& hi - q_hi * d == hi as int % d as int
            &&& n / d as int == q_hi * b64() + u / d as int
            &&& n % d as int == u % d as int
        }),
{
    let b = b64();
    let (h, l, e) = (hi as int, lo as int, d as int);
    let q_hi = h / e;
    let r1 = h % e;
    let u = r1 * b + l;
    lemma_fundamental_div_mod(h, e);
    assert(q_hi * e <= h && h - q_hi * e == r1) by (nonlinear_arith)
        requires
            h == e * q_hi + r1,
            0 <= r1,
    ;
    let q_lo = u / e;
    let r = u % e;
    lemma_fundamental_div_mod(u, e);
    assert(h * b + l == (q_hi * b + q_lo) * e + r) by (nonlinear_arith)
        requires
            h == e * q_hi + r1,
            u == r1 * b + l,
            u == e * q_lo + r,
    ;
    lemma_fundamental_div_mod_converse(h * b + l, e, q_hi * b + q_lo, r);
}

/// A divisor that is one shifted by its own number of trailing zeros is that power of two.
pub proof fn lemma_power_of_two(d: u64, k: u64)
    requires
        k < 64,
        d == 1u64 << k,
    ensures
        d == pow2(k as nat),
{
    lemma_shl64(1, k);
    lemma2_to64_rest();
    lemma_pow2_strictly_increases(k as nat, 64);
}

/// Modulo a power of two only the low word counts, and there the low bits.
pub proof fn lemma_mod_power_of_two(hi: u64, lo: u64, d: u64, k: u64)
    requires
        k < 64,
        d == pow2(k as nat),
    ensures
        d > 0,
        (lo & ((d - 1) as u64)) as int == wide(hi, lo) % d as int,
{
    lemma_pow2_pos(k as nat);
    lemma_u64_low_bits_mask_is_mod(lo, k as nat);
    lemma2_to64_rest();
    lemma_pow2_adds(k as nat, (64 - k) as nat);
    let e = d as int;
    let p = pow2((64 - k) as nat) as int;
    assert(hi * b64() + lo == lo + e * (hi * p)) by (nonlinear_arith)
        requires
            b64() == e * p,
    ;
    lemma_mod_multiples_vanish(hi * p, lo as int, e);
}

} // verus!
