//! Facts on machine words as numbers: shifts, and division by an invariant divisor.
use crate::clif::machine::{b64, wide, wrap64};
use vstd::arithmetic::div_mod::*;
use vstd::arithmetic::mul::*;
use vstd::arithmetic::power2::*;
use vstd::bits::*;
use vstd::prelude::*;

verus! {

/// A left shift is a multiplication by a power of two, reduced to 64 bits.
pub proof fn lemma_shl64(x: u64, k: u64)
    requires
        k < 64,
    ensures
        (x << k) == wrap64(x * pow2(k as nat)),
    decreases k,
{
    lemma2_to64();
    if k == 0 {
        assert(x << 0 == x) by (bit_vector);
    } else {
        let j = (k - 1) as u64;
        lemma_shl64(x, j);
        let y = x << j;
        assert(x << k == y << 1) by (bit_vector)
            requires
                0 < k < 64,
                j == k - 1,
                y == x << j,
        ;
        assert((y << 1) == (2 * y) % 0x1_0000_0000_0000_0000) by (bit_vector);
        lemma_pow2_unfold(k as nat);
        let p = pow2(j as nat) as int;
        assert(x * pow2(k as nat) == 2 * (x * p)) by (nonlinear_arith)
            requires
                pow2(k as nat) == 2 * p,
        ;
        lemma_mul_mod_noop_right(2, x * p, b64());
    }
}

/// A right shift is a division by a power of two.
pub proof fn lemma_shr64(x: u64, k: u64)
    requires
        k < 64,
    ensures
        (x >> k) as int == x as int / pow2(k as nat) as int,
        0 < pow2(k as nat) < b64(),
{
    lemma_u64_shr_is_div(x, k);
    lemma_pow2_pos(k as nat);
    lemma2_to64_rest();
    lemma_pow2_strictly_increases(k as nat, 64);
}

/// A left shift of a two-word number by less than a word.
proof fn lemma_wide_shl(hi: u64, lo: u64, k: u64)
    requires
        0 < k < 64,
    ensures
        wide((hi << k) | (lo >> ((64 - k) as u64)), lo << k) == (wide(hi, lo) * pow2(k as nat)) % (
        b64() * b64()),
{
    let b = b64();
    let j = (64 - k) as u64;
    let p = pow2(k as nat) as int;
    let q = pow2(j as nat) as int;
    let h = hi << k;
    let c = lo >> j;
    let l = lo << k;
    lemma_shl64(hi, k);
    lemma_shl64(lo, k);
    lemma_shr64(lo, j);
    lemma_shr64(lo, k);
    lemma2_to64_rest();
    lemma_pow2_adds(k as nat, j as nat);
    assert(p * q == b);
    assert((h | c) == h + c && h + c <= 0xffff_ffff_ffff_ffff) by (bit_vector)
        requires
            0 < k < 64,
            j == 64 - k,
            h == hi << k,
            c == lo >> j,
    ;
    // The low word, shifted, is `c` carried out and `l` kept.
    let e = lo as int % q;
    lemma_fundamental_div_mod(lo as int, q);
    assert(lo * p == c * b + e * p) by (nonlinear_arith)
        requires
            lo == q * c + e,
            p * q == b,
    ;
    assert(0 <= e * p < b) by (nonlinear_arith)
        requires
            0 <= e < q,
            p > 0,
            p * q == b,
    ;
    lemma_fundamental_div_mod_converse(lo * p, b, c as int, e * p);
    assert(l == e * p);
    // The high word, shifted, loses what leaves the second word.
    let g = hi * p / b;
    lemma_fundamental_div_mod(hi * p, b);
    let n = wide(hi, lo) * p;
    assert(n == g * (b * b) + ((h + c) * b + l)) by (nonlinear_arith)
        requires
            n == (hi * b + lo) * p,
            hi * p == b * g + h,
            lo * p == c * b + l,
    ;
    assert(0 <= (h + c) * b + l < b * b) by (nonlinear_arith)
        requires
            0 <= h + c < b,
            0 <= l < b,
    ;
    lemma_fundamental_div_mod_converse(n, b * b, g, (h + c) * b + l);
}

/// A right shift of a two-word number by less than a word.
proof fn lemma_wide_shr(hi: u64, lo: u64, k: u64)
    requires
        0 < k < 64,
    ensures
        wide(hi >> k, (lo >> k) | (hi << ((64 - k) as u64))) == wide(hi, lo) / pow2(k as nat) as int,
{
    let b = b64();
    let j = (64 - k) as u64;
    let p = pow2(k as nat) as int;
    let q = pow2(j as nat) as int;
    let h = hi >> k;
    let c = hi << j;
    let l = lo >> k;
    lemma_shl64(hi, j);
    lemma_shr64(lo, k);
    lemma_shr64(hi, k);
    lemma_shr64(hi, j);
    lemma2_to64_rest();
    lemma_pow2_adds(k as nat, j as nat);
    assert(p * q == b);
    assert((l | c) == l + c && l + c <= 0xffff_ffff_ffff_ffff) by (bit_vector)
        requires
            0 < k < 64,
            j == 64 - k,
            c == hi << j,
            l == lo >> k,
    ;
    let e = hi as int % p;
    lemma_fundamental_div_mod(hi as int, p);
    assert(hi * q == h * b + e * q) by (nonlinear_arith)
        requires
            hi == p * h + e,
            p * q == b,
    ;
    assert(0 <= e * q < b) by (nonlinear_arith)
        requires
            0 <= e < p,
            q > 0,
            p * q == b,
    ;
    lemma_fundamental_div_mod_converse(hi * q, b, h as int, e * q);
    assert(c == e * q);
    let f = lo as int % p;
    lemma_fundamental_div_mod(lo as int, p);
    let n = wide(hi, lo);
    assert(n == (h * b + (l + c)) * p + f) by (nonlinear_arith)
        requires
            n == hi * b + lo,
            hi == p * h + e,
            lo == p * l + f,
            c == e * q,
            p * q == b,
    ;
    lemma_fundamental_div_mod_converse(n, p, h * b + (l + c), f);
}

/// The words of a two-word number shifted left.
pub open spec fn shl_words(hi: u64, lo: u64, k: u32) -> (u64, u64) {
    if k == 0 {
        (hi, lo)
    } else if k < 64 {
        ((hi << k as u64) | (lo >> (64 - k) as u64), lo << k as u64)
    } else if k == 64 {
        (lo, 0)
    } else if k < 128 {
        (lo << (k - 64) as u64, 0)
    } else {
        (0, 0)
    }
}

/// The words of a two-word number shifted right.
pub open spec fn shr_words(hi: u64, lo: u64, k: u32) -> (u64, u64) {
    if k == 0 {
        (hi, lo)
    } else if k < 64 {
        (hi >> k as u64, (lo >> k as u64) | (hi << (64 - k) as u64))
    } else if k == 64 {
        (0, hi)
    } else if k < 128 {
        (0, hi >> (k - 64) as u64)
    } else {
        (0, 0)
    }
}

/// Shifting the words left multiplies the number, modulo 2^128.
pub proof fn lemma_shl_words(hi: u64, lo: u64, k: u32)
    ensures
        ({
            let (h, l) = shl_words(hi, lo, k);
            wide(h, l) == (wide(hi, lo) * pow2(k as nat)) % (b64() * b64())
        }),
{
    let b = b64();
    let n = wide(hi, lo);
    lemma2_to64();
    lemma2_to64_rest();
    if k == 0 {
        assert(0 <= n < b * b) by (nonlinear_arith)
            requires
                n == hi * b + lo,
                0 <= hi < b,
                0 <= lo < b,
        ;
        lemma_small_mod(n as nat, (b * b) as nat);
    } else if k < 64 {
        lemma_wide_shl(hi, lo, k as u64);
    } else if k < 128 {
        let j = (k - 64) as u64;
        let p = pow2(j as nat) as int;
        lemma_pow2_adds(64, j as nat);
        assert(n * pow2(k as nat) == (lo * p) * b + (hi * p) * (b * b)) by (nonlinear_arith)
            requires
                n == hi * b + lo,
                pow2(k as nat) == b * p,
        ;
        assert(lo << 0u64 == lo) by (bit_vector);
        lemma_shl64(lo, j);
        let l = lo << j;
        let g = lo * p / b;
        lemma_fundamental_div_mod(lo * p, b);
        assert((lo * p) * b + (hi * p) * (b * b) == (hi * p + g) * (b * b) + l * b)
            by (nonlinear_arith)
            requires
                lo * p == b * g + l,
        ;
        assert(0 <= l * b < b * b) by (nonlinear_arith)
            requires
                0 <= l < b,
        ;
        lemma_fundamental_div_mod_converse(n * pow2(k as nat), b * b, hi * p + g, l * b);
    } else {
        let p = pow2((k - 128) as nat) as int;
        lemma_pow2_adds(64, 64);
        lemma_pow2_adds(128, (k - 128) as nat);
        assert(n * pow2(k as nat) == (n * p) * (b * b) + 0) by (nonlinear_arith)
            requires
                pow2(k as nat) == (b * b) * p,
        ;
        lemma_fundamental_div_mod_converse(n * pow2(k as nat), b * b, n * p, 0);
    }
}

/// Shifting the words right divides the number.
pub proof fn lemma_shr_words(hi: u64, lo: u64, k: u32)
    ensures
        ({
            let (h, l) = shr_words(hi, lo, k);
            wide(h, l) == wide(hi, lo) / pow2(k as nat) as int
        }),
{
    let b = b64();
    let n = wide(hi, lo);
    lemma2_to64();
    lemma2_to64_rest();
    if k == 0 {
    } else if k < 64 {
        lemma_wide_shr(hi, lo, k as u64);
    } else if k < 128 {
        let j = (k - 64) as u64;
        lemma_pow2_adds(64, j as nat);
        assert(hi >> 0u64 == hi) by (bit_vector);
        lemma_shr64(hi, j);
        lemma_fundamental_div_mod_converse(n, b, hi as int, lo as int);
        lemma_div_denominator(n, b, pow2(j as nat) as int);
    } else {
        assert(0 <= n < b * b) by (nonlinear_arith)
            requires
                n == hi * b + lo,
                0 <= hi < b,
                0 <= lo < b,
        ;
        lemma_pow2_adds(64, 64);
        lemma_pow2_adds(128, (k - 128) as nat);
        lemma_pow2_pos((k - 128) as nat);
        assert(n < pow2(k as nat)) by (nonlinear_arith)
            requires
                n < b * b,
                pow2(k as nat) == (b * b) * pow2((k - 128) as nat),
                pow2((k - 128) as nat) >= 1,
                b > 0,
        ;
        lemma_basic_div(n, pow2(k as nat) as int);
    }
}

/// Shifting a divisor by its leading zeros normalizes it.
pub proof fn lemma_normalize(d: u64, s: u64)
    requires
        d > 0,
        s as int == vstd::std_specs::bits::u64_leading_zeros(d),
    ensures
        s < 64,
        d << s >= 0x8000_0000_0000_0000,
        (d << s) as int == d * pow2(s as nat),
{
    vstd::std_specs::bits::axiom_u64_leading_zeros(d);
    let top = (63 - s) as u64;
    let above = (64 - s) as u64;
    assert(d << s >= 0x8000_0000_0000_0000 && (d << s) >> s == d) by (bit_vector)
        requires
            s < 64,
            top == 63 - s,
            above == 64 - s,
            (d >> top) & 1u64 != 0u64,
            d >> above == 0,
    ;
    let n = d << s;
    let p = pow2(s as nat) as int;
    lemma_shr64(n, s);
    lemma_shl64(d, s);
    lemma_fundamental_div_mod(n as int, p);
    assert(d * p <= n) by (nonlinear_arith)
        requires
            n == p * d + n as int % p,
            0 <= n as int % p,
    ;
    lemma_small_mod((d * p) as nat, b64() as nat);
}

/// A common factor can be taken out of a quotient and a remainder.
pub proof fn lemma_scaled_mod(a: int, x: int, n: int)
    requires
        a > 0,
        n > 0,
    ensures
        (a * x) % (a * n) == a * (x % n),
        (a * x) / (a * n) == x / n,
{
    let (q, r) = (x / n, x % n);
    lemma_fundamental_div_mod(x, n);
    assert(a * x == q * (a * n) + a * r && 0 <= a * r < a * n) by (nonlinear_arith)
        requires
            x == n * q + r,
            0 <= r < n,
            a > 0,
    ;
    lemma_fundamental_div_mod_converse(a * x, a * n, q, a * r);
}

} // verus!
