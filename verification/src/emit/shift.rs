//! Shifts and products of encoded 32-bit values that stay in the encoding.
use super::codeword::{checked, emit_an_codeword_validity_check, is_codeword};
use super::env::FuncEnvironment;
use super::wide::{pure, udiv_u128_by_u64_const, umod_u128_by_u64_const_to_i64};
use crate::arith::{lemma_scaled_mod, lemma_shl64};
use crate::clif::builder::{
    accepting, at, extends, group_emission, has_type, iconst, imul, ishl, lemma_extends_refl, loads,
    udiv, umulhi,
};
use crate::clif::machine::{b64, wide, wrap64, Machine, Ty, Value};
use cranelift_frontend::FunctionBuilder;
use vstd::arithmetic::div_mod::{
    lemma_div_multiples_vanish, lemma_fundamental_div_mod, lemma_mod_multiples_basic,
};
use vstd::arithmetic::power2::{
    lemma2_to64, lemma2_to64_rest, lemma_pow2_pos, lemma_pow2_strictly_increases, pow2,
};
use vstd::prelude::*;

verus! {

broadcast use group_emission;

/// The number of encoded 32-bit values times the constant: the modulus of encoded arithmetic.
pub open spec fn band32(a: int) -> int {
    a * 0x1_0000_0000
}

/// Both words of a product of two words.
proof fn lemma_product_words(x: u64, y: u64)
    ensures
        0 <= x * y < b64() * b64(),
        wide(((x * y) / b64()) as u64, wrap64(x * y)) == x * y,
{
    assert(0 <= x * y < b64() * b64()) by (nonlinear_arith)
        requires
            0 <= x < b64(),
            0 <= y < b64(),
    ;
    lemma_fundamental_div_mod(x * y, b64());
    assert(0 <= (x * y) / b64() < b64()) by (nonlinear_arith)
        requires
            0 <= x * y < b64() * b64(),
            x * y == b64() * ((x * y) / b64()) + (x * y) % b64(),
            0 <= (x * y) % b64() < b64(),
    ;
}

/// `2^k` as a word.
proof fn lemma_power_word(k: u64)
    requires
        k < 64,
    ensures
        (1u64 << k) == pow2(k as nat),
{
    lemma_shl64(1, k);
    lemma2_to64_rest();
    lemma_pow2_strictly_increases(k as nat, 64);
}

/// `a * 2^32` as a word.
proof fn lemma_band_word(a: u64)
    requires
        0 < a < 0x1_0000_0000,
    ensures
        (a << 32u64) == band32(a as int),
        (a << 32u64) > 0,
{
    lemma_shl64(a, 32);
    lemma2_to64();
}

/// Emits the left shift of the encoded value `enc_v` by the raw count `k_mod`: the product with
/// `2^k`, reduced modulo `A * 2^32`.
pub fn emit_an_shl_i32(
    builder: &mut FunctionBuilder<'_>,
    environ: &FuncEnvironment,
    enc_v: Value,
    k_mod: Value,
) -> (r: Value)
    requires
        accepting(*old(builder)),
        has_type(*old(builder), enc_v, Ty::I64),
        has_type(*old(builder), k_mod, Ty::I64),
        0 < environ.tunables.an_constant < 0x1_0000_0000,
    ensures
        extends(*old(builder), *final(builder)),
        loads(*final(builder)) == loads(*old(builder)),
        has_type(*final(builder), r, Ty::I64),
        forall|m: Machine|
            #![trigger at(*final(builder), m)]
            ({
                let (s, t) = (at(*old(builder), m), at(*final(builder), m));
                let k = s.env[k_mod] % 64;
                pure(s, t) && (s.trap is None ==> t.env[r] == (s.env[enc_v] * pow2(k as nat))
                    % band32(environ.tunables.an_constant as int))
            }),
{
    let ghost b0 = *builder;
    proof {
        lemma_extends_refl(b0);
    }
    let a: u64 = environ.tunables.an_constant;
    let one = iconst(builder, 1);
    let two_k = ishl(builder, one, k_mod);
    let p_lo = imul(builder, enc_v, two_k);
    let p_hi = umulhi(builder, enc_v, two_k);
    proof {
        lemma_band_word(a);
    }
    let aw: u64 = a << 32u64;
    let r = umod_u128_by_u64_const_to_i64(builder, p_hi, p_lo, aw);
    proof {
        let b1 = *builder;
        assert forall|m: Machine| #![trigger at(b1, m)] at(b0, m).trap is None implies at(
            b1,
            m,
        ).env[r] == (at(b0, m).env[enc_v] * pow2((at(b0, m).env[k_mod] % 64) as nat)) % band32(
            a as int,
        ) by {
            let k = at(b0, m).env[k_mod] % 64;
            lemma_power_word(k);
            lemma_product_words(at(b0, m).env[enc_v], 1u64 << k);
        }
    }
    r
}

/// Emits the logical right shift of the encoded value `enc_v` by the raw count `k_mod`, after
/// the codeword check: the quotient by `A * 2^k` is the shifted raw value, which is encoded
/// again. Counts up to 32 are meant.
pub fn emit_an_shr_u_i32(
    builder: &mut FunctionBuilder<'_>,
    environ: &FuncEnvironment,
    enc_v: Value,
    k_mod: Value,
) -> (r: Value)
    requires
        accepting(*old(builder)),
        has_type(*old(builder), enc_v, Ty::I64),
        has_type(*old(builder), k_mod, Ty::I64),
        0 < environ.tunables.an_constant < 0x1_0000_0000,
    ensures
        extends(*old(builder), *final(builder)),
        loads(*final(builder)) == loads(*old(builder)),
        has_type(*final(builder), r, Ty::I64),
        forall|m: Machine|
            #![trigger at(*final(builder), m)]
            ({
                let (s, t) = (at(*old(builder), m), at(*final(builder), m));
                let a = environ.tunables.an_constant as int;
                let (x, k) = (s.env[enc_v] as int, s.env[k_mod]);
                k <= 32 ==> {
                    &&& checked(a, x, s, t)
                    &&& s.trap is None && is_codeword(a, x) ==> t.env[r] == x / (a * pow2(
                        k as nat,
                    )) * a
                }
            }),
{
    let ghost b0 = *builder;
    proof {
        lemma_extends_refl(b0);
    }
    let a: u64 = environ.tunables.an_constant;
    emit_an_codeword_validity_check(builder, a, enc_v);
    let ghost b1 = *builder;
    let a_const = iconst(builder, a);
    let shift_div = ishl(builder, a_const, k_mod);
    let q = udiv(builder, enc_v, shift_div);
    let r = imul(builder, q, a_const);
    proof {
        let b2 = *builder;
        let e = a as int;
        assert forall|m: Machine| #![trigger at(b2, m)] at(b0, m).env[k_mod] <= 32 implies ({
            let (s, t) = (at(b0, m), at(b2, m));
            let (x, k) = (s.env[enc_v] as int, s.env[k_mod]);
            &&& checked(e, x, s, t)
            &&& s.trap is None && is_codeword(e, x) ==> t.env[r] == x / (e * pow2(k as nat)) * e
        }) by {
            let s = at(b0, m);
            let (x, k) = (s.env[enc_v], s.env[k_mod]);
            assert(at(b1, m).env[enc_v] == x);
            assert(at(b1, m).env[k_mod] == k);
            lemma_shl64(a, k);
            lemma_shift_divisor(a, k);
            lemma_quotient_times(x as int, e, pow2(k as nat) as int);
        }
    }
    r
}

/// The divisor of a right shift is one word.
proof fn lemma_shift_divisor(a: u64, k: u64)
    requires
        0 < a < 0x1_0000_0000,
        k <= 32,
    ensures
        0 < pow2(k as nat) <= 0x1_0000_0000,
        0 < a * pow2(k as nat) < b64(),
{
    lemma2_to64();
    lemma_pow2_pos(k as nat);
    if k < 32 {
        lemma_pow2_strictly_increases(k as nat, 32);
    }
    let p = pow2(k as nat) as int;
    assert(0 < a * p < b64()) by (nonlinear_arith)
        requires
            0 < a < 0x1_0000_0000,
            0 < p <= 0x1_0000_0000,
    ;
}

/// Encoding the quotient again does not exceed the number.
proof fn lemma_quotient_times(x: int, a: int, p: int)
    requires
        0 <= x,
        0 < a,
        0 < p,
        0 < a * p,
    ensures
        0 <= x / (a * p) * a <= x,
        0 <= x / (a * p) <= x,
{
    let q = x / (a * p);
    lemma_fundamental_div_mod(x, a * p);
    let r = x % (a * p);
    assert(0 <= q) by (nonlinear_arith)
        requires
            x == (a * p) * q + r,
            0 <= x,
            0 <= r < a * p,
            0 < a * p,
    ;
    assert(0 <= q * a <= x && q <= x) by (nonlinear_arith)
        requires
            x == (a * p) * q + r,
            0 <= r,
            0 <= q,
            0 < a,
            0 < p,
    ;
}

/// Emits the product of two encoded 32-bit values: the two-word product carries the constant
/// twice, one is divided out, and the rest is reduced modulo `A * 2^32`.
pub fn emit_an_mul_i32(
    builder: &mut FunctionBuilder<'_>,
    environ: &FuncEnvironment,
    arg1: Value,
    arg2: Value,
) -> (r: Value)
    requires
        accepting(*old(builder)),
        has_type(*old(builder), arg1, Ty::I64),
        has_type(*old(builder), arg2, Ty::I64),
        0 < environ.tunables.an_constant < 0x1_0000_0000,
    ensures
        extends(*old(builder), *final(builder)),
        loads(*final(builder)) == loads(*old(builder)),
        has_type(*final(builder), r, Ty::I64),
        forall|m: Machine|
            #![trigger at(*final(builder), m)]
            ({
                let (s, t) = (at(*old(builder), m), at(*final(builder), m));
                let a = environ.tunables.an_constant as int;
                pure(s, t) && (s.trap is None ==> t.env[r] == ((s.env[arg1] * s.env[arg2]) / a)
                    % band32(a))
            }),
{
    let ghost b0 = *builder;
    proof {
        lemma_extends_refl(b0);
    }
    let a: u64 = environ.tunables.an_constant;
    let p_lo = imul(builder, arg1, arg2);
    let p_hi = umulhi(builder, arg1, arg2);
    let (q_hi, q_lo) = udiv_u128_by_u64_const(builder, p_hi, p_lo, a);
    proof {
        lemma_band_word(a);
    }
    let aw: u64 = a << 32u64;
    let r = umod_u128_by_u64_const_to_i64(builder, q_hi, q_lo, aw);
    proof {
        let b1 = *builder;
        assert forall|m: Machine| #![trigger at(b1, m)] at(b0, m).trap is None implies at(
            b1,
            m,
        ).env[r] == ((at(b0, m).env[arg1] * at(b0, m).env[arg2]) / a as int) % band32(a as int) by {
            lemma_product_words(at(b0, m).env[arg1], at(b0, m).env[arg2]);
        }
    }
    r
}

/// On codewords the emitted left shift is the 32-bit left shift, encoded.
pub proof fn lemma_shl_encoded(a: int, v: int, k: nat)
    requires
        a > 0,
        0 <= v,
    ensures
        ((a * v) * pow2(k)) % band32(a) == a * ((v * pow2(k)) % 0x1_0000_0000),
{
    let p = pow2(k) as int;
    assert((a * v) * p == a * (v * p)) by (nonlinear_arith);
    lemma_scaled_mod(a, v * p, 0x1_0000_0000);
}

/// On codewords the emitted right shift is the logical right shift, encoded, and the check
/// passes.
pub proof fn lemma_shr_u_encoded(a: int, v: int, k: nat)
    requires
        a > 0,
        0 <= v,
    ensures
        is_codeword(a, a * v),
        (a * v) / (a * pow2(k)) * a == a * (v / pow2(k) as int),
{
    lemma_pow2_pos(k);
    lemma_scaled_mod(a, v, pow2(k) as int);
    lemma_mod_multiples_basic(v, a);
    assert(a * v == v * a) by (nonlinear_arith);
    assert((v / pow2(k) as int) * a == a * (v / pow2(k) as int)) by (nonlinear_arith);
}

/// On codewords the emitted product is the 32-bit product, encoded.
pub proof fn lemma_mul_encoded(a: int, n: int, m: int)
    requires
        a > 0,
        0 <= n,
        0 <= m,
    ensures
        (((a * n) * (a * m)) / a) % band32(a) == a * ((n * m) % 0x1_0000_0000),
{
    assert((a * n) * (a * m) == (a * (n * m)) * a) by (nonlinear_arith);
    lemma_div_multiples_vanish(a * (n * m), a);
    assert((a * (n * m)) * a == a * (a * (n * m))) by (nonlinear_arith);
    lemma_scaled_mod(a, n * m, 0x1_0000_0000);
}

} // verus!
