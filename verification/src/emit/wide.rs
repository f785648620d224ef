//! Arithmetic on two-word numbers, built from 64-bit instructions.
use crate::arith::{lemma_normalize, lemma_shl_words, lemma_shr_words};
use crate::clif::builder::{
    accepting, at, band, bor, extends, group_emission, has_type, iadd, iadd_imm, iconst, imul,
    int_compare, ishl_imm, isub, lemma_extends_refl, loads, select, uadd_overflow, udiv, uextend,
    umulhi, ushr_imm,
};
use crate::clif::machine::{b64, wide, Cond, Machine, Ty, Value};
use crate::division::{
    adjust_words, estimate_words, lemma_div_normalized, lemma_long_division,
    lemma_mod_power_of_two, lemma_power_of_two, precompute_recip,
};
use cranelift_frontend::FunctionBuilder;
use vstd::arithmetic::power2::pow2;
use vstd::prelude::*;

verus! {

broadcast use group_emission;

/// The code between two states ran through and left memory alone.
pub open spec fn pure(s: Machine, t: Machine) -> bool {
    s.trap is None ==> t.trap is None && t.mem == s.mem
}

/// Emits a logical right shift of the two-word number `(n_hi, n_lo)` by the constant `k`.
/// Returns the two words of the result.
pub fn ushr_pair(builder: &mut FunctionBuilder<'_>, n_hi: Value, n_lo: Value, k: u32) -> (r: (
    Value,
    Value,
))
    requires
        accepting(*old(builder)),
        has_type(*old(builder), n_hi, Ty::I64),
        has_type(*old(builder), n_lo, Ty::I64),
    ensures
        extends(*old(builder), *final(builder)),
        loads(*final(builder)) == loads(*old(builder)),
        has_type(*final(builder), r.0, Ty::I64),
        has_type(*final(builder), r.1, Ty::I64),
        forall|m: Machine|
            #![trigger at(*final(builder), m)]
            ({
                let (s, t) = (at(*old(builder), m), at(*final(builder), m));
                pure(s, t) && (s.trap is None ==> wide(t.env[r.0], t.env[r.1]) == wide(s.env[n_hi], s.env[n_lo]) / pow2(k as nat) as int)
            }),
{
    let ghost b0 = *builder;
    proof {
        lemma_extends_refl(b0);
    }
    let r = if k == 0 {
        (n_hi, n_lo)
    } else {
        let zero = iconst(builder, 0);
        if k >= 128 {
            (zero, zero)
        } else if k == 64 {
            (zero, n_hi)
        } else if k > 64 {
            let lo = ushr_imm(builder, n_hi, (k - 64) as u64);
            (zero, lo)
        } else {
            let lo_part = ushr_imm(builder, n_lo, k as u64);
            let hi_into_lo = ishl_imm(builder, n_hi, (64 - k) as u64);
            let new_lo = bor(builder, lo_part, hi_into_lo);
            let new_hi = ushr_imm(builder, n_hi, k as u64);
            (new_hi, new_lo)
        }
    };
    proof {
        let b1 = *builder;
        assert forall|m: Machine| #![trigger at(b1, m)] at(b0, m).trap is None implies ({
            let (s, t) = (at(b0, m), at(b1, m));
            wide(t.env[r.0], t.env[r.1]) == wide(s.env[n_hi], s.env[n_lo]) / pow2(k as nat) as int
        }) by {
            lemma_shr_words(at(b0, m).env[n_hi], at(b0, m).env[n_lo], k);
        }
    }
    r
}

/// Emits a logical left shift of the two-word number `(n_hi, n_lo)` by the constant `k`.
/// Returns the two words of the result.
pub fn ishl_pair(builder: &mut FunctionBuilder<'_>, n_hi: Value, n_lo: Value, k: u32) -> (r: (
    Value,
    Value,
))
    requires
        accepting(*old(builder)),
        has_type(*old(builder), n_hi, Ty::I64),
        has_type(*old(builder), n_lo, Ty::I64),
    ensures
        extends(*old(builder), *final(builder)),
        loads(*final(builder)) == loads(*old(builder)),
        has_type(*final(builder), r.0, Ty::I64),
        has_type(*final(builder), r.1, Ty::I64),
        forall|m: Machine|
            #![trigger at(*final(builder), m)]
            ({
                let (s, t) = (at(*old(builder), m), at(*final(builder), m));
                pure(s, t) && (s.trap is None ==> wide(t.env[r.0], t.env[r.1]) == (wide(s.env[n_hi], s.env[n_lo]) * pow2(k as nat)) % (b64() * b64()))
            }),
{
    let ghost b0 = *builder;
    proof {
        lemma_extends_refl(b0);
    }
    let r = if k == 0 {
        (n_hi, n_lo)
    } else {
        let zero = iconst(builder, 0);
        if k >= 128 {
            (zero, zero)
        } else if k == 64 {
            (n_lo, zero)
        } else if k > 64 {
            let hi = ishl_imm(builder, n_lo, (k - 64) as u64);
            (hi, zero)
        } else {
            let new_lo = ishl_imm(builder, n_lo, k as u64);
            let lo_into_hi = ushr_imm(builder, n_lo, (64 - k) as u64);
            let hi_part = ishl_imm(builder, n_hi, k as u64);
            let new_hi = bor(builder, hi_part, lo_into_hi);
            (new_hi, new_lo)
        }
    };
    proof {
        let b1 = *builder;
        assert forall|m: Machine| #![trigger at(b1, m)] at(b0, m).trap is None implies ({
            let (s, t) = (at(b0, m), at(b1, m));
            wide(t.env[r.0], t.env[r.1]) == (wide(s.env[n_hi], s.env[n_lo]) * pow2(k as nat)) % (b64() * b64())
        }) by {
            lemma_shl_words(at(b0, m).env[n_hi], at(b0, m).env[n_lo], k);
        }
    }
    r
}

/// Emits the quotient estimate `v * un_hi + (un_hi, un_lo)`. Returns its high word plus one, and
/// its low word.
fn emit_estimate(
    builder: &mut FunctionBuilder<'_>,
    v_const: Value,
    un_hi: Value,
    un_lo: Value,
) -> (r: (Value, Value))
    requires
        accepting(*old(builder)),
        has_type(*old(builder), v_const, Ty::I64),
        has_type(*old(builder), un_hi, Ty::I64),
        has_type(*old(builder), un_lo, Ty::I64),
    ensures
        extends(*old(builder), *final(builder)),
        loads(*final(builder)) == loads(*old(builder)),
        has_type(*final(builder), r.0, Ty::I64),
        has_type(*final(builder), r.1, Ty::I64),
        forall|m: Machine|
            #![trigger at(*final(builder), m)]
            ({
                let (s, t) = (at(*old(builder), m), at(*final(builder), m));
                pure(s, t) && (s.trap is None ==> (t.env[r.0], t.env[r.1]) == estimate_words(
                    s.env[v_const],
                    s.env[un_hi],
                    s.env[un_lo],
                ))
            }),
{
    proof {
        lemma_extends_refl(*builder);
    }
    let q0_init = imul(builder, v_const, un_hi);
    let q1_init = umulhi(builder, v_const, un_hi);
    let (q0_full, c0) = uadd_overflow(builder, q0_init, un_lo);
    let c0_64 = uextend(builder, Ty::I64, c0);
    let q1_plus_un_hi = iadd(builder, q1_init, un_hi);
    let q1_full = iadd(builder, q1_plus_un_hi, c0_64);
    let q1_inc = iadd_imm(builder, q1_full, 1);
    (q1_inc, q0_full)
}

/// Emits the two adjustments of an estimate `(q1, q0)`. Returns quotient and remainder.
fn emit_adjust(
    builder: &mut FunctionBuilder<'_>,
    d_norm_const: Value,
    un_lo: Value,
    q1: Value,
    q0: Value,
) -> (r: (Value, Value))
    requires
        accepting(*old(builder)),
        has_type(*old(builder), d_norm_const, Ty::I64),
        has_type(*old(builder), un_lo, Ty::I64),
        has_type(*old(builder), q1, Ty::I64),
        has_type(*old(builder), q0, Ty::I64),
    ensures
        extends(*old(builder), *final(builder)),
        loads(*final(builder)) == loads(*old(builder)),
        has_type(*final(builder), r.0, Ty::I64),
        has_type(*final(builder), r.1, Ty::I64),
        forall|m: Machine|
            #![trigger at(*final(builder), m)]
            ({
                let (s, t) = (at(*old(builder), m), at(*final(builder), m));
                pure(s, t) && (s.trap is None ==> (t.env[r.0], t.env[r.1]) == adjust_words(
                    s.env[d_norm_const],
                    s.env[un_lo],
                    s.env[q1],
                    s.env[q0],
                ))
            }),
{
    proof {
        lemma_extends_refl(*builder);
    }
    // r = un_lo - q1 * d_norm (low word)
    let q1d = imul(builder, q1, d_norm_const);
    let r_init = isub(builder, un_lo, q1d);

    // Adjust 1: if r > q0 then q1 -= 1 and r += d_norm.
    let r_gt_q0 = int_compare(builder, Cond::UnsignedGreaterThan, r_init, q0);
    let q1_dec = iadd_imm(builder, q1, 0xffff_ffff_ffff_ffff);
    let q1_after1 = select(builder, r_gt_q0, q1_dec, q1);
    let r_added = iadd(builder, r_init, d_norm_const);
    let r_after1 = select(builder, r_gt_q0, r_added, r_init);

    // Adjust 2: if r >= d_norm then q1 += 1 and r -= d_norm.
    let r_ge_d = int_compare(
        builder,
        Cond::UnsignedGreaterThanOrEqual,
        r_after1,
        d_norm_const,
    );
    let q1_inc2 = iadd_imm(builder, q1_after1, 1);
    let q1_final = select(builder, r_ge_d, q1_inc2, q1_after1);
    let r_sub = isub(builder, r_after1, d_norm_const);
    let r_after2 = select(builder, r_ge_d, r_sub, r_after1);
    (q1_final, r_after2)
}

/// Emits the division of the two-word number `(u_hi, u_lo)` by the constant `d`. Returns the
/// quotient, which is one word where the high word is below `d`, and the remainder.
///
/// The divisor is normalized and its reciprocal precomputed here; the number is shifted by the
/// same amount at run time, and the remainder shifted back.
pub fn div2by1_mg(builder: &mut FunctionBuilder<'_>, u_hi: Value, u_lo: Value, d: u64) -> (r: (
    Value,
    Value,
))
    requires
        accepting(*old(builder)),
        has_type(*old(builder), u_hi, Ty::I64),
        has_type(*old(builder), u_lo, Ty::I64),
        d > 0,
    ensures
        extends(*old(builder), *final(builder)),
        loads(*final(builder)) == loads(*old(builder)),
        has_type(*final(builder), r.0, Ty::I64),
        has_type(*final(builder), r.1, Ty::I64),
        forall|m: Machine|
            #![trigger at(*final(builder), m)]
            ({
                let (s, t) = (at(*old(builder), m), at(*final(builder), m));
                let u = wide(s.env[u_hi], s.env[u_lo]);
                pure(s, t) && (s.trap is None && s.env[u_hi] < d ==> t.env[r.0] == u / d as int
                    && t.env[r.1] == u % d as int)
            }),
{
    let ghost b0 = *builder;
    proof {
        lemma_extends_refl(b0);
    }
    let s: u32 = d.leading_zeros();
    proof {
        lemma_normalize(d, s as u64);
    }
    let d_norm: u64 = d << (s as u64);
    let v = precompute_recip(d_norm);

    let (un_hi, un_lo) = ishl_pair(builder, u_hi, u_lo, s);
    let ghost b1 = *builder;

    let v_const = iconst(builder, v);
    let d_norm_const = iconst(builder, d_norm);

    let (q1, q0) = emit_estimate(builder, v_const, un_hi, un_lo);
    let (q1_final, r_after2) = emit_adjust(builder, d_norm_const, un_lo, q1, q0);
    let ghost b2 = *builder;

    // Only the remainder is to be scaled back.
    let r_final = if s == 0 {
        r_after2
    } else {
        ushr_imm(builder, r_after2, s as u64)
    };
    proof {
        let b3 = *builder;
        assert forall|m: Machine|
            #![trigger at(b3, m)]
            at(b0, m).trap is None && at(b0, m).env[u_hi] < d implies ({
            let (s0, t) = (at(b0, m), at(b3, m));
            let u = wide(s0.env[u_hi], s0.env[u_lo]);
            t.env[q1_final] == u / d as int && t.env[r_final] == u % d as int
        }) by {
            let (s0, s1, t) = (at(b0, m), at(b1, m), at(b2, m));
            lemma_div_normalized(
                s0.env[u_hi],
                s0.env[u_lo],
                s1.env[un_hi],
                s1.env[un_lo],
                d,
                s as u64,
                d_norm,
                v,
            );
            assert(at(b3, m).env[q1_final] == at(b2, m).env[q1_final]);
        }
    }
    (q1_final, r_final)
}

/// Emits the two words of the high word's share of a division by the constant `d`: its quotient
/// and its remainder.
fn emit_high_word(builder: &mut FunctionBuilder<'_>, n_hi: Value, d: u64) -> (r: (Value, Value))
    requires
        accepting(*old(builder)),
        has_type(*old(builder), n_hi, Ty::I64),
        d > 0,
    ensures
        extends(*old(builder), *final(builder)),
        loads(*final(builder)) == loads(*old(builder)),
        has_type(*final(builder), r.0, Ty::I64),
        has_type(*final(builder), r.1, Ty::I64),
        forall|m: Machine|
            #![trigger at(*final(builder), m)]
            ({
                let (s, t) = (at(*old(builder), m), at(*final(builder), m));
                pure(s, t) && (s.trap is None ==> t.env[r.0] == s.env[n_hi] as int / d as int
                    && t.env[r.1] == s.env[n_hi] as int % d as int)
            }),
{
    let ghost b0 = *builder;
    proof {
        lemma_extends_refl(b0);
    }
    let d_const = iconst(builder, d);
    let q_hi = udiv(builder, n_hi, d_const);
    let q_hi_d = imul(builder, q_hi, d_const);
    let r1 = isub(builder, n_hi, q_hi_d);
    proof {
        let b1 = *builder;
        assert forall|m: Machine| #![trigger at(b1, m)] at(b0, m).trap is None implies at(
            b1,
            m,
        ).env[q_hi] == at(b0, m).env[n_hi] as int / d as int && at(b1, m).env[r1] == at(b0, m).env[n_hi] as int % d as int by {
            lemma_long_division(at(b0, m).env[n_hi], 0, d);
        }
    }
    (q_hi, r1)
}

/// Emits the division of the two-word number `(n_hi, n_lo)` by the constant `d`. Returns the two
/// words of the quotient.
pub fn udiv_u128_by_u64_const(
    builder: &mut FunctionBuilder<'_>,
    n_hi: Value,
    n_lo: Value,
    d: u64,
) -> (r: (Value, Value))
    requires
        accepting(*old(builder)),
        has_type(*old(builder), n_hi, Ty::I64),
        has_type(*old(builder), n_lo, Ty::I64),
        d > 0,
    ensures
        extends(*old(builder), *final(builder)),
        loads(*final(builder)) == loads(*old(builder)),
        has_type(*final(builder), r.0, Ty::I64),
        has_type(*final(builder), r.1, Ty::I64),
        forall|m: Machine|
            #![trigger at(*final(builder), m)]
            ({
                let (s, t) = (at(*old(builder), m), at(*final(builder), m));
                pure(s, t) && (s.trap is None ==> wide(t.env[r.0], t.env[r.1]) == wide(
                    s.env[n_hi],
                    s.env[n_lo],
                ) / d as int)
            }),
{
    let ghost b0 = *builder;
    proof {
        lemma_extends_refl(b0);
    }
    if d == 1 {
        return (n_hi, n_lo);
    }
    let k: u32 = d.trailing_zeros();
    proof {
        vstd::std_specs::bits::axiom_u64_trailing_zeros(d);
    }
    if d == 1u64 << (k as u64) {
        proof {
            lemma_power_of_two(d, k as u64);
        }
        return ushr_pair(builder, n_hi, n_lo, k);
    }
    let (q_hi, r1) = emit_high_word(builder, n_hi, d);
    let (q_lo, _r) = div2by1_mg(builder, r1, n_lo, d);
    proof {
        let b1 = *builder;
        assert forall|m: Machine| #![trigger at(b1, m)] at(b0, m).trap is None implies wide(
            at(b1, m).env[q_hi],
            at(b1, m).env[q_lo],
        ) == wide(at(b0, m).env[n_hi], at(b0, m).env[n_lo]) / d as int by {
            lemma_long_division(at(b0, m).env[n_hi], at(b0, m).env[n_lo], d);
        }
    }
    (q_hi, q_lo)
}

/// Emits the remainder of the two-word number `(n_hi, n_lo)` divided by the constant `d`, which
/// is one word.
pub fn umod_u128_by_u64_const_to_i64(
    builder: &mut FunctionBuilder<'_>,
    n_hi: Value,
    n_lo: Value,
    d: u64,
) -> (r: Value)
    requires
        accepting(*old(builder)),
        has_type(*old(builder), n_hi, Ty::I64),
        has_type(*old(builder), n_lo, Ty::I64),
        d > 0,
    ensures
        extends(*old(builder), *final(builder)),
        loads(*final(builder)) == loads(*old(builder)),
        has_type(*final(builder), r, Ty::I64),
        forall|m: Machine|
            #![trigger at(*final(builder), m)]
            ({
                let (s, t) = (at(*old(builder), m), at(*final(builder), m));
                pure(s, t) && (s.trap is None ==> t.env[r] == wide(s.env[n_hi], s.env[n_lo])
                    % d as int)
            }),
{
    let ghost b0 = *builder;
    proof {
        lemma_extends_refl(b0);
    }
    if d == 1 {
        return iconst(builder, 0);
    }
    let k: u32 = d.trailing_zeros();
    proof {
        vstd::std_specs::bits::axiom_u64_trailing_zeros(d);
    }
    if d == 1u64 << (k as u64) {
        proof {
            lemma_power_of_two(d, k as u64);
        }
        let mask_const = iconst(builder, d - 1);
        let low = band(builder, n_lo, mask_const);
        proof {
            let b1 = *builder;
            assert forall|m: Machine| #![trigger at(b1, m)] at(b0, m).trap is None implies at(
                b1,
                m,
            ).env[low] == wide(at(b0, m).env[n_hi], at(b0, m).env[n_lo]) % d as int by {
                lemma_mod_power_of_two(at(b0, m).env[n_hi], at(b0, m).env[n_lo], d, k as u64);
            }
        }
        return low;
    }
    let (_q_hi, r1) = emit_high_word(builder, n_hi, d);
    let (_q, r) = div2by1_mg(builder, r1, n_lo, d);
    proof {
        let b1 = *builder;
        assert forall|m: Machine| #![trigger at(b1, m)] at(b0, m).trap is None implies at(
            b1,
            m,
        ).env[r] == wide(at(b0, m).env[n_hi], at(b0, m).env[n_lo]) % d as int by {
            lemma_long_division(at(b0, m).env[n_hi], at(b0, m).env[n_lo], d);
        }
    }
    r
}

} // verus!
