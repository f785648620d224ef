//! Encoding, checking and decoding of single words.
use super::env::FuncEnvironment;
use crate::clif::builder::{
    accepting, at, extends, group_emission, has_type, iadd_imm, iconst, imul, ireduce,
    lemma_extends_refl, loads, select, trapnz, udiv, uextend, urem,
};
use crate::clif::machine::{wrap64, Machine, TrapReason, Ty, Value};
use crate::emit::wide::pure;
use crate::traps::TRAP_AN_CODEWORD_INVALID;
use cranelift_frontend::FunctionBuilder;
use vstd::prelude::*;

verus! {

broadcast use group_emission;

/// A word that is a multiple of the encoding constant.
pub open spec fn is_codeword(a: int, x: int) -> bool {
    x % a == 0
}

/// The code between two states checked word `x`: it ran through where `x` is a codeword and
/// stopped with the codeword trap where it is not. It left memory alone.
pub open spec fn checked(a: int, x: int, s: Machine, t: Machine) -> bool {
    s.trap is None ==> {
        &&& t.mem == s.mem
        &&& t.trap == if is_codeword(a, x) {
            None::<TrapReason>
        } else {
            Some(TrapReason::User(TRAP_AN_CODEWORD_INVALID))
        }
    }
}

/// Emits the check that `val_i64` is a codeword. Where the constant is one every word is, and
/// nothing is emitted.
pub fn emit_an_codeword_validity_check(
    builder: &mut FunctionBuilder<'_>,
    a: u64,
    val_i64: Value,
)
    requires
        accepting(*old(builder)),
        has_type(*old(builder), val_i64, Ty::I64),
        a > 0,
    ensures
        extends(*old(builder), *final(builder)),
        loads(*final(builder)) == loads(*old(builder)),
        a == 1 ==> *final(builder) == *old(builder),
        forall|m: Machine|
            #![trigger at(*final(builder), m)]
            checked(
                a as int,
                at(*old(builder), m).env[val_i64] as int,
                at(*old(builder), m),
                at(*final(builder), m),
            ),
{
    proof {
        lemma_extends_refl(*builder);
    }
    if a == 1 {
        return ;
    }
    let a_const = iconst(builder, a);
    let r = urem(builder, val_i64, a_const);
    trapnz(builder, r, TRAP_AN_CODEWORD_INVALID);
}

/// Emits the decoding of an encoded 32-bit value that leaves the encoding: the injected fault
/// is added where there is one, the word is checked, and the quotient by the constant is reduced
/// to 32 bits.
pub fn emit_an_conversion_decode_i32(
    builder: &mut FunctionBuilder<'_>,
    environ: &FuncEnvironment,
    enc_v: Value,
) -> (r: Value)
    requires
        accepting(*old(builder)),
        has_type(*old(builder), enc_v, Ty::I64),
        environ.tunables.an_constant > 0,
    ensures
        extends(*old(builder), *final(builder)),
        loads(*final(builder)) == loads(*old(builder)),
        has_type(*final(builder), r, Ty::I32),
        forall|m: Machine|
            #![trigger at(*final(builder), m)]
            ({
                let (s, t) = (at(*old(builder), m), at(*final(builder), m));
                let a = environ.tunables.an_constant as int;
                let x = wrap64(s.env[enc_v] + environ.tunables.an_inject_conversion_fault) as int;
                &&& checked(a, x, s, t)
                &&& s.trap is None && is_codeword(a, x) ==> t.env[r] == (x / a) % 0x1_0000_0000
            }),
{
    proof {
        lemma_extends_refl(*builder);
    }
    let a: u64 = environ.tunables.an_constant;
    let fault: u64 = environ.tunables.an_inject_conversion_fault;
    let bumped = if fault != 0 {
        iadd_imm(builder, enc_v, fault)
    } else {
        enc_v
    };
    emit_an_codeword_validity_check(builder, a, bumped);
    let a_const = iconst(builder, a);
    let raw_i64 = udiv(builder, bumped, a_const);
    ireduce(builder, raw_i64)
}

/// Emits the encoding of an 8-bit truth value as a 32-bit value: zero or the constant. With the
/// encoding off the truth value is zero-extended.
pub fn encode_wasm_i32_bool(
    builder: &mut FunctionBuilder<'_>,
    environ: &FuncEnvironment,
    bool_val: Value,
) -> (r: Value)
    requires
        accepting(*old(builder)),
        has_type(*old(builder), bool_val, Ty::I8),
    ensures
        extends(*old(builder), *final(builder)),
        loads(*final(builder)) == loads(*old(builder)),
        has_type(
            *final(builder),
            r,
            if environ.tunables.an_encoding {
                Ty::I64
            } else {
                Ty::I32
            },
        ),
        forall|m: Machine|
            #![trigger at(*final(builder), m)]
            ({
                let (s, t) = (at(*old(builder), m), at(*final(builder), m));
                pure(s, t) && (s.trap is None ==> t.env[r] == if !environ.tunables.an_encoding {
                    s.env[bool_val]
                } else if s.env[bool_val] != 0 {
                    environ.tunables.an_constant
                } else {
                    0
                })
            }),
{
    proof {
        lemma_extends_refl(*builder);
    }
    if environ.tunables.an_encoding {
        let a_const = iconst(builder, environ.tunables.an_constant);
        let zero = iconst(builder, 0);
        select(builder, bool_val, a_const, zero)
    } else {
        uextend(builder, Ty::I32, bool_val)
    }
}

/// Emits the encoding of a raw 32-bit value: its product with the constant.
pub fn emit_an_encode_raw_i32(
    builder: &mut FunctionBuilder<'_>,
    environ: &FuncEnvironment,
    raw_i32: Value,
) -> (r: Value)
    requires
        accepting(*old(builder)),
        has_type(*old(builder), raw_i32, Ty::I32),
    ensures
        extends(*old(builder), *final(builder)),
        loads(*final(builder)) == loads(*old(builder)),
        has_type(*final(builder), r, Ty::I64),
        forall|m: Machine|
            #![trigger at(*final(builder), m)]
            ({
                let (s, t) = (at(*old(builder), m), at(*final(builder), m));
                pure(s, t) && (s.trap is None ==> t.env[r] == wrap64(
                    s.env[raw_i32] * environ.tunables.an_constant,
                ))
            }),
{
    proof {
        lemma_extends_refl(*builder);
    }
    let a_const = iconst(builder, environ.tunables.an_constant);
    let zext = uextend(builder, Ty::I64, raw_i32);
    imul(builder, zext, a_const)
}

/// Emits the form in which a raw 32-bit value stands on the operand stack: encoded, or as it is
/// with the encoding off.
pub fn encode_wasm_i32_raw(
    builder: &mut FunctionBuilder<'_>,
    environ: &FuncEnvironment,
    raw_i32: Value,
) -> (r: Value)
    requires
        accepting(*old(builder)),
        has_type(*old(builder), raw_i32, Ty::I32),
    ensures
        extends(*old(builder), *final(builder)),
        loads(*final(builder)) == loads(*old(builder)),
        !environ.tunables.an_encoding ==> r == raw_i32 && *final(builder) == *old(builder),
        environ.tunables.an_encoding ==> has_type(*final(builder), r, Ty::I64),
        forall|m: Machine|
            #![trigger at(*final(builder), m)]
            ({
                let (s, t) = (at(*old(builder), m), at(*final(builder), m));
                pure(s, t) && (s.trap is None ==> t.env[r] == if environ.tunables.an_encoding {
                    wrap64(s.env[raw_i32] * environ.tunables.an_constant)
                } else {
                    s.env[raw_i32]
                })
            }),
{
    proof {
        lemma_extends_refl(*builder);
    }
    if environ.tunables.an_encoding {
        emit_an_encode_raw_i32(builder, environ, raw_i32)
    } else {
        raw_i32
    }
}

/// Decoding at a conversion undoes the encoding of a raw value, and the decoded word passes
/// the check, where no fault is injected and the constant is below 2^32.
pub proof fn lemma_encode_decode(a: int, v: int)
    requires
        0 < a < 0x1_0000_0000,
        0 <= v < 0x1_0000_0000,
    ensures
        ({
            let x = wrap64(v * a) as int;
            &&& x == v * a
            &&& is_codeword(a, wrap64(x + 0) as int)
            &&& (wrap64(x + 0) as int / a) % 0x1_0000_0000 == v
        }),
{
    assert(0 <= v * a < 0x1_0000_0000 * 0x1_0000_0000) by (nonlinear_arith)
        requires
            0 < a < 0x1_0000_0000,
            0 <= v < 0x1_0000_0000,
    ;
    vstd::arithmetic::div_mod::lemma_mod_multiples_basic(v, a);
    vstd::arithmetic::div_mod::lemma_div_multiples_vanish(v, a);
    assert(a * v == v * a) by (nonlinear_arith);
}

/// A codeword with any offset that is not a multiple of the constant is no codeword: the checks
/// detect every such fault.
pub proof fn lemma_fault_detected(a: int, x: int, e: int)
    requires
        a > 0,
        is_codeword(a, x),
        e % a != 0,
    ensures
        !is_codeword(a, x + e),
{
    vstd::arithmetic::div_mod::lemma_add_mod_noop(x, e, a);
    vstd::arithmetic::div_mod::lemma_mod_twice(e, a);
}

} // verus!
