//! Bitwise operations on encoded 32-bit values, through tables of encoded byte results.
use super::codeword::{emit_an_codeword_validity_check, is_codeword};
use super::env::{FuncEnvironment, TableOffsets};
use super::wide::pure;
use crate::arith::lemma_shl64;
use crate::clif::builder::{
    accepting, at, band_imm, bor, extends, global_value, group_emission, has_type, iadd, iconst,
    ishl_imm, lemma_extends_refl, load, loads, udiv, uextend, ushr_imm,
};
use crate::clif::machine::{b64, word32, word64, wrap64, Access, Machine, TrapReason, Ty, Value};
use crate::traps::TRAP_AN_CODEWORD_INVALID;
use cranelift_frontend::FunctionBuilder;
use vstd::arithmetic::power2::lemma2_to64;
use vstd::prelude::*;

verus! {

broadcast use group_emission;

/// The bitwise operations that are tabulated.
#[derive(Clone, Copy, Debug, PartialEq, Eq, Structural)]
pub enum AnBitwiseOp {
    And,
    Or,
    Xor,
}

impl AnBitwiseOp {
    /// The operation on words.
    pub open spec fn apply(self, x: u64, y: u64) -> u64 {
        match self {
            AnBitwiseOp::And => x & y,
            AnBitwiseOp::Or => x | y,
            AnBitwiseOp::Xor => x ^ y,
        }
    }

    /// Where the base of the operation's table stands in the VM context.
    pub open spec fn table(self, ptr: TableOffsets) -> u8 {
        match self {
            AnBitwiseOp::And => ptr.an_and_table,
            AnBitwiseOp::Or => ptr.an_or_table,
            AnBitwiseOp::Xor => ptr.an_xor_table,
        }
    }

    /// The offset of the operation's table base in the VM context.
    pub fn vmctx_offset(self, ptr: &TableOffsets) -> (r: u8)
        ensures
            r == self.table(*ptr),
    {
        match self {
            AnBitwiseOp::And => ptr.an_and_table,
            AnBitwiseOp::Or => ptr.an_or_table,
            AnBitwiseOp::Xor => ptr.an_xor_table,
        }
    }
}

/// The table of an operation lies at `base`, aligned to its entries: entry `256 * c1 + c2`, of
/// four bytes, is the constant times the operation on the bytes `c1` and `c2`.
#[verifier::opaque]
pub open spec fn table_at(mem: Map<int, u8>, base: u64, a: int, op: AnBitwiseOp) -> bool {
    &&& base % 4 == 0
    &&& base + 0x4_0000 <= b64()
    &&& forall|c1: u64, c2: u64|
        c1 < 0x100 && c2 < 0x100 ==> word32(mem, base + 4 * (0x100 * c1 + c2)) == a
            * #[trigger] op.apply(c1, c2)
}

/// So many read-only loads: the tables do not change.
pub open spec fn readonly(n: nat) -> Seq<Access> {
    Seq::new(n, |i: int| Access::Readonly)
}

/// Byte `i` of a word.
pub open spec fn chunk(x: u64, i: u64) -> u64 {
    (x >> (8 * i) as u64) & 0xff
}

/// The table entry for byte `i` of two words, shifted to the place of that byte.
#[verifier::opaque]
pub open spec fn chunk_term(mem: Map<int, u8>, base: u64, x: u64, y: u64, i: u64) -> u64 {
    let off = ((chunk(x, i) << 8u64) | chunk(y, i)) << 2u64;
    (word32(mem, wrap64(base + off) as int) as u64) << (8 * i) as u64
}

/// The place of a table entry.
proof fn lemma_entry_offset(c1: u64, c2: u64)
    requires
        c1 < 0x100,
        c2 < 0x100,
    ensures
        ((c1 << 8u64) | c2) << 2u64 == 4 * (0x100 * c1 + c2),
{
    assert(((c1 << 8u64) | c2) << 2u64 == 4 * (0x100 * c1 + c2)) by (bit_vector)
        requires
            c1 < 0x100,
            c2 < 0x100,
    ;
}

/// The operation byte by byte.
proof fn lemma_chunks(op: AnBitwiseOp, x: u64, y: u64)
    ensures
        op.apply(x % 0x1_0000_0000, y % 0x1_0000_0000) == op.apply(chunk(x, 0), chunk(y, 0))
            + op.apply(chunk(x, 1), chunk(y, 1)) * 0x100 + op.apply(chunk(x, 2), chunk(y, 2))
            * 0x1_0000 + op.apply(chunk(x, 3), chunk(y, 3)) * 0x100_0000,
        op.apply(chunk(x, 0), chunk(y, 0)) < 0x100,
        op.apply(chunk(x, 1), chunk(y, 1)) < 0x100,
        op.apply(chunk(x, 2), chunk(y, 2)) < 0x100,
        op.apply(chunk(x, 3), chunk(y, 3)) < 0x100,
        forall|z: u64, i: u64| #[trigger] chunk(z, i) < 0x100,
{
    assert forall|z: u64, i: u64| #[trigger] chunk(z, i) < 0x100 by {
        let w = z >> (8 * i) as u64;
        assert(w & 0xff < 0x100) by (bit_vector);
    }
    let (x0, x1, x2, x3) = (chunk(x, 0), chunk(x, 1), chunk(x, 2), chunk(x, 3));
    let (y0, y1, y2, y3) = (chunk(y, 0), chunk(y, 1), chunk(y, 2), chunk(y, 3));
    match op {
        AnBitwiseOp::And => {
            assert((x % 0x1_0000_0000) & (y % 0x1_0000_0000) == (((x >> 0u64) & 0xff) & ((y >> 0u64)
                & 0xff)) + (((x >> 8u64) & 0xff) & ((y >> 8u64) & 0xff)) * 0x100 + (((x >> 16u64)
                & 0xff) & ((y >> 16u64) & 0xff)) * 0x1_0000 + (((x >> 24u64) & 0xff) & ((y >> 24u64)
                & 0xff)) * 0x100_0000) by (bit_vector);
        },
        AnBitwiseOp::Or => {
            assert((x % 0x1_0000_0000) | (y % 0x1_0000_0000) == (((x >> 0u64) & 0xff) | ((y >> 0u64)
                & 0xff)) + (((x >> 8u64) & 0xff) | ((y >> 8u64) & 0xff)) * 0x100 + (((x >> 16u64)
                & 0xff) | ((y >> 16u64) & 0xff)) * 0x1_0000 + (((x >> 24u64) & 0xff) | ((y >> 24u64)
                & 0xff)) * 0x100_0000) by (bit_vector);
        },
        AnBitwiseOp::Xor => {
            assert((x % 0x1_0000_0000) ^ (y % 0x1_0000_0000) == (((x >> 0u64) & 0xff) ^ ((y >> 0u64)
                & 0xff)) + (((x >> 8u64) & 0xff) ^ ((y >> 8u64) & 0xff)) * 0x100 + (((x >> 16u64)
                & 0xff) ^ ((y >> 16u64) & 0xff)) * 0x1_0000 + (((x >> 24u64) & 0xff) ^ ((y >> 24u64)
                & 0xff)) * 0x100_0000) by (bit_vector);
        },
    }
    lemma_byte_range(op, x0, y0);
    lemma_byte_range(op, x1, y1);
    lemma_byte_range(op, x2, y2);
    lemma_byte_range(op, x3, y3);
}

/// The operation takes bytes to a byte.
pub proof fn lemma_byte_range(op: AnBitwiseOp, x: u64, y: u64)
    requires
        x < 0x100,
        y < 0x100,
    ensures
        op.apply(x, y) < 0x100,
{
    assert(x & y < 0x100 && x | y < 0x100 && x ^ y < 0x100) by (bit_vector)
        requires
            x < 0x100,
            y < 0x100,
    ;
}

/// Emits the table lookup for byte `i` of two raw words, shifted to the place of that byte.
fn emit_chunk(builder: &mut FunctionBuilder<'_>, base: Value, n: Value, m: Value, i: u64) -> (r:
    Value)
    requires
        accepting(*old(builder)),
        has_type(*old(builder), base, Ty::I64),
        has_type(*old(builder), n, Ty::I64),
        has_type(*old(builder), m, Ty::I64),
        i < 4,
    ensures
        extends(*old(builder), *final(builder)),
        loads(*final(builder)) == loads(*old(builder)).push(Access::Readonly),
        has_type(*final(builder), r, Ty::I64),
        forall|st: Machine|
            #![trigger at(*final(builder), st)]
            ({
                let (s, t) = (at(*old(builder), st), at(*final(builder), st));
                s.env[base] % 4 == 0 ==> pure(s, t) && (s.trap is None ==> t.env[r] == chunk_term(
                    s.mem,
                    s.env[base],
                    s.env[n],
                    s.env[m],
                    i,
                ))
            }),
{
    let ghost b0 = *builder;
    proof {
        lemma_extends_refl(b0);
    }
    let shift: u64 = i * 8;
    let n_shifted = if shift == 0 {
        n
    } else {
        ushr_imm(builder, n, shift)
    };
    let m_shifted = if shift == 0 {
        m
    } else {
        ushr_imm(builder, m, shift)
    };
    let c1 = band_imm(builder, n_shifted, 0xff);
    let c2 = band_imm(builder, m_shifted, 0xff);
    let ghost b1 = *builder;

    let c1_hi = ishl_imm(builder, c1, 8);
    let idx = bor(builder, c1_hi, c2);
    let byte_off = ishl_imm(builder, idx, 2);
    let entry_addr = iadd(builder, base, byte_off);
    let entry_i32 = load(builder, Ty::I32, Access::Readonly, entry_addr, 0);
    let entry = uextend(builder, Ty::I64, entry_i32);
    let ghost b2 = *builder;
    let term = if shift == 0 {
        entry
    } else {
        ishl_imm(builder, entry, shift)
    };
    proof {
        let b3 = *builder;
        assert forall|st: Machine|
            #![trigger at(b3, st)]
            at(b0, st).trap is None && at(b0, st).env[base] % 4 == 0 implies ({
            let (s, t) = (at(b0, st), at(b3, st));
            pure(s, t) && t.env[term] == chunk_term(s.mem, s.env[base], s.env[n], s.env[m], i)
        }) by {
            reveal(chunk_term);
            let (s, s1, s2) = (at(b0, st), at(b1, st), at(b2, st));
            let (x, y) = (s.env[n], s.env[m]);
            assert(x >> 0u64 == x && y >> 0u64 == y) by (bit_vector);
            assert(s1.env[c1] == chunk(x, i));
            assert(s1.env[c2] == chunk(y, i));
            let off = ((chunk(x, i) << 8u64) | chunk(y, i)) << 2u64;
            let k = (chunk(x, i) << 8u64) | chunk(y, i);
            assert((k << 2u64) % 4 == 0) by (bit_vector);
            assert(wrap64(s.env[base] + off) % 4 == 0);
            let e = s2.env[entry];
            assert(e << 0u64 == e) by (bit_vector);
        }
    }
    term
}

/// A looked-up and shifted entry of the table.
proof fn lemma_term(mem: Map<int, u8>, base: u64, a: int, op: AnBitwiseOp, x: u64, y: u64, i: u64)
    requires
        table_at(mem, base, a, op),
        0 < a < 0x100_0000,
        i < 4,
    ensures
        ({
            let weight: int = if i == 0 {
                1
            } else if i == 1 {
                0x100
            } else if i == 2 {
                0x1_0000
            } else {
                0x100_0000
            };
            chunk_term(mem, base, x, y, i) == a * op.apply(chunk(x, i), chunk(y, i)) * weight
        }),
{
    let (c1, c2) = (chunk(x, i), chunk(y, i));
    assert(c1 < 0x100 && c2 < 0x100) by {
        lemma_chunks(op, x, y);
    }
    let e = op.apply(c1, c2);
    let off = ((c1 << 8u64) | c2) << 2u64;
    assert(off == 4 * (0x100 * c1 + c2)) by {
        lemma_entry_offset(c1, c2);
    }
    assert(word32(mem, wrap64(base + off) as int) == a * e) by {
        reveal(table_at);
        assert(wrap64(base + off) == base + off);
    }
    assert(e < 0x100) by {
        lemma_byte_range(op, c1, c2);
    }
    assert(0 <= a * e < 0x1_0000_0000) by (nonlinear_arith)
        requires
            0 < a < 0x100_0000,
            0 <= e < 0x100,
    ;
    let v = (a * e) as u64;
    assert(chunk_term(mem, base, x, y, i) == v << (8 * i) as u64) by {
        reveal(chunk_term);
    }
    lemma_shl64(v, (8 * i) as u64);
    lemma2_to64();
}

/// The encoded results of the bytes add up to the encoded result of the words.
proof fn lemma_recombine(a: int, op: AnBitwiseOp, n: u64, m: u64)
    requires
        0 < a < 0x100_0000,
    ensures
        ({
            let e0 = a * op.apply(chunk(n, 0), chunk(m, 0)) * 1;
            let e1 = a * op.apply(chunk(n, 1), chunk(m, 1)) * 0x100;
            let e2 = a * op.apply(chunk(n, 2), chunk(m, 2)) * 0x1_0000;
            let e3 = a * op.apply(chunk(n, 3), chunk(m, 3)) * 0x100_0000;
            &&& e0 + e1 + e2 + e3 == a * op.apply(n % 0x1_0000_0000, m % 0x1_0000_0000)
            &&& 0 <= e0 < 0x1_0000_0000
            &&& 0 <= e1 < 0x100_0000_0000
            &&& 0 <= e2 < 0x1_0000_0000_0000
            &&& 0 <= e3 < 0x100_0000_0000_0000
        }),
{
    lemma_chunks(op, n, m);
    let r0 = op.apply(chunk(n, 0), chunk(m, 0)) as int;
    let r1 = op.apply(chunk(n, 1), chunk(m, 1)) as int;
    let r2 = op.apply(chunk(n, 2), chunk(m, 2)) as int;
    let r3 = op.apply(chunk(n, 3), chunk(m, 3)) as int;
    assert(a * r0 * 1 + a * r1 * 0x100 + a * r2 * 0x1_0000 + a * r3 * 0x100_0000 == a * (r0 + r1
        * 0x100 + r2 * 0x1_0000 + r3 * 0x100_0000)) by (nonlinear_arith);
    assert(0 <= a * r0 < 0x1_0000_0000 && 0 <= a * r1 < 0x1_0000_0000 && 0 <= a * r2 < 0x1_0000_0000
        && 0 <= a * r3 < 0x1_0000_0000) by (nonlinear_arith)
        requires
            0 < a < 0x100_0000,
            0 <= r0 < 0x100,
            0 <= r1 < 0x100,
            0 <= r2 < 0x100,
            0 <= r3 < 0x100,
    ;
}

/// Emits the sum of the shifted table entries for the four low bytes of two raw words.
fn emit_chunks(builder: &mut FunctionBuilder<'_>, base: Value, n: Value, m: Value) -> (r: Value)
    requires
        accepting(*old(builder)),
        has_type(*old(builder), base, Ty::I64),
        has_type(*old(builder), n, Ty::I64),
        has_type(*old(builder), m, Ty::I64),
    ensures
        extends(*old(builder), *final(builder)),
        loads(*final(builder)) == loads(*old(builder)) + readonly(4),
        has_type(*final(builder), r, Ty::I64),
        forall|st: Machine|
            #![trigger at(*final(builder), st)]
            ({
                let (s, t) = (at(*old(builder), st), at(*final(builder), st));
                let (b, x, y) = (s.env[base], s.env[n], s.env[m]);
                b % 4 == 0 ==> pure(s, t) && (s.trap is None ==> t.env[r] == wrap64(
                    wrap64(
                        wrap64(chunk_term(s.mem, b, x, y, 0) + chunk_term(s.mem, b, x, y, 1))
                            + chunk_term(s.mem, b, x, y, 2),
                    ) + chunk_term(s.mem, b, x, y, 3),
                ))
            }),
{
    proof {
        lemma_extends_refl(*builder);
    }
    let t0 = emit_chunk(builder, base, n, m, 0);
    let t1 = emit_chunk(builder, base, n, m, 1);
    let acc1 = iadd(builder, t0, t1);
    let t2 = emit_chunk(builder, base, n, m, 2);
    let acc2 = iadd(builder, acc1, t2);
    let t3 = emit_chunk(builder, base, n, m, 3);
    iadd(builder, acc2, t3)
}

/// Emits a bitwise operation on two encoded 32-bit values: both are checked and decoded, the
/// encoded results of their four bytes are looked up, and the shifted results are added. The
/// context's slot and the table are aligned.
pub fn emit_an_bitwise_i32(
    builder: &mut FunctionBuilder<'_>,
    environ: &FuncEnvironment,
    op: AnBitwiseOp,
    arg1: Value,
    arg2: Value,
) -> (r: Value)
    requires
        accepting(*old(builder)),
        has_type(*old(builder), arg1, Ty::I64),
        has_type(*old(builder), arg2, Ty::I64),
        0 < environ.tunables.an_constant < 0x100_0000,
        environ.vmctx < u32::MAX,
    ensures
        extends(*old(builder), *final(builder)),
        loads(*final(builder)) == loads(*old(builder)) + readonly(5),
        has_type(*final(builder), r, Ty::I64),
        forall|m: Machine|
            #![trigger at(*final(builder), m)]
            ({
                let (s, t) = (at(*old(builder), m), at(*final(builder), m));
                let a = environ.tunables.an_constant;
                let (x, y) = (s.env[arg1], s.env[arg2]);
                let valid = is_codeword(a as int, x as int) && is_codeword(a as int, y as int);
                let p = s.globals[environ.vmctx] + op.table(environ.tables);
                let base = word64(s.mem, p) as u64;
                s.trap is None && p % 8 == 0 ==> {
                    &&& !valid || base % 4 == 0 ==> t.mem == s.mem && t.trap == if valid {
                        None::<TrapReason>
                    } else {
                        Some(TrapReason::User(TRAP_AN_CODEWORD_INVALID))
                    }
                    &&& valid && table_at(s.mem, base, a as int, op) ==> t.env[r] == a * op.apply(
                        (x / a) % 0x1_0000_0000,
                        (y / a) % 0x1_0000_0000,
                    )
                }
            }),
{
    let ghost b0 = *builder;
    proof {
        lemma_extends_refl(b0);
    }
    let a: u64 = environ.tunables.an_constant;
    let table_offset: u8 = op.vmctx_offset(&environ.tables);
    let vmctx_val = global_value(builder, environ.vmctx);
    let base = load(builder, Ty::I64, Access::Readonly, vmctx_val, table_offset as i32);

    emit_an_codeword_validity_check(builder, a, arg1);
    emit_an_codeword_validity_check(builder, a, arg2);
    let ghost b1 = *builder;
    let a_const = iconst(builder, a);
    let n = udiv(builder, arg1, a_const);
    let m = udiv(builder, arg2, a_const);
    let ghost b2 = *builder;

    let r = emit_chunks(builder, base, n, m);
    proof {
        let b3 = *builder;
        assert forall|st: Machine|
            #![trigger at(b3, st)]
            at(b0, st).trap is None && (at(b0, st).globals[environ.vmctx] + op.table(
                environ.tables,
            )) % 8 == 0 implies ({
            let (s, t) = (at(b0, st), at(b3, st));
            let (x, y) = (s.env[arg1], s.env[arg2]);
            let valid = is_codeword(a as int, x as int) && is_codeword(a as int, y as int);
            let tb = word64(s.mem, s.globals[environ.vmctx] + op.table(environ.tables)) as u64;
            &&& !valid || tb % 4 == 0 ==> t.mem == s.mem && t.trap == if valid {
                None::<TrapReason>
            } else {
                Some(TrapReason::User(TRAP_AN_CODEWORD_INVALID))
            }
            &&& valid && table_at(s.mem, tb, a as int, op) ==> t.env[r] == a * op.apply(
                (x / a) % 0x1_0000_0000,
                (y / a) % 0x1_0000_0000,
            )
        }) by {
            let (s, s1, s2, t) = (at(b0, st), at(b1, st), at(b2, st), at(b3, st));
            let (x, y) = (s.env[arg1], s.env[arg2]);
            let valid = is_codeword(a as int, x as int) && is_codeword(a as int, y as int);
            let tb = word64(s.mem, s.globals[environ.vmctx] + op.table(environ.tables)) as u64;
            assert(s1.env[base] == tb);
            if valid {
                assert(s2.trap is None && s2.mem == s.mem);
                assert(s2.env[n] == x / a && s2.env[m] == y / a);
                if table_at(s.mem, tb, a as int, op) {
                    assert(tb % 4 == 0) by {
                        reveal(table_at);
                    }
                    let (n0, m0) = (x / a, y / a);
                    lemma_term(s.mem, tb, a as int, op, n0, m0, 0);
                    lemma_term(s.mem, tb, a as int, op, n0, m0, 1);
                    lemma_term(s.mem, tb, a as int, op, n0, m0, 2);
                    lemma_term(s.mem, tb, a as int, op, n0, m0, 3);
                    lemma_recombine(a as int, op, n0, m0);
                }
            }
        }
    }
    r
}

} // verus!
