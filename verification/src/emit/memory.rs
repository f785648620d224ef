//! Access to the shadow of a memory: every four bytes of the memory are mirrored by the eight
//! bytes of one shadow slot, which holds the constant times their little-endian value.
use super::codeword::{emit_an_codeword_validity_check, is_codeword};
use super::env::{FuncEnvironment, MemoryOffsets};
use super::wide::pure;
use crate::arith::lemma_shl64;
use crate::clif::builder::{
    accepting, at, band, band_imm, bnot, bor, code, extends, global_value, group_emission, has_type,
    iadd, iadd_imm, iconst, imul, int_compare, ishl, ishl_imm, lemma_extends_refl, load, loads,
    store, trapnz, udiv, uextend, ushr_imm, value_type,
};
use crate::clif::machine::{
    b64, lemma_put_frame64, lemma_put_get64, put64, word32, word64, wrap64, Access, Cond, Instr,
    Machine, TrapReason, Ty, Value,
};
use crate::traps::{TRAP_AN_CODEWORD_INVALID, TRAP_AN_MEMORY_MISMATCH};
use cranelift_frontend::FunctionBuilder;
use vstd::arithmetic::power2::lemma2_to64;
use vstd::prelude::*;

verus! {

broadcast use group_emission;

/// Where the shadow base of a memory is read, if all that is read on the way is aligned.
pub open spec fn base_place(mem: Map<int, u8>, ctx: int, memory: MemoryOffsets) -> Option<int> {
    match memory {
        MemoryOffsets::Defined { an_enc_memory_base } => {
            let p = ctx + an_enc_memory_base;
            if p % 8 == 0 {
                Some(p)
            } else {
                None
            }
        },
        MemoryOffsets::Imported { vmmemory_import, an_enc_base_slot } => {
            let p = ctx + vmmemory_import + an_enc_base_slot;
            if p % 8 == 0 && word64(mem, p) % 8 == 0 {
                Some(word64(mem, p))
            } else {
                None
            }
        },
    }
}

/// Emits the load of the base of a memory's shadow; nothing where the encoding is off. For an
/// imported memory the base is read through the pointer to the owner's slot.
///
/// The base changes whenever the memory grows, so that its load is never marked read-only.
pub fn emit_an_enc_base_pointer(
    builder: &mut FunctionBuilder<'_>,
    environ: &FuncEnvironment,
    memory_index: usize,
) -> (r: Option<Value>)
    requires
        accepting(*old(builder)),
        environ.tunables.an_encoding ==> {
            &&& environ.vmctx < u32::MAX
            &&& memory_index < environ.memories@.len()
            &&& match environ.memories@[memory_index as int] {
                MemoryOffsets::Defined { an_enc_memory_base } => an_enc_memory_base <= i32::MAX,
                MemoryOffsets::Imported { vmmemory_import, an_enc_base_slot } => vmmemory_import
                    + an_enc_base_slot <= i32::MAX,
            }
        },
    ensures
        r is Some <==> environ.tunables.an_encoding,
        r is None ==> *final(builder) == *old(builder),
        r is Some ==> {
            &&& extends(*old(builder), *final(builder))
            &&& has_type(*final(builder), r->0, Ty::I64)
            &&& loads(*final(builder)) == match environ.memories@[memory_index as int] {
                MemoryOffsets::Defined { .. } => loads(*old(builder)).push(Access::Plain),
                MemoryOffsets::Imported { .. } => loads(*old(builder)).push(Access::Readonly).push(
                    Access::Plain,
                ),
            }
            &&& code(*final(builder)).last() matches Instr::Load { dst, access, .. }
            &&& dst == r->0 && access == Access::Plain
        },
        r is Some ==> forall|m: Machine|
            #![trigger at(*final(builder), m)]
            ({
                let (s, t) = (at(*old(builder), m), at(*final(builder), m));
                let p = base_place(
                    s.mem,
                    s.globals[environ.vmctx] as int,
                    environ.memories@[memory_index as int],
                );
                p is Some ==> pure(s, t) && (s.trap is None ==> t.env[r->0] == word64(
                    s.mem,
                    p->0,
                ))
            }),
{
    if !environ.tunables.an_encoding {
        return None;
    }
    proof {
        lemma_extends_refl(*builder);
    }
    let vmctx_val = global_value(builder, environ.vmctx);
    match environ.memories[memory_index] {
        MemoryOffsets::Imported { vmmemory_import, an_enc_base_slot } => {
            let import_off: u32 = vmmemory_import + an_enc_base_slot as u32;
            let slot_ptr = load(builder, Ty::I64, Access::Readonly, vmctx_val, import_off as i32);
            Some(load(builder, Ty::I64, Access::Plain, slot_ptr, 0))
        },
        MemoryOffsets::Defined { an_enc_memory_base } => {
            Some(load(builder, Ty::I64, Access::Plain, vmctx_val, an_enc_memory_base as i32))
        },
    }
}

/// So many loads that are not read-only: the shadow and the memory change while the code runs.
pub open spec fn plain(n: nat) -> Seq<Access> {
    Seq::new(n, |i: int| Access::Plain)
}

/// The address of the shadow slot that mirrors the byte at `addr`.
pub open spec fn shadow_slot(enc_base: u64, addr: u64) -> u64 {
    wrap64(enc_base + wrap64((addr / 4) * 8))
}

/// The slots of an aligned shadow are aligned.
proof fn lemma_slot_aligned(enc_base: u64, addr: u64)
    requires
        enc_base % 8 == 0,
    ensures
        shadow_slot(enc_base, addr) % 8 == 0,
{
}

/// Two hundred and fifty-six to the power of a byte position.
pub open spec fn byte_weight(pos: int) -> int {
    if pos == 0 {
        1
    } else if pos == 1 {
        0x100
    } else if pos == 2 {
        0x1_0000
    } else {
        0x100_0000
    }
}

/// A 32-bit word with the byte at `pos`, counted from the low end, replaced.
pub open spec fn replace_byte(w: int, pos: int, b: int) -> int {
    w + (b - w / byte_weight(pos) % 0x100) * byte_weight(pos)
}

/// Memory after a byte was mirrored into its shadow slot, and the trap that stopped it: the old
/// contents of the slot must be a codeword.
#[verifier::opaque]
pub open spec fn byte_rmw(mem: Map<int, u8>, a: int, enc_base: u64, addr: u64, value: u64) -> (
    Map<int, u8>,
    Option<TrapReason>,
) {
    let p = shadow_slot(enc_base, addr) as int;
    let slot = word64(mem, p);
    if is_codeword(a, slot) {
        let w = replace_byte((slot / a) % 0x1_0000_0000, addr as int % 4, value as int % 0x100);
        (put64(mem, p, wrap64(w * a)), None)
    } else {
        (mem, Some(TrapReason::User(TRAP_AN_CODEWORD_INVALID)))
    }
}

/// Memory after `n` bytes of a value were mirrored, lowest first.
pub open spec fn bytes_rmw(
    mem: Map<int, u8>,
    a: int,
    enc_base: u64,
    addr: u64,
    value: u64,
    n: nat,
) -> (Map<int, u8>, Option<TrapReason>)
    decreases n,
{
    if n == 0 {
        (mem, None)
    } else {
        let i = (n - 1) as nat;
        let (before, trap) = bytes_rmw(mem, a, enc_base, addr, value, i);
        if trap is Some {
            (before, trap)
        } else {
            byte_rmw(
                before,
                a,
                enc_base,
                wrap64(addr + i),
                (value as int / byte_weight(i as int)) as u64,
            )
        }
    }
}

/// Masking and merging replaces one byte.
proof fn lemma_merge_byte(x: u64, v: u64, pos: u64)
    requires
        pos < 4,
    ensures
        ({
            let sh = (pos << 3u64) % 64;
            let merged = ((x & !(0xffu64 << sh)) | ((v & 0xff) << sh)) & 0xffff_ffff;
            merged == replace_byte(x as int % 0x1_0000_0000, pos as int, v as int % 0x100)
        }),
{
    assert(0u64 << 3u64 == 0 && 1u64 << 3u64 == 8 && 2u64 << 3u64 == 16 && 3u64 << 3u64 == 24)
        by (bit_vector);
    if pos == 0 {
        assert(((x & !(0xffu64 << 0u64)) | ((v & 0xff) << 0u64)) & 0xffff_ffff == x
            % 0x1_0000_0000 + v % 0x100 - x % 0x1_0000_0000 % 0x100) by (bit_vector);
    } else if pos == 1 {
        assert(((x & !(0xffu64 << 8u64)) | ((v & 0xff) << 8u64)) & 0xffff_ffff == x % 0x1_0000_0000
            + v % 0x100 * 0x100 - x % 0x1_0000_0000 / 0x100 % 0x100 * 0x100) by (bit_vector);
    } else if pos == 2 {
        assert(((x & !(0xffu64 << 16u64)) | ((v & 0xff) << 16u64)) & 0xffff_ffff == x
            % 0x1_0000_0000 + v % 0x100 * 0x1_0000 - x % 0x1_0000_0000 / 0x1_0000 % 0x100
            * 0x1_0000) by (bit_vector);
    } else {
        assert(((x & !(0xffu64 << 24u64)) | ((v & 0xff) << 24u64)) & 0xffff_ffff == x
            % 0x1_0000_0000 + v % 0x100 * 0x100_0000 - x % 0x1_0000_0000 / 0x100_0000 % 0x100
            * 0x100_0000) by (bit_vector);
    }
}

/// The pieces of a byte address.
proof fn lemma_address(addr: u64)
    ensures
        addr & 3 == addr % 4,
        (addr >> 2u64) << 3u64 == wrap64((addr / 4) * 8),
        addr & 0xffff_ffff_ffff_fffc == addr / 4 * 4,
        (addr & 0xffff_ffff_ffff_fffc) << 1u64 == wrap64((addr / 4) * 8),
{
    assert(addr & 3 == addr % 4) by (bit_vector);
    assert(addr >> 2u64 == addr / 4) by (bit_vector);
    assert(addr & 0xffff_ffff_ffff_fffc == addr / 4 * 4) by (bit_vector);
    lemma_shl64(addr >> 2u64, 3);
    lemma_shl64(addr & 0xffff_ffff_ffff_fffc, 1);
    lemma2_to64();
}

/// Emits the byte's masks: the low byte of the value shifted into place, and the mask that keeps
/// the other bytes of the slot.
fn emit_byte_masks(
    builder: &mut FunctionBuilder<'_>,
    byte_addr_i64: Value,
    raw_byte_value_i64: Value,
) -> (r: (Value, Value))
    requires
        accepting(*old(builder)),
        has_type(*old(builder), byte_addr_i64, Ty::I64),
        has_type(*old(builder), raw_byte_value_i64, Ty::I64),
    ensures
        extends(*old(builder), *final(builder)),
        loads(*final(builder)) == loads(*old(builder)),
        has_type(*final(builder), r.0, Ty::I64),
        has_type(*final(builder), r.1, Ty::I64),
        forall|m: Machine|
            #![trigger at(*final(builder), m)]
            ({
                let (s, t) = (at(*old(builder), m), at(*final(builder), m));
                let sh = ((s.env[byte_addr_i64] % 4) << 3u64) % 64;
                pure(s, t) && (s.trap is None ==> t.env[r.0] == (s.env[raw_byte_value_i64] & 0xff)
                    << sh && t.env[r.1] == !(0xffu64 << sh))
            }),
{
    let ghost b0 = *builder;
    proof {
        lemma_extends_refl(b0);
    }
    let byte_pos = band_imm(builder, byte_addr_i64, 3);
    let shift_bits = ishl_imm(builder, byte_pos, 3);

    let byte_mask = iconst(builder, 0xff);
    let byte_value_low = band(builder, raw_byte_value_i64, byte_mask);
    let byte_value_shifted = ishl(builder, byte_value_low, shift_bits);
    let slot_mask = ishl(builder, byte_mask, shift_bits);
    let slot_keep_mask = bnot(builder, slot_mask);
    proof {
        let b1 = *builder;
        assert forall|m: Machine| #![trigger at(b1, m)] at(b0, m).trap is None implies ({
            let (s, t) = (at(b0, m), at(b1, m));
            let sh = ((s.env[byte_addr_i64] % 4) << 3u64) % 64;
            t.env[byte_value_shifted] == (s.env[raw_byte_value_i64] & 0xff) << sh
                && t.env[slot_keep_mask] == !(0xffu64 << sh)
        }) by {
            lemma_address(at(b0, m).env[byte_addr_i64]);
        }
    }
    (byte_value_shifted, slot_keep_mask)
}

/// Emits the address of the shadow slot of a byte.
fn emit_slot_address(builder: &mut FunctionBuilder<'_>, enc_base: Value, byte_addr_i64: Value) -> (r:
    Value)
    requires
        accepting(*old(builder)),
        has_type(*old(builder), enc_base, Ty::I64),
        has_type(*old(builder), byte_addr_i64, Ty::I64),
    ensures
        extends(*old(builder), *final(builder)),
        loads(*final(builder)) == loads(*old(builder)),
        has_type(*final(builder), r, Ty::I64),
        forall|m: Machine|
            #![trigger at(*final(builder), m)]
            ({
                let (s, t) = (at(*old(builder), m), at(*final(builder), m));
                pure(s, t) && (s.trap is None ==> t.env[r] == shadow_slot(
                    s.env[enc_base],
                    s.env[byte_addr_i64],
                ))
            }),
{
    let ghost b0 = *builder;
    proof {
        lemma_extends_refl(b0);
    }
    let slot_idx = ushr_imm(builder, byte_addr_i64, 2);
    let slot_byte_off = ishl_imm(builder, slot_idx, 3);
    let enc_slot_addr = iadd(builder, enc_base, slot_byte_off);
    proof {
        let b1 = *builder;
        assert forall|m: Machine| #![trigger at(b1, m)] at(b0, m).trap is None implies at(
            b1,
            m,
        ).env[enc_slot_addr] == shadow_slot(at(b0, m).env[enc_base], at(b0, m).env[byte_addr_i64]) by {
            lemma_address(at(b0, m).env[byte_addr_i64]);
        }
    }
    enc_slot_addr
}

/// Emits the mirroring of one byte: the shadow slot of the byte is loaded, checked, decoded,
/// merged with the low byte of the value, encoded and stored again. The shadow is aligned to its
/// slots.
pub fn emit_an_byte_store_rmw(
    builder: &mut FunctionBuilder<'_>,
    environ: &FuncEnvironment,
    enc_base: Value,
    byte_addr_i64: Value,
    raw_byte_value_i64: Value,
)
    requires
        accepting(*old(builder)),
        has_type(*old(builder), enc_base, Ty::I64),
        has_type(*old(builder), byte_addr_i64, Ty::I64),
        has_type(*old(builder), raw_byte_value_i64, Ty::I64),
        environ.tunables.an_constant > 0,
    ensures
        extends(*old(builder), *final(builder)),
        loads(*final(builder)) == loads(*old(builder)).push(Access::Plain),
        forall|m: Machine|
            #![trigger at(*final(builder), m)]
            ({
                let (s, t) = (at(*old(builder), m), at(*final(builder), m));
                s.trap is None && s.env[enc_base] % 8 == 0 ==> (t.mem, t.trap) == byte_rmw(
                    s.mem,
                    environ.tunables.an_constant as int,
                    s.env[enc_base],
                    s.env[byte_addr_i64],
                    s.env[raw_byte_value_i64],
                )
            }),
{
    let ghost b0 = *builder;
    proof {
        lemma_extends_refl(b0);
    }
    let a: u64 = environ.tunables.an_constant;
    let enc_slot_addr = emit_slot_address(builder, enc_base, byte_addr_i64);
    let (byte_value_shifted, slot_keep_mask) = emit_byte_masks(
        builder,
        byte_addr_i64,
        raw_byte_value_i64,
    );
    let ghost b1 = *builder;

    let old_enc = load(builder, Ty::I64, Access::Plain, enc_slot_addr, 0);
    emit_an_codeword_validity_check(builder, a, old_enc);
    let ghost b2 = *builder;
    let a_const = iconst(builder, a);
    let old_raw = udiv(builder, old_enc, a_const);
    let raw_cleared = band(builder, old_raw, slot_keep_mask);
    let new_raw_unmasked = bor(builder, raw_cleared, byte_value_shifted);
    let new_raw = band_imm(builder, new_raw_unmasked, 0xffff_ffff);
    let new_enc = imul(builder, new_raw, a_const);
    let ghost b3 = *builder;
    store(builder, new_enc, enc_slot_addr, 0);
    proof {
        let b4 = *builder;
        assert forall|m: Machine|
            #![trigger at(b4, m)]
            at(b0, m).trap is None && at(b0, m).env[enc_base] % 8 == 0 implies ({
            let (s, t) = (at(b0, m), at(b4, m));
            (t.mem, t.trap) == byte_rmw(
                s.mem,
                a as int,
                s.env[enc_base],
                s.env[byte_addr_i64],
                s.env[raw_byte_value_i64],
            )
        }) by {
            reveal(byte_rmw);
            let (s, s1, s2, s3, t) = (at(b0, m), at(b1, m), at(b2, m), at(b3, m), at(b4, m));
            let (addr, v) = (s.env[byte_addr_i64], s.env[raw_byte_value_i64]);
            let p = shadow_slot(s.env[enc_base], addr) as int;
            let slot = word64(s.mem, p);
            lemma_slot_aligned(s.env[enc_base], addr);
            assert(s2.env[old_enc] == slot);
            if is_codeword(a as int, slot) {
                let x = (slot / a as int) as u64;
                lemma_merge_byte(x, v, addr % 4);
                assert(0 <= slot / a as int <= slot) by (nonlinear_arith)
                    requires
                        0 <= slot,
                        a > 0,
                ;
                assert(s3.env[enc_slot_addr] == p);
            }
        }
    }
}

/// Emits the mirroring of the low `nbytes` bytes of a value at consecutive addresses, whatever
/// their alignment: one byte after the other. The shadow is aligned to its slots.
pub fn emit_an_multi_byte_decomposed_store(
    builder: &mut FunctionBuilder<'_>,
    environ: &FuncEnvironment,
    enc_base: Value,
    base_addr_i64: Value,
    raw_value_i64: Value,
    nbytes: u8,
)
    requires
        accepting(*old(builder)),
        has_type(*old(builder), enc_base, Ty::I64),
        has_type(*old(builder), base_addr_i64, Ty::I64),
        has_type(*old(builder), raw_value_i64, Ty::I64),
        environ.tunables.an_constant > 0,
        1 <= nbytes <= 4,
    ensures
        extends(*old(builder), *final(builder)),
        loads(*final(builder)) == loads(*old(builder)) + plain(nbytes as nat),
        forall|m: Machine|
            #![trigger at(*final(builder), m)]
            ({
                let (s, t) = (at(*old(builder), m), at(*final(builder), m));
                s.trap is None && s.env[enc_base] % 8 == 0 ==> (t.mem, t.trap) == bytes_rmw(
                    s.mem,
                    environ.tunables.an_constant as int,
                    s.env[enc_base],
                    s.env[base_addr_i64],
                    s.env[raw_value_i64],
                    nbytes as nat,
                )
            }),
{
    let ghost b0 = *builder;
    proof {
        lemma_extends_refl(b0);
    }
    let mut i: u8 = 0;
    while i < nbytes
        invariant
            i <= nbytes <= 4,
            environ.tunables.an_constant > 0,
            has_type(b0, enc_base, Ty::I64),
            has_type(b0, base_addr_i64, Ty::I64),
            has_type(b0, raw_value_i64, Ty::I64),
            extends(b0, *builder),
            loads(*builder) == loads(b0) + plain(i as nat),
            forall|m: Machine|
                #![trigger at(*builder, m)]
                ({
                    let (s, t) = (at(b0, m), at(*builder, m));
                    s.trap is None && s.env[enc_base] % 8 == 0 ==> (t.mem, t.trap) == bytes_rmw(
                        s.mem,
                        environ.tunables.an_constant as int,
                        s.env[enc_base],
                        s.env[base_addr_i64],
                        s.env[raw_value_i64],
                        i as nat,
                    )
                }),
        decreases nbytes - i,
    {
        let ghost b1 = *builder;
        let byte_addr = if i == 0 {
            base_addr_i64
        } else {
            iadd_imm(builder, base_addr_i64, i as u64)
        };
        let shifted = if i == 0 {
            raw_value_i64
        } else {
            ushr_imm(builder, raw_value_i64, (i as u64) * 8)
        };
        let ghost b2 = *builder;
        emit_an_byte_store_rmw(builder, environ, enc_base, byte_addr, shifted);
        proof {
            let b3 = *builder;
            assert(loads(b3) =~= loads(b0) + plain((i + 1) as nat));
            assert forall|m: Machine|
                #![trigger at(b3, m)]
                at(b0, m).trap is None && at(b0, m).env[enc_base] % 8 == 0 implies ({
                let (s, t) = (at(b0, m), at(b3, m));
                (t.mem, t.trap) == bytes_rmw(
                    s.mem,
                    environ.tunables.an_constant as int,
                    s.env[enc_base],
                    s.env[base_addr_i64],
                    s.env[raw_value_i64],
                    (i + 1) as nat,
                )
            }) by {
                let (s, s1, s2) = (at(b0, m), at(b1, m), at(b2, m));
                let v = s.env[raw_value_i64];
                assert(v >> 8u64 == v / 0x100 && v >> 16u64 == v / 0x1_0000 && v >> 24u64 == v
                    / 0x100_0000) by (bit_vector);
                assert(s1.env[base_addr_i64] == s.env[base_addr_i64]);
                assert(s2.env[enc_base] == s.env[enc_base]);
            }
        }
        i = i + 1;
    }
}

/// Emits the offset into the shadow that belongs to a byte address, which is 32 or 64 bits wide:
/// twice the address.
pub fn emit_an_enc_offset_from_effective_addr(
    builder: &mut FunctionBuilder<'_>,
    effective_addr_val: Value,
) -> (r: Value)
    requires
        accepting(*old(builder)),
        has_type(*old(builder), effective_addr_val, Ty::I64) || has_type(
            *old(builder),
            effective_addr_val,
            Ty::I32,
        ),
    ensures
        extends(*old(builder), *final(builder)),
        loads(*final(builder)) == loads(*old(builder)),
        has_type(*final(builder), r, Ty::I64),
        forall|m: Machine|
            #![trigger at(*final(builder), m)]
            ({
                let (s, t) = (at(*old(builder), m), at(*final(builder), m));
                pure(s, t) && (s.trap is None ==> t.env[r] == wrap64(s.env[effective_addr_val] * 2))
            }),
{
    let ghost b0 = *builder;
    proof {
        lemma_extends_refl(b0);
        reveal(has_type);
    }
    let ty = value_type(builder, effective_addr_val);
    let i64_addr = match ty {
        Ty::I64 => effective_addr_val,
        _ => uextend(builder, Ty::I64, effective_addr_val),
    };
    let r = ishl_imm(builder, i64_addr, 1);
    proof {
        let b1 = *builder;
        assert forall|m: Machine| #![trigger at(b1, m)] at(b0, m).trap is None implies at(
            b1,
            m,
        ).env[r] == wrap64(at(b0, m).env[effective_addr_val] * 2) by {
            lemma_shl64(at(b0, m).env[effective_addr_val], 1);
            lemma2_to64();
        }
    }
    r
}

/// Whether the shadow slot of the byte at `eff` mirrors the four raw bytes round `raw`.
#[verifier::opaque]
pub open spec fn slot_valid(mem: Map<int, u8>, a: int, enc_base: u64, raw: u64, eff: u64) -> bool {
    word64(mem, shadow_slot(enc_base, eff) as int) == wrap64(
        word32(mem, raw as int / 4 * 4) * a,
    )
}

/// The code between two states compared a shadow slot or several: it ran through where they are
/// valid and stopped with the mismatch trap where they are not. It left memory alone.
pub open spec fn compared(valid: bool, s: Machine, t: Machine) -> bool {
    s.trap is None ==> {
        &&& t.mem == s.mem
        &&& t.trap == if valid {
            None::<TrapReason>
        } else {
            Some(TrapReason::User(TRAP_AN_MEMORY_MISMATCH))
        }
    }
}

/// Emits the comparison of one shadow slot, in a shadow that is aligned to its slots, with the
/// raw bytes that it mirrors.
pub fn check_one_slot_validity(
    builder: &mut FunctionBuilder<'_>,
    enc_base: Value,
    raw_byte_addr: Value,
    eff_byte_addr_i64: Value,
    a_const: Value,
)
    requires
        accepting(*old(builder)),
        has_type(*old(builder), enc_base, Ty::I64),
        has_type(*old(builder), raw_byte_addr, Ty::I64),
        has_type(*old(builder), eff_byte_addr_i64, Ty::I64),
        has_type(*old(builder), a_const, Ty::I64),
    ensures
        extends(*old(builder), *final(builder)),
        loads(*final(builder)) == loads(*old(builder)) + plain(2),
        forall|m: Machine|
            #![trigger at(*final(builder), m)]
            ({
                let (s, t) = (at(*old(builder), m), at(*final(builder), m));
                s.env[enc_base] % 8 == 0 ==> compared(
                    slot_valid(
                        s.mem,
                        s.env[a_const] as int,
                        s.env[enc_base],
                        s.env[raw_byte_addr],
                        s.env[eff_byte_addr_i64],
                    ),
                    s,
                    t,
                )
            }),
{
    let ghost b0 = *builder;
    proof {
        lemma_extends_refl(b0);
    }
    let eff_slot_aligned = band_imm(builder, eff_byte_addr_i64, 0xffff_ffff_ffff_fffc);
    let shadow_off = ishl_imm(builder, eff_slot_aligned, 1);
    let shadow_slot_addr = iadd(builder, enc_base, shadow_off);
    let raw_slot_addr = band_imm(builder, raw_byte_addr, 0xffff_ffff_ffff_fffc);

    let enc_slot = load(builder, Ty::I64, Access::Plain, shadow_slot_addr, 0);
    let raw_slot_i32 = load(builder, Ty::I32, Access::Plain, raw_slot_addr, 0);
    let raw_slot_u64 = uextend(builder, Ty::I64, raw_slot_i32);
    let expected = imul(builder, raw_slot_u64, a_const);

    let mismatch = int_compare(builder, Cond::NotEqual, enc_slot, expected);
    let ghost b1 = *builder;
    trapnz(builder, mismatch, TRAP_AN_MEMORY_MISMATCH);
    proof {
        let b2 = *builder;
        assert(loads(b2) =~= loads(b0) + plain(2));
        assert forall|m: Machine|
            #![trigger at(b2, m)]
            at(b0, m).trap is None && at(b0, m).env[enc_base] % 8 == 0 implies compared(
            slot_valid(
                at(b0, m).mem,
                at(b0, m).env[a_const] as int,
                at(b0, m).env[enc_base],
                at(b0, m).env[raw_byte_addr],
                at(b0, m).env[eff_byte_addr_i64],
            ),
            at(b0, m),
            at(b2, m),
        ) by {
            reveal(slot_valid);
            let (s, s1) = (at(b0, m), at(b1, m));
            lemma_address(s.env[eff_byte_addr_i64]);
            lemma_address(s.env[raw_byte_addr]);
            lemma_slot_aligned(s.env[enc_base], s.env[eff_byte_addr_i64]);
            assert(s1.env[enc_slot] == word64(
                s.mem,
                shadow_slot(s.env[enc_base], s.env[eff_byte_addr_i64]) as int,
            ));
        }
    }
}

/// Emits the comparison of every shadow slot that an access of `nbytes` bytes touches: the slot
/// of its first byte, and for more than one byte that of its last. The shadow is aligned to its
/// slots.
pub fn emit_an_load_validity_check(
    builder: &mut FunctionBuilder<'_>,
    environ: &FuncEnvironment,
    enc_base: Value,
    raw_base_addr_i64: Value,
    effective_addr_i64: Value,
    nbytes: u8,
)
    requires
        accepting(*old(builder)),
        has_type(*old(builder), enc_base, Ty::I64),
        has_type(*old(builder), raw_base_addr_i64, Ty::I64),
        has_type(*old(builder), effective_addr_i64, Ty::I64),
        nbytes == 1 || nbytes == 2 || nbytes == 4,
    ensures
        extends(*old(builder), *final(builder)),
        loads(*final(builder)) == loads(*old(builder)) + plain(
            if nbytes == 1 {
                2
            } else {
                4
            },
        ),
        forall|m: Machine|
            #![trigger at(*final(builder), m)]
            ({
                let (s, t) = (at(*old(builder), m), at(*final(builder), m));
                let a = environ.tunables.an_constant as int;
                let (base, raw, eff) = (
                    s.env[enc_base],
                    s.env[raw_base_addr_i64],
                    s.env[effective_addr_i64],
                );
                base % 8 == 0 ==> compared(
                    slot_valid(s.mem, a, base, raw, eff) && slot_valid(
                        s.mem,
                        a,
                        base,
                        wrap64(raw + (nbytes - 1)),
                        wrap64(eff + (nbytes - 1)),
                    ),
                    s,
                    t,
                )
            }),
{
    let ghost b0 = *builder;
    proof {
        lemma_extends_refl(b0);
    }
    let a_const = iconst(builder, environ.tunables.an_constant);
    check_one_slot_validity(
        builder,
        enc_base,
        raw_base_addr_i64,
        effective_addr_i64,
        a_const,
    );
    let ghost b1 = *builder;
    if nbytes > 1 {
        let n_minus_1: u64 = (nbytes - 1) as u64;
        let raw_last = iadd_imm(builder, raw_base_addr_i64, n_minus_1);
        let eff_last = iadd_imm(builder, effective_addr_i64, n_minus_1);
        check_one_slot_validity(builder, enc_base, raw_last, eff_last, a_const);
    }
}

/// A byte that is mirrored into a slot that holds the constant times a word leaves it with the
/// constant times the word that has the byte replaced, and nothing else changes.
pub proof fn lemma_rmw_mirrors(
    mem: Map<int, u8>,
    a: int,
    enc_base: u64,
    addr: u64,
    value: u64,
    w: int,
)
    requires
        0 < a < 0x1_0000_0000,
        0 <= w < 0x1_0000_0000,
        word64(mem, shadow_slot(enc_base, addr) as int) == a * w,
    ensures
        ({
            let p = shadow_slot(enc_base, addr) as int;
            let (after, trap) = byte_rmw(mem, a, enc_base, addr, value);
            let w2 = replace_byte(w, addr as int % 4, value as int % 0x100);
            &&& trap is None
            &&& 0 <= w2 < 0x1_0000_0000
            &&& word64(after, p) == a * w2
            &&& forall|q: int| q < p || q >= p + 8 ==> #[trigger] after[q] == mem[q]
        }),
{
    let p = shadow_slot(enc_base, addr) as int;
    let w2 = replace_byte(w, addr as int % 4, value as int % 0x100);
    let x = w as u64;
    let sh = ((addr % 4) << 3u64) % 64;
    let merged = (x & !(0xffu64 << sh)) | ((value & 0xff) << sh);
    assert(0 <= w2 < 0x1_0000_0000) by {
        lemma_merge_byte(x, value, addr % 4);
        assert(merged & 0xffff_ffff <= 0xffff_ffff) by (bit_vector);
    }
    assert(0 <= w2 * a < 0x1_0000_0000 * 0x1_0000_0000 && w2 * a == a * w2) by (nonlinear_arith)
        requires
            0 < a < 0x1_0000_0000,
            0 <= w2 < 0x1_0000_0000,
    ;
    let (after, trap) = byte_rmw(mem, a, enc_base, addr, value);
    assert(after == put64(mem, p, wrap64(w2 * a)) && trap is None) by {
        reveal(byte_rmw);
        vstd::arithmetic::div_mod::lemma_mod_multiples_basic(w, a);
        vstd::arithmetic::div_mod::lemma_div_multiples_vanish(w, a);
        assert(a * w == w * a) by (nonlinear_arith);
    }
    lemma_put_get64(mem, p, wrap64(w2 * a));
    assert forall|q: int| q < p || q >= p + 8 implies #[trigger] after[q] == mem[q] by {
        lemma_put_frame64(mem, p, wrap64(w2 * a), q);
    }
}

/// The shadow slot of the byte at `q` holds the encoding of a 32-bit word.
#[verifier::opaque]
pub open spec fn slot_sound(mem: Map<int, u8>, a: int, enc_base: u64, q: u64) -> bool {
    let slot = word64(mem, shadow_slot(enc_base, q) as int);
    is_codeword(a, slot) && slot / a < 0x1_0000_0000
}

/// The byte at `q`, as its shadow slot has it.
#[verifier::opaque]
pub open spec fn shadow_byte(mem: Map<int, u8>, a: int, enc_base: u64, q: u64) -> int {
    word64(mem, shadow_slot(enc_base, q) as int) / a / byte_weight(q as int % 4) % 0x100
}

/// Whether place `p` lies outside of the shadow slots of `n` bytes from `addr`.
#[verifier::opaque]
pub open spec fn outside(enc_base: u64, addr: u64, n: nat, p: int) -> bool {
    forall|q: u64|
        addr <= q < addr + n ==> p < #[trigger] shadow_slot(enc_base, q) || p >= shadow_slot(
            enc_base,
            q,
        ) + 8
}

/// The addresses that have a shadow slot of their own: a shadow is twice as large as the memory.
pub open spec fn has_slot(q: int) -> bool {
    0 <= q < 0x8000_0000_0000_0000
}

/// Replacing a byte of a word leaves the others.
pub proof fn lemma_replaced(w: int, pos: int, b: int, k: int)
    requires
        0 <= w < 0x1_0000_0000,
        0 <= pos < 4,
        0 <= k < 4,
        0 <= b < 0x100,
    ensures
        replace_byte(w, pos, b) / byte_weight(k) % 0x100 == if k == pos {
            b
        } else {
            w / byte_weight(k) % 0x100
        },
{
    let (b0, b1, b2, b3) = (w % 0x100, w / 0x100 % 0x100, w / 0x1_0000 % 0x100, w / 0x100_0000);
    assert(w == b0 + 0x100 * b1 + 0x1_0000 * b2 + 0x100_0000 * b3);
    let (c0, c1, c2, c3) = (
        if pos == 0 {
            b
        } else {
            b0
        },
        if pos == 1 {
            b
        } else {
            b1
        },
        if pos == 2 {
            b
        } else {
            b2
        },
        if pos == 3 {
            b
        } else {
            b3
        },
    );
    let v = replace_byte(w, pos, b);
    assert(v == c0 + 0x100 * c1 + 0x1_0000 * c2 + 0x100_0000 * c3);
    assert(v / 1 == v && v / 0x100 == c1 + 0x100 * c2 + 0x1_0000 * c3 && v / 0x1_0000 == c2 + 0x100
        * c3 && v / 0x100_0000 == c3);
    assert(v % 0x100 == c0 && (c1 + 0x100 * c2 + 0x1_0000 * c3) % 0x100 == c1 && (c2 + 0x100 * c3)
        % 0x100 == c2 && c3 % 0x100 == c3);
    if k == 0 {
        assert(v / byte_weight(0) == v && w / byte_weight(0) == w);
    } else if k == 1 {
        assert(v / byte_weight(1) == v / 0x100 && w / byte_weight(1) == w / 0x100);
    } else if k == 2 {
        assert(v / byte_weight(2) == v / 0x1_0000 && w / byte_weight(2) == w / 0x1_0000);
    } else {
        assert(v / byte_weight(3) == v / 0x100_0000 && w / byte_weight(3) == w / 0x100_0000);
        assert(w / 0x100_0000 % 0x100 == b3);
    }
}

/// Two addresses with slots of their own have the same slot where they are bytes of the same
/// word, and else slots that do not overlap.
proof fn lemma_slots_apart(enc_base: u64, q: u64, r: u64)
    requires
        has_slot(q as int),
        has_slot(r as int),
    ensures
        ({
            let (s, t) = (shadow_slot(enc_base, q), shadow_slot(enc_base, r));
            if q / 4 == r / 4 {
                s == t
            } else {
                s + 8 <= t || t + 8 <= s
            }
        }),
{
    let (x, y) = (8 * (q / 4) as int, 8 * (r / 4) as int);
    assert(wrap64(x) == x && wrap64(y) == y);
    let (s, t) = ((enc_base + x) % b64(), (enc_base + y) % b64());
    assert(s == enc_base + x || s == enc_base + x - b64());
    assert(t == enc_base + y || t == enc_base + y - b64());
}

/// The mirroring of one byte, byte by byte of the shadow.
proof fn lemma_byte_mirrored(
    mem: Map<int, u8>,
    a: int,
    enc_base: u64,
    addr: u64,
    value: u64,
    q: u64,
)
    requires
        0 < a < 0x1_0000_0000,
        has_slot(addr as int),
        has_slot(q as int),
        slot_sound(mem, a, enc_base, addr),
    ensures
        ({
            let (after, trap) = byte_rmw(mem, a, enc_base, addr, value);
            &&& trap is None
            &&& shadow_byte(after, a, enc_base, q) == if q == addr {
                value as int % 0x100
            } else {
                shadow_byte(mem, a, enc_base, q)
            }
            &&& slot_sound(mem, a, enc_base, q) ==> slot_sound(after, a, enc_base, q)
            &&& forall|p: int|
                outside(enc_base, addr, 1, p) ==> #[trigger] after[p] == mem[p]
        }),
{
    reveal(slot_sound);
    reveal(shadow_byte);
    reveal(outside);
    let p = shadow_slot(enc_base, addr) as int;
    let w = word64(mem, p) / a;
    vstd::arithmetic::div_mod::lemma_fundamental_div_mod(word64(mem, p), a);
    assert(0 <= w) by (nonlinear_arith)
        requires
            w == word64(mem, p) / a,
            0 <= word64(mem, p),
            a > 0,
    ;
    lemma_rmw_mirrors(mem, a, enc_base, addr, value, w);
    let (after, trap) = byte_rmw(mem, a, enc_base, addr, value);
    let w2 = replace_byte(w, addr as int % 4, value as int % 0x100);
    assert(a * w2 == w2 * a) by (nonlinear_arith);
    vstd::arithmetic::div_mod::lemma_div_multiples_vanish(w2, a);
    vstd::arithmetic::div_mod::lemma_mod_multiples_basic(w2, a);
    lemma_slots_apart(enc_base, q, addr);
    if q / 4 == addr / 4 {
        lemma_replaced(w, addr as int % 4, value as int % 0x100, q as int % 4);
    } else {
        let s = shadow_slot(enc_base, q) as int;
        assert(word64(after, s) == word64(mem, s));
    }
}

/// After `n` bytes of a value were mirrored, the shadow has byte `i` of the value at address
/// `addr + i` and every other byte as it was; the slots hold encodings of words as before, and
/// memory outside of the touched slots is the same. The mirroring does not stop where the slots
/// that it touches hold encodings.
pub proof fn lemma_bytes_mirrored(
    mem: Map<int, u8>,
    a: int,
    enc_base: u64,
    addr: u64,
    value: u64,
    n: nat,
)
    requires
        0 < a < 0x1_0000_0000,
        n <= 4,
        has_slot(addr + n - 1) || n == 0,
        forall|q: u64| addr <= q < addr + n ==> #[trigger] slot_sound(mem, a, enc_base, q),
    ensures
        ({
            let (after, trap) = bytes_rmw(mem, a, enc_base, addr, value, n);
            &&& trap is None
            &&& forall|q: u64|
                has_slot(q as int) ==> #[trigger] shadow_byte(after, a, enc_base, q) == if addr <= q
                    < addr + n {
                    value as int / byte_weight(q - addr) % 0x100
                } else {
                    shadow_byte(mem, a, enc_base, q)
                }
            &&& forall|q: u64|
                has_slot(q as int) && slot_sound(mem, a, enc_base, q) ==> #[trigger] slot_sound(
                    after,
                    a,
                    enc_base,
                    q,
                )
            &&& forall|p: int|
                outside(enc_base, addr, n, p) ==> #[trigger] after[p] == mem[p]
        }),
    decreases n,
{
    if n > 0 {
        let i = (n - 1) as nat;
        let last = (addr + i) as u64;
        let v = (value as int / byte_weight(i as int)) as u64;
        lemma_bytes_mirrored(mem, a, enc_base, addr, value, i);
        let (before, stopped) = bytes_rmw(mem, a, enc_base, addr, value, i);
        let (after, trap) = bytes_rmw(mem, a, enc_base, addr, value, n);
        assert(slot_sound(before, a, enc_base, last));
        assert(wrap64(addr + i) == last);
        assert((after, trap) == byte_rmw(before, a, enc_base, last, v));
        lemma_byte_mirrored(before, a, enc_base, last, v, last);
        assert forall|q: u64| has_slot(q as int) implies #[trigger] shadow_byte(
            after,
            a,
            enc_base,
            q,
        ) == if addr <= q < addr + n {
            value as int / byte_weight(q - addr) % 0x100
        } else {
            shadow_byte(mem, a, enc_base, q)
        } by {
            lemma_byte_mirrored(before, a, enc_base, last, v, q);
        }
        assert forall|q: u64|
            has_slot(q as int) && slot_sound(mem, a, enc_base, q) implies #[trigger] slot_sound(
            after,
            a,
            enc_base,
            q,
        ) by {
            assert(slot_sound(before, a, enc_base, q));
            lemma_byte_mirrored(before, a, enc_base, last, v, q);
        }
        assert forall|p: int| outside(enc_base, addr, n, p) implies #[trigger] after[p]
            == mem[p] by {
            assert(outside(enc_base, addr, i, p) && outside(enc_base, last, 1, p)) by {
                reveal(outside);
            }
            assert(before[p] == mem[p]);
        }
    }
}

} // verus!
