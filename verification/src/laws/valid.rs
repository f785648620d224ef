//! What the operations accept.
use super::ops::{size, values};
use crate::boundary::{AnGlobal, Boundary};
use crate::clif::builder::{accepting, has_type};
use crate::clif::machine::{Ty, Value};
use crate::codec::Codec;
use crate::component::LowerContext;
use crate::dirty::{ByteRange, DirtyRanges};
use crate::emit::bitwise::{emit_an_bitwise_i32, AnBitwiseOp};
use crate::emit::codeword::{emit_an_codeword_validity_check, emit_an_conversion_decode_i32};
use crate::emit::env::FuncEnvironment;
use crate::emit::memory::{
    check_one_slot_validity, emit_an_byte_store_rmw, emit_an_enc_offset_from_effective_addr,
    emit_an_load_validity_check, emit_an_multi_byte_decomposed_store,
};
use crate::emit::shift::{emit_an_mul_i32, emit_an_shl_i32, emit_an_shr_u_i32};
use crate::emit::wide::{
    div2by1_mg, ishl_pair, udiv_u128_by_u64_const, umod_u128_by_u64_const_to_i64, ushr_pair,
};
use crate::guest_memory::GuestMemory;
use crate::memory::state::AnMemory;
use crate::table::AnTable;
use crate::wasm::{Count, Relation, Width};
use cranelift_frontend::FunctionBuilder;
use vstd::prelude::*;

verus! {

/// A constant that can be encoded with.
pub open spec fn usable(c: Codec) -> bool {
    1 <= c.a < 0x100_0000
}

/// A word below the constant times the number of values, a codeword or not.
pub open spec fn carried(c: Codec, w: Width, x: u128) -> bool {
    x < c.a * values(w)
}

/// Whole pages, at most 65536, with one slot for every four bytes, or without encoding none.
pub open spec fn laid_out(m: AnMemory) -> bool {
    &&& usable(m.codec)
    &&& m.raw@.len() % 0x1_0000 == 0
    &&& m.raw@.len() <= 0x1_0000_0000
    &&& m.an_encoding ==> 4 * m.shadow@.len() == m.raw@.len()
    &&& !m.an_encoding ==> m.codec.a == 1 && m.shadow@.len() == 0
}

/// Every constant from one up to 2^24, exclusive, can be encoded with, and the words of a width
/// are those below the constant times the number of values.
pub proof fn law_codec_valid(c: Codec, w: Width, x: u128)
    ensures
        c.wf() <==> usable(c),
        c.in_band(w, x as int) <==> carried(c, w, x),
{
}

/// A memory is valid however its bytes and slots differ.
pub proof fn law_memory_valid(m: AnMemory)
    ensures
        m.wf() <==> laid_out(m),
{
}

/// What else is valid: tables of any elements, globals and boundaries of any word, contexts and
/// records of any ranges.
pub proof fn law_others_valid(
    t: AnTable,
    g: AnGlobal,
    b: Boundary,
    cx: LowerContext,
    d: DirtyRanges,
)
    ensures
        t.wf() <==> usable(t.codec) && t.elems@.len() <= u32::MAX,
        g.wf() <==> usable(g.codec) && carried(g.codec, g.width, g.slot),
        b.wf() <==> usable(b.codec) && (b.an_encoding || b.codec.a == 1),
        d.wf() <==> d.ranges@.len() <= 128,
        cx.wf() <==> cx.an_dirty.ranges@.len() <= 128 && (cx.memory is None || laid_out(
            cx.memory->0,
        )),
{
}

/// The operations on one word, or on two, accept every word, also one that is no codeword.
pub proof fn law_words_accepted(
    c: Codec,
    w: Width,
    x: u128,
    y: u128,
    count: Count,
    relation: Relation,
    bits: u32,
)
    requires
        usable(c),
        carried(c, w, x),
        carried(c, w, y),
    ensures
        call_requires(Codec::check, (&c, x)),
        call_requires(Codec::decode, (&c, w, x)),
        call_requires(Codec::add, (&c, w, x, y)),
        call_requires(Codec::sub, (&c, w, x, y)),
        call_requires(Codec::mul, (&c, w, x, y)),
        call_requires(Codec::div_u, (&c, w, x, y)),
        call_requires(Codec::rem_u, (&c, w, x, y)),
        call_requires(Codec::div_s, (&c, w, x, y)),
        call_requires(Codec::rem_s, (&c, w, x, y)),
        call_requires(Codec::shl, (&c, w, x, y)),
        call_requires(Codec::shr_u, (&c, w, x, y)),
        call_requires(Codec::shr_s, (&c, w, x, y)),
        call_requires(Codec::rotl, (&c, w, x, y)),
        call_requires(Codec::rotr, (&c, w, x, y)),
        call_requires(Codec::count, (&c, count, w, x)),
        call_requires(Codec::compare, (&c, relation, w, x, y)),
        call_requires(Codec::eqz, (&c, w, x)),
        call_requires(Codec::condition, (&c, w, x)),
        0 < bits < size(w) ==> call_requires(Codec::extend_s, (&c, w, bits, x)),
        w is W64 ==> call_requires(Codec::wrap_i64, (&c, x)),
        w is W32 ==> call_requires(Codec::extend_i32_u, (&c, x)),
        w is W32 ==> call_requires(Codec::extend_i32_s, (&c, x)),
        w is W32 ==> forall|arms: u32| #[trigger] call_requires(Codec::br_table, (&c, x, arms)),
        forall|n: u64|
            n < values(w) ==> #[trigger] call_requires(Codec::encode, (&c, w, n)),
{
}

/// A memory can be read at every address, with every static offset.
pub proof fn law_memory_accepted(
    m: AnMemory,
    w: Width,
    addr: u128,
    offset: u64,
    n: usize,
    signed: bool,
    off: usize,
    len: usize,
)
    requires
        laid_out(m),
        carried(m.codec, m.index, addr),
    ensures
        (n == 1 || n == 2 || n == 4 || n == 8) && 8 * n <= size(w) ==> call_requires(
            AnMemory::load,
            (&m, w, addr, offset, n, signed),
        ),
        call_requires(AnMemory::read, (&m, off, len)),
        call_requires(AnMemory::try_data, (&m,)),
        call_requires(AnMemory::size, (&m,)),
{
}

/// A memory can be written at every address, with every static offset and every word.
pub proof fn law_memory_written(
    m: &mut AnMemory,
    w: Width,
    addr: u128,
    offset: u64,
    n: usize,
    x: u128,
)
    requires
        laid_out(*old(m)),
        carried(old(m).codec, old(m).index, addr),
        carried(old(m).codec, w, x),
    ensures
        (n == 1 || n == 2 || n == 4 || n == 8) && 8 * n <= size(w) ==> call_requires(
            AnMemory::store,
            (m, w, addr, offset, n, x),
        ),
{
}

/// The bulk operations accept every operand.
pub proof fn law_bulk_accepted(
    m: &mut AnMemory,
    segment: Vec<u8>,
    dst: u128,
    src: u128,
    len: u128,
    off: usize,
    delta: u64,
)
    requires
        laid_out(*old(m)),
        carried(old(m).codec, old(m).index, dst),
        carried(old(m).codec, old(m).index, src),
        carried(old(m).codec, old(m).index, len),
    ensures
        call_requires(AnMemory::copy, (m, dst, src, len)),
        call_requires(AnMemory::grow, (m, len)),
        call_requires(AnMemory::grow_pages, (m, delta)),
        call_requires(AnMemory::write, (m, off, &segment)),
        call_requires(AnMemory::try_data_mut, (m,)),
        call_requires(AnMemory::heal, (m,)),
        forall|x: u128|
            x < old(m).codec.a * 0x1_0000_0000 ==> #[trigger] call_requires(
                AnMemory::fill,
                (m, dst, x, len),
            ),
        forall|x: u128, y: u128|
            x < old(m).codec.a * 0x1_0000_0000 && y < old(m).codec.a * 0x1_0000_0000
                ==> #[trigger] call_requires(AnMemory::init, (m, &segment, dst, x, y)),
        forall|ranges: Vec<ByteRange>| #[trigger]
            call_requires(AnMemory::resync_ranges, (m, &ranges)),
{
}

/// A table can be called through at every index.
pub proof fn law_table_accepted(t: AnTable, index: u128)
    requires
        usable(t.codec),
        t.elems@.len() <= u32::MAX,
        carried(t.codec, Width::W32, index),
    ensures
        call_requires(AnTable::call_indirect, (&t, index)),
        call_requires(AnTable::size, (&t,)),
{
}

/// The bulk operations on tables accept every operand.
pub proof fn law_table_bulk_accepted(
    t: &mut AnTable,
    segment: Vec<Option<u32>>,
    elem: Option<u32>,
    dst: u128,
    src: u128,
    len: u128,
)
    requires
        usable(old(t).codec),
        old(t).elems@.len() <= u32::MAX,
        carried(old(t).codec, Width::W32, dst),
        carried(old(t).codec, Width::W32, src),
        carried(old(t).codec, Width::W32, len),
    ensures
        call_requires(AnTable::grow, (t, elem, len)),
        call_requires(AnTable::fill, (t, dst, elem, len)),
        call_requires(AnTable::copy, (t, dst, src, len)),
        call_requires(AnTable::init, (t, &segment, dst, src, len)),
{
}

/// A view accepts every address and length.
pub proof fn law_view_accepted(
    g: &mut GuestMemory,
    data: Vec<u8>,
    off: u32,
    len: u32,
    v: u64,
    n: u32,
)
    requires
        old(g).dirty.ranges@.len() <= 128,
        !old(g).recording ==> old(g).dirty.ranges@.len() == 0,
        old(g).shadow matches Some(s) ==> {
            &&& old(g).recording
            &&& s.a > 0
            &&& old(g).bytes@.len() % 4 == 0
            &&& s.bytes@.len() == 2 * old(g).bytes@.len()
        },
    ensures
        call_requires(GuestMemory::as_slice, (&*old(g), off, len)),
        call_requires(GuestMemory::to_vec, (&*old(g), off, len)),
        call_requires(GuestMemory::as_slice_mut, (g, off, len)),
        call_requires(GuestMemory::an_take_dirty, (g,)),
        data@.len() <= u32::MAX ==> call_requires(GuestMemory::copy_from_slice, (g, &data, off)),
        n == 1 || n == 2 || n == 4 || n == 8 ==> call_requires(
            GuestMemory::read,
            (&*old(g), off, n),
        ) && call_requires(GuestMemory::write, (g, off, v, n)),
{
}

/// The code for words can be emitted wherever the builder takes instructions and the operands
/// are words, for every constant below 2^24.
pub proof fn law_emitted_words(
    b: &mut FunctionBuilder<'_>,
    e: FuncEnvironment,
    op: AnBitwiseOp,
    x: Value,
    y: Value,
    k: u32,
    d: u64,
)
    requires
        accepting(*old(b)),
        has_type(*old(b), x, Ty::I64),
        has_type(*old(b), y, Ty::I64),
        0 < e.tunables.an_constant < 0x100_0000,
        e.vmctx < u32::MAX,
        d > 0,
    ensures
        call_requires(emit_an_codeword_validity_check, (b, e.tunables.an_constant, x)),
        call_requires(emit_an_conversion_decode_i32, (b, &e, x)),
        call_requires(emit_an_bitwise_i32, (b, &e, op, x, y)),
        call_requires(emit_an_shl_i32, (b, &e, x, y)),
        call_requires(emit_an_shr_u_i32, (b, &e, x, y)),
        call_requires(emit_an_mul_i32, (b, &e, x, y)),
        call_requires(ushr_pair, (b, x, y, k)),
        call_requires(ishl_pair, (b, x, y, k)),
        call_requires(div2by1_mg, (b, x, y, d)),
        call_requires(udiv_u128_by_u64_const, (b, x, y, d)),
        call_requires(umod_u128_by_u64_const_to_i64, (b, x, y, d)),
{
}

/// The code for the shadow can be emitted wherever the builder takes instructions and the
/// operands are words, for every access.
pub proof fn law_emitted_shadow(
    b: &mut FunctionBuilder<'_>,
    e: FuncEnvironment,
    base: Value,
    raw: Value,
    eff: Value,
    a: Value,
    n: u8,
)
    requires
        accepting(*old(b)),
        has_type(*old(b), base, Ty::I64),
        has_type(*old(b), raw, Ty::I64),
        has_type(*old(b), eff, Ty::I64),
        has_type(*old(b), a, Ty::I64),
        0 < e.tunables.an_constant < 0x100_0000,
    ensures
        call_requires(check_one_slot_validity, (b, base, raw, eff, a)),
        n == 1 || n == 2 || n == 4 ==> call_requires(
            emit_an_load_validity_check,
            (b, &e, base, raw, eff, n),
        ),
        call_requires(emit_an_byte_store_rmw, (b, &e, base, raw, eff)),
        1 <= n <= 4 ==> call_requires(
            emit_an_multi_byte_decomposed_store,
            (b, &e, base, raw, eff, n),
        ),
        call_requires(emit_an_enc_offset_from_effective_addr, (b, eff)),
{
}

} // verus!
