//! Emitted code that works on words.
use crate::clif::builder::{
    accepting, at, block_params, code, extends, has_type, loads, position, stack_map_values,
    value_types,
};
use crate::clif::machine::{Access, Machine, TrapReason, Value};
use crate::division::precompute_recip;
use crate::emit::bitwise::{emit_an_bitwise_i32, table_at, AnBitwiseOp};
use crate::emit::codeword::{
    emit_an_codeword_validity_check, emit_an_conversion_decode_i32, emit_an_encode_raw_i32,
    encode_wasm_i32_bool, encode_wasm_i32_raw,
};
use crate::emit::env::{FuncEnvironment, TableOffsets};
use crate::emit::shift::{
    emit_an_mul_i32, emit_an_shl_i32, emit_an_shr_u_i32, lemma_mul_encoded, lemma_shl_encoded,
    lemma_shr_u_encoded,
};
use crate::emit::wide::{
    div2by1_mg, ishl_pair, udiv_u128_by_u64_const, umod_u128_by_u64_const_to_i64, ushr_pair,
};
use cranelift_frontend::FunctionBuilder;
use vstd::arithmetic::div_mod::{
    lemma_div_multiples_vanish, lemma_fundamental_div_mod, lemma_mod_multiples_basic,
};
use vstd::arithmetic::power2::pow2;
use vstd::prelude::*;

verus! {

/// The number that four bytes spell, lowest first.
pub open spec fn four_bytes(mem: Map<int, u8>, p: int) -> int {
    mem[p] + 0x100 * mem[p + 1] + 0x1_0000 * mem[p + 2] + 0x100_0000 * mem[p + 3]
}

/// The number that eight bytes spell, lowest first.
pub open spec fn eight_bytes(mem: Map<int, u8>, p: int) -> int {
    mem[p] + 0x100 * mem[p + 1] + 0x1_0000 * mem[p + 2] + 0x100_0000 * mem[p + 3] + 0x1_0000_0000
        * mem[p + 4] + 0x100_0000_0000 * mem[p + 5] + 0x1_0000_0000_0000 * mem[p + 6]
        + 0x100_0000_0000_0000 * mem[p + 7]
}

/// The code ran through and left memory alone.
pub open spec fn ran(s: Machine, t: Machine) -> bool {
    t.trap is None && t.mem == s.mem
}

/// The code stopped at a word that is no codeword, and left memory alone.
pub open spec fn refused(s: Machine, t: Machine) -> bool {
    t.trap == Some(TrapReason::User(49)) && t.mem == s.mem
}

/// The builder only has more code: what was there stands where it stood and keeps its types, and
/// position, blocks and stack maps stay.
pub open spec fn only_more(b: FunctionBuilder<'_>, after: FunctionBuilder<'_>) -> bool {
    &&& accepting(after)
    &&& position(after) == position(b)
    &&& block_params(after) == block_params(b)
    &&& stack_map_values(after) == stack_map_values(b)
    &&& code(b).is_prefix_of(code(after))
    &&& forall|x: Value|
        value_types(b).contains_key(x) ==> #[trigger] value_types(after).contains_key(x)
            && value_types(after)[x] == value_types(b)[x]
}

/// Code that was extended.
pub proof fn lemma_only_more(b: FunctionBuilder<'_>, after: FunctionBuilder<'_>)
    requires
        extends(b, after),
    ensures
        only_more(b, after),
{
    reveal(extends);
    reveal(has_type);
    assert forall|x: Value| value_types(b).contains_key(x) implies #[trigger] value_types(
        after,
    ).contains_key(x) && value_types(after)[x] == value_types(b)[x] by {
        assert(has_type(b, x, value_types(b)[x]));
        assert(has_type(after, x, value_types(b)[x]));
    }
}

/// The loads from `n` on are so many, all of this kind.
pub open spec fn more_loads(
    b: FunctionBuilder<'_>,
    after: FunctionBuilder<'_>,
    n: int,
    access: Access,
) -> bool {
    let k = loads(b).len();
    &&& loads(after).len() == k + n
    &&& forall|i: int|
        0 <= i < k + n ==> #[trigger] loads(after)[i] == if i < k {
            loads(b)[i]
        } else {
            access
        }
}

/// Two words as one number.
pub open spec fn together(hi: u64, lo: u64) -> int {
    0x1_0000_0000_0000_0000 * hi + lo
}

/// An encoded value is a multiple of the constant, in one word.
proof fn lemma_product(a: int, n: int)
    requires
        0 < a < 0x1_0000_0000,
        0 <= n < 0x1_0000_0000,
    ensures
        0 <= a * n < 0x1_0000_0000_0000_0000,
        (a * n) % a == 0,
        (a * n) / a == n,
        a * n == n * a,
{
    assert(0 <= a * n < 0x1_0000_0000 * 0x1_0000_0000 && a * n == n * a) by (nonlinear_arith)
        requires
            0 < a < 0x1_0000_0000,
            0 <= n < 0x1_0000_0000,
    ;
    lemma_mod_multiples_basic(n, a);
    lemma_div_multiples_vanish(n, a);
}

/// The check runs through exactly where the word is a multiple of the constant.
pub proof fn law_check(b: &mut FunctionBuilder<'_>, a: u64, x: Value, m: Machine)
    requires
        a > 0,
        at(*old(b), m).trap is None,
        call_ensures(emit_an_codeword_validity_check, (b, a, x), ()),
    ensures
        only_more(*old(b), *final(b)),
        more_loads(*old(b), *final(b), 0, Access::Plain),
        at(*old(b), m).env[x] as int % a as int == 0 ==> ran(at(*old(b), m), at(*final(b), m)),
        at(*old(b), m).env[x] as int % a as int != 0 ==> refused(
            at(*old(b), m),
            at(*final(b), m),
        ),
{
    lemma_only_more(*old(b), *final(b));
}

/// Decoding gives the value that was encoded; a word that is no codeword, or is none with the
/// injected offset, is refused.
pub proof fn law_decode(
    b: &mut FunctionBuilder<'_>,
    e: FuncEnvironment,
    x: Value,
    r: Value,
    m: Machine,
    n: int,
)
    requires
        0 < e.tunables.an_constant < 0x1_0000_0000,
        at(*old(b), m).trap is None,
        call_ensures(emit_an_conversion_decode_i32, (b, &e, x), r),
    ensures
        only_more(*old(b), *final(b)),
        more_loads(*old(b), *final(b), 0, Access::Plain),
        ({
            let (s, t) = (at(*old(b), m), at(*final(b), m));
            let a = e.tunables.an_constant as int;
            let w = s.env[x] + e.tunables.an_inject_conversion_fault;
            &&& 0 <= n < 0x1_0000_0000 && w == a * n ==> ran(s, t) && t.env[r] == n
            &&& w < 0x1_0000_0000_0000_0000 && w % a != 0 ==> refused(s, t)
        }),
{
    lemma_only_more(*old(b), *final(b));
    let a = e.tunables.an_constant as int;
    if 0 <= n < 0x1_0000_0000 {
        lemma_product(a, n);
    }
}

/// A truth value is encoded as zero or the constant, and without encoding stays.
pub proof fn law_encode_bool(
    b: &mut FunctionBuilder<'_>,
    e: FuncEnvironment,
    x: Value,
    r: Value,
    m: Machine,
)
    requires
        at(*old(b), m).trap is None,
        call_ensures(encode_wasm_i32_bool, (b, &e, x), r),
    ensures
        only_more(*old(b), *final(b)),
        more_loads(*old(b), *final(b), 0, Access::Plain),
        ({
            let (s, t) = (at(*old(b), m), at(*final(b), m));
            &&& ran(s, t)
            &&& !e.tunables.an_encoding ==> t.env[r] == s.env[x]
            &&& e.tunables.an_encoding && s.env[x] == 0 ==> t.env[r] == 0
            &&& e.tunables.an_encoding && s.env[x] != 0 ==> t.env[r] == e.tunables.an_constant
        }),
{
    lemma_only_more(*old(b), *final(b));
}

/// A value is encoded as its product with the constant.
pub proof fn law_encode(
    b: &mut FunctionBuilder<'_>,
    e: FuncEnvironment,
    x: Value,
    r: Value,
    m: Machine,
)
    requires
        0 < e.tunables.an_constant < 0x1_0000_0000,
        at(*old(b), m).trap is None,
        at(*old(b), m).env[x] < 0x1_0000_0000,
        call_ensures(emit_an_encode_raw_i32, (b, &e, x), r),
    ensures
        only_more(*old(b), *final(b)),
        more_loads(*old(b), *final(b), 0, Access::Plain),
        ran(at(*old(b), m), at(*final(b), m)),
        at(*final(b), m).env[r] == e.tunables.an_constant * at(*old(b), m).env[x],
{
    lemma_only_more(*old(b), *final(b));
    lemma_product(e.tunables.an_constant as int, at(*old(b), m).env[x] as int);
}

/// On the operand stack a value stands encoded, and without encoding as it is.
pub proof fn law_encode_stack(
    b: &mut FunctionBuilder<'_>,
    e: FuncEnvironment,
    x: Value,
    r: Value,
    m: Machine,
)
    requires
        0 < e.tunables.an_constant < 0x1_0000_0000,
        at(*old(b), m).trap is None,
        at(*old(b), m).env[x] < 0x1_0000_0000,
        call_ensures(encode_wasm_i32_raw, (b, &e, x), r),
    ensures
        only_more(*old(b), *final(b)),
        more_loads(*old(b), *final(b), 0, Access::Plain),
        ran(at(*old(b), m), at(*final(b), m)),
        e.tunables.an_encoding ==> at(*final(b), m).env[r] == e.tunables.an_constant * at(
            *old(b),
            m,
        ).env[x],
        !e.tunables.an_encoding ==> at(*final(b), m).env[r] == at(*old(b), m).env[x],
{
    lemma_only_more(*old(b), *final(b));
    lemma_product(e.tunables.an_constant as int, at(*old(b), m).env[x] as int);
}

/// The bits that an operation gives.
pub open spec fn bits(op: AnBitwiseOp, x: u64, y: u64) -> u64 {
    match op {
        AnBitwiseOp::And => x & y,
        AnBitwiseOp::Or => x | y,
        AnBitwiseOp::Xor => x ^ y,
    }
}

/// The offset of an operation's table.
pub open spec fn place(op: AnBitwiseOp, tables: TableOffsets) -> int {
    match op {
        AnBitwiseOp::And => tables.an_and_table as int,
        AnBitwiseOp::Or => tables.an_or_table as int,
        AnBitwiseOp::Xor => tables.an_xor_table as int,
    }
}

/// Each operation has the offset of its own table.
pub proof fn law_table_offset(op: AnBitwiseOp, tables: TableOffsets, r: u8)
    requires
        call_ensures(AnBitwiseOp::vmctx_offset, (op, &tables), r),
    ensures
        op is And ==> r == tables.an_and_table,
        op is Or ==> r == tables.an_or_table,
        op is Xor ==> r == tables.an_xor_table,
{
}

/// The table of an operation lies at `base`: one entry of four bytes for every two bytes, the
/// constant times the operation on them.
pub open spec fn tabulated(mem: Map<int, u8>, base: int, a: int, op: AnBitwiseOp) -> bool {
    &&& base % 4 == 0
    &&& base + 0x4_0000 <= 0x1_0000_0000_0000_0000
    &&& forall|x: u64, y: u64|
        x < 0x100 && y < 0x100 ==> four_bytes(mem, base + 4 * (0x100 * x + y)) == a
            * #[trigger] bits(op, x, y)
}

/// A bitwise operation on encoded values gives the encoding of the operation on the values; a
/// word that is no codeword is refused.
pub proof fn law_bitwise(
    b: &mut FunctionBuilder<'_>,
    e: FuncEnvironment,
    op: AnBitwiseOp,
    x: Value,
    y: Value,
    r: Value,
    st: Machine,
    n: u64,
    m: u64,
)
    requires
        0 < e.tunables.an_constant < 0x100_0000,
        at(*old(b), st).trap is None,
        (at(*old(b), st).globals[e.vmctx] + place(op, e.tables)) % 8 == 0,
        call_ensures(emit_an_bitwise_i32, (b, &e, op, x, y), r),
    ensures
        only_more(*old(b), *final(b)),
        more_loads(*old(b), *final(b), 5, Access::Readonly),
        ({
            let (s, t) = (at(*old(b), st), at(*final(b), st));
            let a = e.tunables.an_constant as int;
            let base = eight_bytes(s.mem, s.globals[e.vmctx] + place(op, e.tables));
            &&& s.env[x] as int % a != 0 || s.env[y] as int % a != 0 ==> refused(s, t)
            &&& n < 0x1_0000_0000 && m < 0x1_0000_0000 && s.env[x] == a * n && s.env[y] == a * m
                && tabulated(s.mem, base, a, op) ==> ran(s, t) && t.env[r] == a * bits(op, n, m)
        }),
{
    lemma_only_more(*old(b), *final(b));
    let s = at(*old(b), st);
    let a = e.tunables.an_constant as int;
    let base = eight_bytes(s.mem, s.globals[e.vmctx] + place(op, e.tables));
    if n < 0x1_0000_0000 && m < 0x1_0000_0000 && tabulated(s.mem, base, a, op) {
        lemma_product(a, n as int);
        lemma_product(a, m as int);
        assert(table_at(s.mem, base as u64, a, op)) by {
            reveal(table_at);
            assert forall|c: u64, d: u64| c < 0x100 && d < 0x100 implies four_bytes(
                s.mem,
                base + 4 * (0x100 * c + d),
            ) == a * #[trigger] op.apply(c, d) by {
                assert(bits(op, c, d) == op.apply(c, d));
            }
        }
    }
}

/// A left shift of an encoded value gives the encoding of the shifted value.
pub proof fn law_shl(
    b: &mut FunctionBuilder<'_>,
    e: FuncEnvironment,
    x: Value,
    k: Value,
    r: Value,
    m: Machine,
    n: int,
)
    requires
        0 < e.tunables.an_constant < 0x1_0000_0000,
        at(*old(b), m).trap is None,
        call_ensures(emit_an_shl_i32, (b, &e, x, k), r),
        0 <= n < 0x1_0000_0000,
        at(*old(b), m).env[x] == e.tunables.an_constant * n,
        at(*old(b), m).env[k] < 64,
    ensures
        only_more(*old(b), *final(b)),
        more_loads(*old(b), *final(b), 0, Access::Plain),
        ran(at(*old(b), m), at(*final(b), m)),
        at(*final(b), m).env[r] == e.tunables.an_constant * ((n * pow2(
            at(*old(b), m).env[k] as nat,
        )) % 0x1_0000_0000),
{
    lemma_only_more(*old(b), *final(b));
    lemma_shl_encoded(e.tunables.an_constant as int, n, at(*old(b), m).env[k] as nat);
}

/// A right shift of an encoded value gives the encoding of the shifted value; a word that is no
/// codeword is refused.
pub proof fn law_shr_u(
    b: &mut FunctionBuilder<'_>,
    e: FuncEnvironment,
    x: Value,
    k: Value,
    r: Value,
    m: Machine,
    n: int,
)
    requires
        0 < e.tunables.an_constant < 0x1_0000_0000,
        at(*old(b), m).trap is None,
        call_ensures(emit_an_shr_u_i32, (b, &e, x, k), r),
        at(*old(b), m).env[k] <= 32,
    ensures
        only_more(*old(b), *final(b)),
        more_loads(*old(b), *final(b), 0, Access::Plain),
        ({
            let (s, t) = (at(*old(b), m), at(*final(b), m));
            let a = e.tunables.an_constant as int;
            &&& s.env[x] as int % a != 0 ==> refused(s, t)
            &&& 0 <= n < 0x1_0000_0000 && s.env[x] == a * n ==> ran(s, t) && t.env[r] == a * (n
                / pow2(s.env[k] as nat) as int)
        }),
{
    lemma_only_more(*old(b), *final(b));
    let a = e.tunables.an_constant as int;
    if 0 <= n < 0x1_0000_0000 {
        lemma_product(a, n);
        lemma_shr_u_encoded(a, n, at(*old(b), m).env[k] as nat);
    }
}

/// A product of encoded values gives the encoding of the product of the values.
pub proof fn law_mul(
    b: &mut FunctionBuilder<'_>,
    e: FuncEnvironment,
    x: Value,
    y: Value,
    r: Value,
    st: Machine,
    n: int,
    m: int,
)
    requires
        0 < e.tunables.an_constant < 0x1_0000_0000,
        at(*old(b), st).trap is None,
        call_ensures(emit_an_mul_i32, (b, &e, x, y), r),
        0 <= n < 0x1_0000_0000,
        0 <= m < 0x1_0000_0000,
        at(*old(b), st).env[x] == e.tunables.an_constant * n,
        at(*old(b), st).env[y] == e.tunables.an_constant * m,
    ensures
        only_more(*old(b), *final(b)),
        more_loads(*old(b), *final(b), 0, Access::Plain),
        ran(at(*old(b), st), at(*final(b), st)),
        at(*final(b), st).env[r] == e.tunables.an_constant * ((n * m) % 0x1_0000_0000),
{
    lemma_only_more(*old(b), *final(b));
    lemma_mul_encoded(e.tunables.an_constant as int, n, m);
}

/// A two-word right shift divides by the power of two.
pub proof fn law_ushr_pair(
    b: &mut FunctionBuilder<'_>,
    hi: Value,
    lo: Value,
    k: u32,
    r: (Value, Value),
    m: Machine,
)
    requires
        at(*old(b), m).trap is None,
        call_ensures(ushr_pair, (b, hi, lo, k), r),
    ensures
        only_more(*old(b), *final(b)),
        more_loads(*old(b), *final(b), 0, Access::Plain),
        ran(at(*old(b), m), at(*final(b), m)),
        together(at(*final(b), m).env[r.0], at(*final(b), m).env[r.1]) == together(
            at(*old(b), m).env[hi],
            at(*old(b), m).env[lo],
        ) / pow2(k as nat) as int,
{
    lemma_only_more(*old(b), *final(b));
    let s = at(*old(b), m);
    let t = at(*final(b), m);
    assert(together(s.env[hi], s.env[lo]) == crate::clif::machine::wide(s.env[hi], s.env[lo]));
    assert(together(t.env[r.0], t.env[r.1]) == crate::clif::machine::wide(t.env[r.0], t.env[r.1]));
}

/// A two-word left shift multiplies with the power of two, modulo 2^128.
pub proof fn law_ishl_pair(
    b: &mut FunctionBuilder<'_>,
    hi: Value,
    lo: Value,
    k: u32,
    r: (Value, Value),
    m: Machine,
)
    requires
        at(*old(b), m).trap is None,
        call_ensures(ishl_pair, (b, hi, lo, k), r),
    ensures
        only_more(*old(b), *final(b)),
        more_loads(*old(b), *final(b), 0, Access::Plain),
        ran(at(*old(b), m), at(*final(b), m)),
        together(at(*final(b), m).env[r.0], at(*final(b), m).env[r.1]) == (together(
            at(*old(b), m).env[hi],
            at(*old(b), m).env[lo],
        ) * pow2(k as nat)) % 0x1_0000_0000_0000_0000_0000_0000_0000_0000int,
{
    lemma_only_more(*old(b), *final(b));
    let s = at(*old(b), m);
    let t = at(*final(b), m);
    let p = 0x1_0000_0000_0000_0000int;
    assert(p * p == 0x1_0000_0000_0000_0000_0000_0000_0000_0000int) by (nonlinear_arith)
        requires
            p == 0x1_0000_0000_0000_0000,
    ;
    assert(together(s.env[hi], s.env[lo]) == crate::clif::machine::wide(s.env[hi], s.env[lo]));
    assert(together(t.env[r.0], t.env[r.1]) == crate::clif::machine::wide(t.env[r.0], t.env[r.1]));
}

/// Quotient and remainder of a division of two words by one add up to what was divided, and the
/// remainder is below the divisor.
pub proof fn law_div2by1(
    b: &mut FunctionBuilder<'_>,
    hi: Value,
    lo: Value,
    d: u64,
    r: (Value, Value),
    m: Machine,
)
    requires
        d > 0,
        at(*old(b), m).trap is None,
        at(*old(b), m).env[hi] < d,
        call_ensures(div2by1_mg, (b, hi, lo, d), r),
    ensures
        only_more(*old(b), *final(b)),
        more_loads(*old(b), *final(b), 0, Access::Plain),
        ran(at(*old(b), m), at(*final(b), m)),
        at(*final(b), m).env[r.0] * d + at(*final(b), m).env[r.1] == together(
            at(*old(b), m).env[hi],
            at(*old(b), m).env[lo],
        ),
        at(*final(b), m).env[r.1] < d,
{
    lemma_only_more(*old(b), *final(b));
    let s = at(*old(b), m);
    let u = together(s.env[hi], s.env[lo]);
    assert(u == crate::clif::machine::wide(s.env[hi], s.env[lo]));
    lemma_fundamental_div_mod(u, d as int);
    assert(d * (u / d as int) == (u / d as int) * d) by (nonlinear_arith);
}

/// A division of two words by a constant: what is divided lies between the quotient and the next
/// number, times the divisor.
pub proof fn law_udiv(
    b: &mut FunctionBuilder<'_>,
    hi: Value,
    lo: Value,
    d: u64,
    r: (Value, Value),
    m: Machine,
)
    requires
        d > 0,
        at(*old(b), m).trap is None,
        call_ensures(udiv_u128_by_u64_const, (b, hi, lo, d), r),
    ensures
        only_more(*old(b), *final(b)),
        more_loads(*old(b), *final(b), 0, Access::Plain),
        ran(at(*old(b), m), at(*final(b), m)),
        ({
            let u = together(at(*old(b), m).env[hi], at(*old(b), m).env[lo]);
            let q = together(at(*final(b), m).env[r.0], at(*final(b), m).env[r.1]);
            d * q <= u < d * q + d
        }),
{
    lemma_only_more(*old(b), *final(b));
    let s = at(*old(b), m);
    let t = at(*final(b), m);
    let u = together(s.env[hi], s.env[lo]);
    assert(u == crate::clif::machine::wide(s.env[hi], s.env[lo]));
    assert(together(t.env[r.0], t.env[r.1]) == crate::clif::machine::wide(t.env[r.0], t.env[r.1]));
    lemma_fundamental_div_mod(u, d as int);
}

/// The remainder of two words by a constant is below it and differs from them by a multiple.
pub proof fn law_umod(
    b: &mut FunctionBuilder<'_>,
    hi: Value,
    lo: Value,
    d: u64,
    r: Value,
    m: Machine,
)
    requires
        d > 0,
        at(*old(b), m).trap is None,
        call_ensures(umod_u128_by_u64_const_to_i64, (b, hi, lo, d), r),
    ensures
        only_more(*old(b), *final(b)),
        more_loads(*old(b), *final(b), 0, Access::Plain),
        ran(at(*old(b), m), at(*final(b), m)),
        at(*final(b), m).env[r] < d,
        exists|q: int|
            together(at(*old(b), m).env[hi], at(*old(b), m).env[lo]) == #[trigger] (d * q) + at(
                *final(b),
                m,
            ).env[r],
{
    lemma_only_more(*old(b), *final(b));
    let s = at(*old(b), m);
    let t = at(*final(b), m);
    let u = together(s.env[hi], s.env[lo]);
    assert(u == crate::clif::machine::wide(s.env[hi], s.env[lo]));
    lemma_fundamental_div_mod(u, d as int);
    let q = u / d as int;
    assert(u == d * q + t.env[r]);
}

/// The reciprocal of a divisor is the greatest number that, with 2^64 added and times the
/// divisor, stays below 2^128.
pub proof fn law_reciprocal(d: u64, v: u64)
    requires
        d >= 0x8000_0000_0000_0000,
        call_ensures(precompute_recip, (d,), v),
    ensures
        (0x1_0000_0000_0000_0000 + v) * d < 0x1_0000_0000_0000_0000_0000_0000_0000_0000int,
        (0x1_0000_0000_0000_0000 + v + 1) * d >= 0x1_0000_0000_0000_0000_0000_0000_0000_0000int,
{
    let p = 0x1_0000_0000_0000_0000int;
    let u = 0x1_0000_0000_0000_0000_0000_0000_0000_0000int - 1;
    assert(p * p - 1 == u) by (nonlinear_arith)
        requires
            p == 0x1_0000_0000_0000_0000,
            u == 0x1_0000_0000_0000_0000_0000_0000_0000_0000int - 1,
    ;
    lemma_fundamental_div_mod(u, d as int);
    let q = u / d as int;
    assert(d * q == q * d && (q + 1) * d == q * d + d) by (nonlinear_arith);
    assert(q == p + v);
}

} // verus!
