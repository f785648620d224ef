//! The calls into Cranelift's function builder.
//!
//! A builder appends instructions to the block that it is positioned at. Three names say what
//! the emitters need of it: [`code`] the instructions of that block, [`value_types`] the values
//! that exist in the function, and [`accepting`] that a block is selected which takes further
//! instructions. Four more say where it is positioned, which blocks there are and which values
//! go into stack maps.
//! Each function here makes one call of the builder, and its contract says which instruction
//! the call appends, that the value it returns is a new one, and that nothing else changes. The operand types that the
//! contracts ask for are those for which the instruction is well-typed; with no block selected,
//! or an unknown value, the builder panics.
use super::machine::{
    accesses, lemma_run_push, run, step, Access, Block, Cond, Instr, Machine, Op2, Ty, Value,
};
use cranelift_codegen::ir::condcodes::IntCC;
use cranelift_codegen::ir::{self, types, InstBuilder, MemFlags, TrapCode};
use cranelift_frontend::FunctionBuilder;
use vstd::prelude::*;

verus! {

/// Cranelift's function builder.
#[verifier::external_type_specification]
#[verifier::external_body]
pub struct ExFunctionBuilder<'a>(FunctionBuilder<'a>);

/// The instructions of the block that the builder is positioned at, in order.
pub uninterp spec fn code(b: FunctionBuilder<'_>) -> Seq<Instr>;

/// The values of the function under construction that have one of the types of [`Ty`].
pub uninterp spec fn value_types(b: FunctionBuilder<'_>) -> Map<Value, Ty>;

/// Whether a block is selected and not yet ended by a terminator.
pub uninterp spec fn accepting(b: FunctionBuilder<'_>) -> bool;

/// The block that the builder is positioned at, by number.
pub uninterp spec fn position(b: FunctionBuilder<'_>) -> Option<Block>;

/// The blocks of the function, each with its parameters.
pub uninterp spec fn block_params(b: FunctionBuilder<'_>) -> Map<Block, Seq<Value>>;

/// The blocks to which no instruction has been added.
pub uninterp spec fn pristine_blocks(b: FunctionBuilder<'_>) -> Set<Block>;

/// The values that are to be recorded in stack maps.
pub uninterp spec fn stack_map_values(b: FunctionBuilder<'_>) -> Set<Value>;

/// Value `x` exists in the function and has type `ty`.
#[verifier::opaque]
pub open spec fn has_type(b: FunctionBuilder<'_>, x: Value, ty: Ty) -> bool {
    value_types(b).contains_key(x) && value_types(b)[x] == ty
}

/// An instruction leaves the position, the blocks and the stack maps alone; the block that it is
/// added to is not without instructions any more.
pub open spec fn stays(b: FunctionBuilder<'_>, after: FunctionBuilder<'_>) -> bool {
    &&& position(b) is Some
    &&& position(after) == position(b)
    &&& block_params(after) == block_params(b)
    &&& stack_map_values(after) == stack_map_values(b)
    &&& pristine_blocks(after) == pristine_blocks(b).remove(position(b)->0)
}

/// The builder after one instruction that defines no value.
pub open spec fn appended(b: FunctionBuilder<'_>, after: FunctionBuilder<'_>, i: Instr) -> bool {
    &&& accepting(after)
    &&& stays(b, after)
    &&& code(after) == code(b).push(i)
    &&& value_types(after) == value_types(b)
}

/// The builder after one instruction that defines `dst`, a value that did not exist before.
pub open spec fn defined(
    b: FunctionBuilder<'_>,
    after: FunctionBuilder<'_>,
    i: Instr,
    dst: Value,
    ty: Ty,
) -> bool {
    &&& accepting(after)
    &&& stays(b, after)
    &&& code(after) == code(b).push(i)
    &&& !value_types(b).contains_key(dst)
    &&& value_types(after) == value_types(b).insert(dst, ty)
}

/// The builder after one instruction that defines two new values, a 64-bit and an 8-bit one.
pub open spec fn defined2(
    b: FunctionBuilder<'_>,
    after: FunctionBuilder<'_>,
    i: Instr,
    dst: Value,
    flag: Value,
) -> bool {
    &&& accepting(after)
    &&& stays(b, after)
    &&& code(after) == code(b).push(i)
    &&& dst != flag
    &&& !value_types(b).contains_key(dst)
    &&& !value_types(b).contains_key(flag)
    &&& value_types(after) == value_types(b).insert(dst, Ty::I64).insert(flag, Ty::I8)
}

/// `InstBuilder::iconst` at type `I64`: appends the constant.
#[verifier::external_body]
pub(crate) fn iconst(builder: &mut FunctionBuilder<'_>, imm: u64) -> (dst: Value)
    requires
        accepting(*old(builder)),
    ensures
        accepting(*final(builder)),
        code(*final(builder)) == code(*old(builder)).push(Instr::Iconst { dst, imm }),
        !value_types(*old(builder)).contains_key(dst),
        value_types(*final(builder)) == value_types(*old(builder)).insert(dst, Ty::I64),
        defined(*old(builder), *final(builder), Instr::Iconst { dst, imm }, dst, Ty::I64),
{
    Value(builder.ins().iconst(types::I64, imm as i64).as_u32())
}

/// `InstBuilder::global_value` at type `I64`: the address that global value `gv` stands for. The
/// largest number is no global value.
#[verifier::external_body]
pub(crate) fn global_value(builder: &mut FunctionBuilder<'_>, gv: u32) -> (dst: Value)
    requires
        accepting(*old(builder)),
        gv < u32::MAX,
    ensures
        defined(*old(builder), *final(builder), Instr::GlobalValue { dst, gv }, dst, Ty::I64),
{
    Value(builder.ins().global_value(types::I64, ir::GlobalValue::from_u32(gv)).as_u32())
}

/// `InstBuilder::iadd` on two 64-bit values: wrapping addition.
#[verifier::external_body]
pub(crate) fn iadd(builder: &mut FunctionBuilder<'_>, x: Value, y: Value) -> (dst: Value)
    requires
        accepting(*old(builder)),
        has_type(*old(builder), x, Ty::I64),
        has_type(*old(builder), y, Ty::I64),
    ensures
        defined(
            *old(builder),
            *final(builder),
            Instr::Binary { op: Op2::Iadd, dst, x, y },
            dst,
            Ty::I64,
        ),
{
    let (x, y) = (ir::Value::from_u32(x.0), ir::Value::from_u32(y.0));
    Value(builder.ins().iadd(x, y).as_u32())
}

/// `InstBuilder::isub` on two 64-bit values: wrapping subtraction.
#[verifier::external_body]
pub(crate) fn isub(builder: &mut FunctionBuilder<'_>, x: Value, y: Value) -> (dst: Value)
    requires
        accepting(*old(builder)),
        has_type(*old(builder), x, Ty::I64),
        has_type(*old(builder), y, Ty::I64),
    ensures
        defined(
            *old(builder),
            *final(builder),
            Instr::Binary { op: Op2::Isub, dst, x, y },
            dst,
            Ty::I64,
        ),
{
    let (x, y) = (ir::Value::from_u32(x.0), ir::Value::from_u32(y.0));
    Value(builder.ins().isub(x, y).as_u32())
}

/// `InstBuilder::imul` on two 64-bit values: wrapping multiplication, the low half of the product.
#[verifier::external_body]
pub(crate) fn imul(builder: &mut FunctionBuilder<'_>, x: Value, y: Value) -> (dst: Value)
    requires
        accepting(*old(builder)),
        has_type(*old(builder), x, Ty::I64),
        has_type(*old(builder), y, Ty::I64),
    ensures
        defined(
            *old(builder),
            *final(builder),
            Instr::Binary { op: Op2::Imul, dst, x, y },
            dst,
            Ty::I64,
        ),
{
    let (x, y) = (ir::Value::from_u32(x.0), ir::Value::from_u32(y.0));
    Value(builder.ins().imul(x, y).as_u32())
}

/// `InstBuilder::umulhi` on two 64-bit values: the high half of the unsigned product.
#[verifier::external_body]
pub(crate) fn umulhi(builder: &mut FunctionBuilder<'_>, x: Value, y: Value) -> (dst: Value)
    requires
        accepting(*old(builder)),
        has_type(*old(builder), x, Ty::I64),
        has_type(*old(builder), y, Ty::I64),
    ensures
        defined(
            *old(builder),
            *final(builder),
            Instr::Binary { op: Op2::Umulhi, dst, x, y },
            dst,
            Ty::I64,
        ),
{
    let (x, y) = (ir::Value::from_u32(x.0), ir::Value::from_u32(y.0));
    Value(builder.ins().umulhi(x, y).as_u32())
}

/// `InstBuilder::udiv` on two 64-bit values: unsigned division, which traps on a zero divisor.
#[verifier::external_body]
pub(crate) fn udiv(builder: &mut FunctionBuilder<'_>, x: Value, y: Value) -> (dst: Value)
    requires
        accepting(*old(builder)),
        has_type(*old(builder), x, Ty::I64),
        has_type(*old(builder), y, Ty::I64),
    ensures
        defined(
            *old(builder),
            *final(builder),
            Instr::Binary { op: Op2::Udiv, dst, x, y },
            dst,
            Ty::I64,
        ),
{
    let (x, y) = (ir::Value::from_u32(x.0), ir::Value::from_u32(y.0));
    Value(builder.ins().udiv(x, y).as_u32())
}

/// `InstBuilder::urem` on two 64-bit values: unsigned remainder, which traps on a zero divisor.
#[verifier::external_body]
pub(crate) fn urem(builder: &mut FunctionBuilder<'_>, x: Value, y: Value) -> (dst: Value)
    requires
        accepting(*old(builder)),
        has_type(*old(builder), x, Ty::I64),
        has_type(*old(builder), y, Ty::I64),
    ensures
        defined(
            *old(builder),
            *final(builder),
            Instr::Binary { op: Op2::Urem, dst, x, y },
            dst,
            Ty::I64,
        ),
{
    let (x, y) = (ir::Value::from_u32(x.0), ir::Value::from_u32(y.0));
    Value(builder.ins().urem(x, y).as_u32())
}

/// `InstBuilder::band` on two 64-bit values: bitwise and.
#[verifier::external_body]
pub(crate) fn band(builder: &mut FunctionBuilder<'_>, x: Value, y: Value) -> (dst: Value)
    requires
        accepting(*old(builder)),
        has_type(*old(builder), x, Ty::I64),
        has_type(*old(builder), y, Ty::I64),
    ensures
        defined(
            *old(builder),
            *final(builder),
            Instr::Binary { op: Op2::Band, dst, x, y },
            dst,
            Ty::I64,
        ),
{
    let (x, y) = (ir::Value::from_u32(x.0), ir::Value::from_u32(y.0));
    Value(builder.ins().band(x, y).as_u32())
}

/// `InstBuilder::bor` on two 64-bit values: bitwise or.
#[verifier::external_body]
pub(crate) fn bor(builder: &mut FunctionBuilder<'_>, x: Value, y: Value) -> (dst: Value)
    requires
        accepting(*old(builder)),
        has_type(*old(builder), x, Ty::I64),
        has_type(*old(builder), y, Ty::I64),
    ensures
        defined(
            *old(builder),
            *final(builder),
            Instr::Binary { op: Op2::Bor, dst, x, y },
            dst,
            Ty::I64,
        ),
{
    let (x, y) = (ir::Value::from_u32(x.0), ir::Value::from_u32(y.0));
    Value(builder.ins().bor(x, y).as_u32())
}

/// `InstBuilder::ishl` on two 64-bit values: left shift, the amount taken modulo 64.
#[verifier::external_body]
pub(crate) fn ishl(builder: &mut FunctionBuilder<'_>, x: Value, y: Value) -> (dst: Value)
    requires
        accepting(*old(builder)),
        has_type(*old(builder), x, Ty::I64),
        has_type(*old(builder), y, Ty::I64),
    ensures
        defined(
            *old(builder),
            *final(builder),
            Instr::Binary { op: Op2::Ishl, dst, x, y },
            dst,
            Ty::I64,
        ),
{
    let (x, y) = (ir::Value::from_u32(x.0), ir::Value::from_u32(y.0));
    Value(builder.ins().ishl(x, y).as_u32())
}

/// `InstBuilder::iadd_imm` on a 64-bit value: wrapping addition of an immediate.
#[verifier::external_body]
pub(crate) fn iadd_imm(builder: &mut FunctionBuilder<'_>, x: Value, imm: u64) -> (dst: Value)
    requires
        accepting(*old(builder)),
        has_type(*old(builder), x, Ty::I64),
    ensures
        defined(
            *old(builder),
            *final(builder),
            Instr::BinaryImm { op: Op2::Iadd, dst, x, imm },
            dst,
            Ty::I64,
        ),
{
    Value(builder.ins().iadd_imm(ir::Value::from_u32(x.0), imm as i64).as_u32())
}

/// `InstBuilder::band_imm` on a 64-bit value: bitwise and with an immediate.
#[verifier::external_body]
pub(crate) fn band_imm(builder: &mut FunctionBuilder<'_>, x: Value, imm: u64) -> (dst: Value)
    requires
        accepting(*old(builder)),
        has_type(*old(builder), x, Ty::I64),
    ensures
        defined(
            *old(builder),
            *final(builder),
            Instr::BinaryImm { op: Op2::Band, dst, x, imm },
            dst,
            Ty::I64,
        ),
{
    Value(builder.ins().band_imm(ir::Value::from_u32(x.0), imm as i64).as_u32())
}

/// `InstBuilder::ishl_imm` on a 64-bit value: left shift by an immediate, taken modulo 64.
#[verifier::external_body]
pub(crate) fn ishl_imm(builder: &mut FunctionBuilder<'_>, x: Value, imm: u64) -> (dst: Value)
    requires
        accepting(*old(builder)),
        has_type(*old(builder), x, Ty::I64),
    ensures
        defined(
            *old(builder),
            *final(builder),
            Instr::BinaryImm { op: Op2::Ishl, dst, x, imm },
            dst,
            Ty::I64,
        ),
{
    Value(builder.ins().ishl_imm(ir::Value::from_u32(x.0), imm as i64).as_u32())
}

/// `InstBuilder::ushr_imm` on a 64-bit value: logical right shift by an immediate, taken modulo 64.
#[verifier::external_body]
pub(crate) fn ushr_imm(builder: &mut FunctionBuilder<'_>, x: Value, imm: u64) -> (dst: Value)
    requires
        accepting(*old(builder)),
        has_type(*old(builder), x, Ty::I64),
    ensures
        defined(
            *old(builder),
            *final(builder),
            Instr::BinaryImm { op: Op2::Ushr, dst, x, imm },
            dst,
            Ty::I64,
        ),
{
    Value(builder.ins().ushr_imm(ir::Value::from_u32(x.0), imm as i64).as_u32())
}

/// `InstBuilder::bnot` on a 64-bit value: bitwise complement.
#[verifier::external_body]
pub(crate) fn bnot(builder: &mut FunctionBuilder<'_>, x: Value) -> (dst: Value)
    requires
        accepting(*old(builder)),
        has_type(*old(builder), x, Ty::I64),
    ensures
        defined(*old(builder), *final(builder), Instr::Bnot { dst, x }, dst, Ty::I64),
{
    Value(builder.ins().bnot(ir::Value::from_u32(x.0)).as_u32())
}

/// `InstBuilder::uadd_overflow` on two 64-bit values: the wrapped sum and, as an 8-bit value,
/// whether it wrapped.
#[verifier::external_body]
pub(crate) fn uadd_overflow(builder: &mut FunctionBuilder<'_>, x: Value, y: Value) -> (r: (
    Value,
    Value,
))
    requires
        accepting(*old(builder)),
        has_type(*old(builder), x, Ty::I64),
        has_type(*old(builder), y, Ty::I64),
    ensures
        defined2(
            *old(builder),
            *final(builder),
            Instr::UaddOverflow { dst: r.0, carry: r.1, x, y },
            r.0,
            r.1,
        ),
{
    let (x, y) = (ir::Value::from_u32(x.0), ir::Value::from_u32(y.0));
    let (sum, carry) = builder.ins().uadd_overflow(x, y);
    (Value(sum.as_u32()), Value(carry.as_u32()))
}

/// `InstBuilder::icmp` on two 64-bit values: an 8-bit value, 1 where the comparison holds and 0
/// where it does not.
#[verifier::external_body]
pub(crate) fn int_compare(builder: &mut FunctionBuilder<'_>, cond: Cond, x: Value, y: Value) -> (dst:
    Value)
    requires
        accepting(*old(builder)),
        has_type(*old(builder), x, Ty::I64),
        has_type(*old(builder), y, Ty::I64),
    ensures
        defined(*old(builder), *final(builder), Instr::Compare { dst, cond, x, y }, dst, Ty::I8),
{
    let cc = match cond {
        Cond::NotEqual => IntCC::NotEqual,
        Cond::UnsignedGreaterThan => IntCC::UnsignedGreaterThan,
        Cond::UnsignedGreaterThanOrEqual => IntCC::UnsignedGreaterThanOrEqual,
    };
    let (x, y) = (ir::Value::from_u32(x.0), ir::Value::from_u32(y.0));
    Value(builder.ins().icmp(cc, x, y).as_u32())
}

/// `InstBuilder::select` between two 64-bit values: the first where the 8-bit value `c` is not
/// zero, else the second.
#[verifier::external_body]
pub(crate) fn select(builder: &mut FunctionBuilder<'_>, c: Value, x: Value, y: Value) -> (dst:
    Value)
    requires
        accepting(*old(builder)),
        has_type(*old(builder), c, Ty::I8),
        has_type(*old(builder), x, Ty::I64),
        has_type(*old(builder), y, Ty::I64),
    ensures
        defined(*old(builder), *final(builder), Instr::Select { dst, c, x, y }, dst, Ty::I64),
{
    let (x, y) = (ir::Value::from_u32(x.0), ir::Value::from_u32(y.0));
    Value(builder.ins().select(ir::Value::from_u32(c.0), x, y).as_u32())
}

/// `InstBuilder::uextend` of an 8-bit or 32-bit value to `to`: zero extension.
#[verifier::external_body]
pub(crate) fn uextend(builder: &mut FunctionBuilder<'_>, to: Ty, x: Value) -> (dst: Value)
    requires
        accepting(*old(builder)),
        to == Ty::I64 || to == Ty::I32,
        has_type(*old(builder), x, Ty::I8) || to == Ty::I64 && has_type(
            *old(builder),
            x,
            Ty::I32,
        ),
    ensures
        defined(*old(builder), *final(builder), Instr::Uextend { dst, x }, dst, to),
{
    let ty = match to {
        Ty::I32 => types::I32,
        _ => types::I64,
    };
    Value(builder.ins().uextend(ty, ir::Value::from_u32(x.0)).as_u32())
}

/// `InstBuilder::ireduce` of a 64-bit value to type `I32`: the low 32 bits.
#[verifier::external_body]
pub(crate) fn ireduce(builder: &mut FunctionBuilder<'_>, x: Value) -> (dst: Value)
    requires
        accepting(*old(builder)),
        has_type(*old(builder), x, Ty::I64),
    ensures
        defined(*old(builder), *final(builder), Instr::Ireduce32 { dst, x }, dst, Ty::I32),
{
    Value(builder.ins().ireduce(types::I32, ir::Value::from_u32(x.0)).as_u32())
}

/// `InstBuilder::load` of a 32-bit or 64-bit value with the flags of `MemFlags::trusted`,
/// for read-only memory with the read-only flag added.
#[verifier::external_body]
pub(crate) fn load(
    builder: &mut FunctionBuilder<'_>,
    ty: Ty,
    access: Access,
    addr: Value,
    offset: i32,
) -> (dst: Value)
    requires
        accepting(*old(builder)),
        ty == Ty::I32 || ty == Ty::I64,
        has_type(*old(builder), addr, Ty::I64),
    ensures
        defined(
            *old(builder),
            *final(builder),
            Instr::Load { dst, ty, access, addr, offset },
            dst,
            ty,
        ),
{
    let ty = match ty {
        Ty::I32 => types::I32,
        _ => types::I64,
    };
    let flags = match access {
        Access::Plain => MemFlags::trusted(),
        Access::Readonly => MemFlags::trusted().with_readonly(),
    };
    Value(builder.ins().load(ty, flags, ir::Value::from_u32(addr.0), offset).as_u32())
}

/// `InstBuilder::store` of a 64-bit value with the flags of `MemFlags::trusted`.
#[verifier::external_body]
pub(crate) fn store(builder: &mut FunctionBuilder<'_>, x: Value, addr: Value, offset: i32)
    requires
        accepting(*old(builder)),
        has_type(*old(builder), x, Ty::I64),
        has_type(*old(builder), addr, Ty::I64),
    ensures
        appended(*old(builder), *final(builder), Instr::Store { x, addr, offset }),
{
    let (x, p) = (ir::Value::from_u32(x.0), ir::Value::from_u32(addr.0));
    builder.ins().store(MemFlags::trusted(), x, p, offset);
}

/// `InstBuilder::trapnz` on an 8-bit or 64-bit value, with the user trap code that
/// `TrapCode::unwrap_user` makes of `code`. Zero and the five highest codes are not user codes.
#[verifier::external_body]
pub(crate) fn trapnz(builder: &mut FunctionBuilder<'_>, c: Value, code: u8)
    requires
        accepting(*old(builder)),
        has_type(*old(builder), c, Ty::I8) || has_type(*old(builder), c, Ty::I64),
        1 <= code <= 250,
    ensures
        appended(*old(builder), *final(builder), Instr::Trapnz { c, code }),
{
    builder.ins().trapnz(ir::Value::from_u32(c.0), TrapCode::unwrap_user(code));
}

/// `DataFlowGraph::value_type`: the type of a value.
#[verifier::external_body]
pub(crate) fn value_type(builder: &FunctionBuilder<'_>, x: Value) -> (ty: Ty)
    requires
        value_types(*builder).contains_key(x),
    ensures
        ty == value_types(*builder)[x],
{
    match builder.func.dfg.value_type(ir::Value::from_u32(x.0)) {
        types::I8 => Ty::I8,
        types::I32 => Ty::I32,
        types::I64 => Ty::I64,
        types::I128 => Ty::I128,
        types::F32 => Ty::F32,
        types::F64 => Ty::F64,
        _ => Ty::I8X16,
    }
}

/// `FunctionBuilder::current_block`: the block that the builder is positioned at.
#[verifier::external_body]
pub(crate) fn current_block(builder: &FunctionBuilder<'_>) -> (r: Option<Block>)
    ensures
        r == position(*builder),
{
    builder.current_block().map(|b: ir::Block| Block(b.as_u32()))
}

/// `FunctionBuilder::create_block`: a new block without parameters and instructions. The
/// builder stays where it is.
#[verifier::external_body]
pub(crate) fn create_block(builder: &mut FunctionBuilder<'_>) -> (block: Block)
    ensures
        !block_params(*old(builder)).contains_key(block),
        block_params(*final(builder)) == block_params(*old(builder)).insert(block, Seq::empty()),
        pristine_blocks(*final(builder)) == pristine_blocks(*old(builder)).insert(block),
        stack_map_values(*final(builder)) == stack_map_values(*old(builder)),
        value_types(*final(builder)) == value_types(*old(builder)),
        position(*final(builder)) == position(*old(builder)),
        accepting(*final(builder)) == accepting(*old(builder)),
        code(*final(builder)) == code(*old(builder)),
{
    Block(builder.create_block().as_u32())
}

/// `FunctionBuilder::append_block_param`: one more parameter, a new value, for a block that has
/// no instructions yet. A block has at most 65536 parameters.
#[verifier::external_body]
pub(crate) fn append_block_param(builder: &mut FunctionBuilder<'_>, block: Block, ty: Ty) -> (v:
    Value)
    requires
        block_params(*old(builder)).contains_key(block),
        pristine_blocks(*old(builder)).contains(block),
        block_params(*old(builder))[block].len() <= 0xffff,
    ensures
        !value_types(*old(builder)).contains_key(v),
        value_types(*final(builder)) == value_types(*old(builder)).insert(v, ty),
        block_params(*final(builder)) == block_params(*old(builder)).insert(
            block,
            block_params(*old(builder))[block].push(v),
        ),
        pristine_blocks(*final(builder)) == pristine_blocks(*old(builder)),
        stack_map_values(*final(builder)) == stack_map_values(*old(builder)),
        position(*final(builder)) == position(*old(builder)),
        accepting(*final(builder)) == accepting(*old(builder)),
        code(*final(builder)) == code(*old(builder)),
{
    let ty = match ty {
        Ty::I8 => types::I8,
        Ty::I32 => types::I32,
        Ty::I64 => types::I64,
        Ty::I128 => types::I128,
        Ty::F32 => types::F32,
        Ty::F64 => types::F64,
        Ty::I8X16 => types::I8X16,
    };
    Value(builder.append_block_param(ir::Block::from_u32(block.0), ty).as_u32())
}

/// `FunctionBuilder::declare_value_needs_stack_map`: the value is recorded in stack maps. Every
/// type of [`Ty`] has a size that is a power of two and at most sixteen, as the builder asserts.
#[verifier::external_body]
pub(crate) fn declare_value_needs_stack_map(builder: &mut FunctionBuilder<'_>, v: Value)
    requires
        value_types(*old(builder)).contains_key(v),
    ensures
        stack_map_values(*final(builder)) == stack_map_values(*old(builder)).insert(v),
        value_types(*final(builder)) == value_types(*old(builder)),
        block_params(*final(builder)) == block_params(*old(builder)),
        pristine_blocks(*final(builder)) == pristine_blocks(*old(builder)),
        position(*final(builder)) == position(*old(builder)),
        accepting(*final(builder)) == accepting(*old(builder)),
        code(*final(builder)) == code(*old(builder)),
{
    builder.declare_value_needs_stack_map(ir::Value::from_u32(v.0));
}

/// `FunctionBuilder::switch_to_block`, from no block to one without instructions, which then
/// accepts them.
#[verifier::external_body]
pub(crate) fn switch_to_block(builder: &mut FunctionBuilder<'_>, block: Block)
    requires
        position(*old(builder)) is None,
        block_params(*old(builder)).contains_key(block),
        pristine_blocks(*old(builder)).contains(block),
    ensures
        position(*final(builder)) == Some(block),
        accepting(*final(builder)),
        code(*final(builder)) == Seq::<Instr>::empty(),
        value_types(*final(builder)) == value_types(*old(builder)),
        block_params(*final(builder)) == block_params(*old(builder)),
        pristine_blocks(*final(builder)) == pristine_blocks(*old(builder)),
        stack_map_values(*final(builder)) == stack_map_values(*old(builder)),
{
    builder.switch_to_block(ir::Block::from_u32(block.0));
}

/// The state after the code of the current block, from state `m` at its start.
#[verifier::opaque]
pub open spec fn at(b: FunctionBuilder<'_>, m: Machine) -> Machine {
    run(m, code(b))
}

/// How the loads of the current block access memory, in order.
#[verifier::opaque]
pub open spec fn loads(b: FunctionBuilder<'_>) -> Seq<Access> {
    accesses(code(b))
}

/// Nothing but the code of the current block, and the values that it defines, has changed: the
/// position, the blocks and the stack maps are as they were.
pub open spec fn kept(b: FunctionBuilder<'_>, after: FunctionBuilder<'_>) -> bool {
    &&& position(after) == position(b)
    &&& block_params(after) == block_params(b)
    &&& stack_map_values(after) == stack_map_values(b)
    &&& pristine_blocks(after) == pristine_blocks(b) || position(b) is Some && pristine_blocks(
        after,
    ) == pristine_blocks(b).remove(position(b)->0)
}

/// The code has only been extended: what was there stands where it stood, runs as before and
/// keeps its values, and all else is kept.
#[verifier::opaque]
pub open spec fn extends(b: FunctionBuilder<'_>, after: FunctionBuilder<'_>) -> bool {
    &&& accepting(after)
    &&& kept(b, after)
    &&& code(b).is_prefix_of(code(after))
    &&& forall|x: Value, ty: Ty|
        has_type(b, x, ty) ==> #[trigger] has_type(after, x, ty)
    &&& forall|m: Machine, x: Value, ty: Ty|
        #![trigger at(after, m), has_type(b, x, ty)]
        has_type(b, x, ty) ==> at(after, m).env[x] == at(b, m).env[x]
    &&& forall|m: Machine|
        #![trigger at(after, m)]
        at(b, m).trap is Some ==> at(after, m) == at(b, m)
}

/// Every builder extends itself.
pub proof fn lemma_extends_refl(b: FunctionBuilder<'_>)
    requires
        accepting(b),
    ensures
        extends(b, b),
{
    reveal(extends);
}

/// Extension is transitive.
pub broadcast proof fn lemma_extends_trans(
    a: FunctionBuilder<'_>,
    b: FunctionBuilder<'_>,
    c: FunctionBuilder<'_>,
)
    requires
        #[trigger] extends(a, b),
        #[trigger] extends(b, c),
    ensures
        extends(a, c),
{
    reveal(extends);
    assert(kept(a, c)) by {
        if position(a) is Some {
            let (s, p) = (pristine_blocks(a), position(a)->0);
            assert(s.remove(p).remove(p) =~= s.remove(p));
        }
    }
    assert(code(a).is_prefix_of(code(c))) by {
        let (x, y) = (code(a), code(b));
        assert(x =~= y.subrange(0, x.len() as int));
        assert(y =~= code(c).subrange(0, y.len() as int));
    }
    assert forall|m: Machine, x: Value, ty: Ty|
        #![trigger at(c, m), has_type(a, x, ty)]
        has_type(a, x, ty) implies at(c, m).env[x] == at(a, m).env[x] by {
        assert(has_type(b, x, ty));
        assert(at(b, m).env[x] == at(a, m).env[x]);
    }
    assert forall|m: Machine| #![trigger at(c, m)] at(a, m).trap is Some implies at(c, m) == at(
        a,
        m,
    ) by {
        assert(at(b, m) == at(a, m));
    }
}

/// Whatever an emitter adds to the code of a block, it leaves the position, the blocks and the
/// stack maps alone, and every instruction that was there where it stood.
pub proof fn lemma_extends_kept(b: FunctionBuilder<'_>, after: FunctionBuilder<'_>)
    requires
        extends(b, after),
    ensures
        kept(b, after),
        code(b).is_prefix_of(code(after)),
{
    reveal(extends);
}

/// Extended code still accepts instructions.
pub broadcast proof fn lemma_extends_accepting(b: FunctionBuilder<'_>, after: FunctionBuilder<'_>)
    requires
        #[trigger] extends(b, after),
    ensures
        accepting(after),
{
    reveal(extends);
}

/// Extended code keeps the types of its values.
pub broadcast proof fn lemma_extends_type(
    b: FunctionBuilder<'_>,
    after: FunctionBuilder<'_>,
    x: Value,
    ty: Ty,
)
    requires
        #[trigger] extends(b, after),
        #[trigger] has_type(b, x, ty),
    ensures
        has_type(after, x, ty),
{
    reveal(extends);
}

/// Extended code keeps the contents of its values.
pub broadcast proof fn lemma_extends_value(
    b: FunctionBuilder<'_>,
    after: FunctionBuilder<'_>,
    x: Value,
    ty: Ty,
    m: Machine,
)
    requires
        #[trigger] extends(b, after),
        #[trigger] has_type(b, x, ty),
    ensures
        (#[trigger] at(after, m)).env[x] == at(b, m).env[x],
{
    reveal(extends);
}

/// Extended code stops where it stopped before.
pub broadcast proof fn lemma_extends_trap(
    b: FunctionBuilder<'_>,
    after: FunctionBuilder<'_>,
    m: Machine,
)
    requires
        #[trigger] extends(b, after),
        at(b, m).trap is Some,
    ensures
        #[trigger] at(after, m) == at(b, m),
{
    reveal(extends);
}

/// An instruction that defines a value takes the state one step further.
pub broadcast proof fn lemma_defined(
    b: FunctionBuilder<'_>,
    after: FunctionBuilder<'_>,
    i: Instr,
    dst: Value,
    ty: Ty,
    m: Machine,
)
    requires
        #[trigger] defined(b, after, i, dst, ty),
    ensures
        #[trigger] at(after, m) == step(at(b, m), i),
{
    reveal(at);
    lemma_run_push(m, code(b), i);
}

/// A defined value has its type.
pub broadcast proof fn lemma_defined_type(
    b: FunctionBuilder<'_>,
    after: FunctionBuilder<'_>,
    i: Instr,
    dst: Value,
    ty: Ty,
)
    requires
        #[trigger] defined(b, after, i, dst, ty),
    ensures
        has_type(after, dst, ty),
{
    reveal(has_type);
}

/// A defined value is none of those that existed before, and these keep their types.
pub broadcast proof fn lemma_defined_keeps(
    b: FunctionBuilder<'_>,
    after: FunctionBuilder<'_>,
    i: Instr,
    dst: Value,
    ty: Ty,
    x: Value,
    x_ty: Ty,
)
    requires
        #[trigger] defined(b, after, i, dst, ty),
        #[trigger] has_type(b, x, x_ty),
    ensures
        x != dst,
        has_type(after, x, x_ty),
{
    reveal(has_type);
}

/// An instruction that defines two values takes the state one step further.
pub broadcast proof fn lemma_defined2(
    b: FunctionBuilder<'_>,
    after: FunctionBuilder<'_>,
    i: Instr,
    dst: Value,
    flag: Value,
    m: Machine,
)
    requires
        #[trigger] defined2(b, after, i, dst, flag),
    ensures
        #[trigger] at(after, m) == step(at(b, m), i),
{
    reveal(at);
    lemma_run_push(m, code(b), i);
}

/// Two defined values have their types.
pub broadcast proof fn lemma_defined2_type(
    b: FunctionBuilder<'_>,
    after: FunctionBuilder<'_>,
    i: Instr,
    dst: Value,
    flag: Value,
)
    requires
        #[trigger] defined2(b, after, i, dst, flag),
    ensures
        has_type(after, dst, Ty::I64),
        has_type(after, flag, Ty::I8),
{
    reveal(has_type);
}

/// Two defined values are none of those that existed before, and these keep their types.
pub broadcast proof fn lemma_defined2_keeps(
    b: FunctionBuilder<'_>,
    after: FunctionBuilder<'_>,
    i: Instr,
    dst: Value,
    flag: Value,
    x: Value,
    x_ty: Ty,
)
    requires
        #[trigger] defined2(b, after, i, dst, flag),
        #[trigger] has_type(b, x, x_ty),
    ensures
        x != dst,
        x != flag,
        has_type(after, x, x_ty),
{
    reveal(has_type);
}

/// An instruction that defines no value takes the state one step further.
pub broadcast proof fn lemma_appended(
    b: FunctionBuilder<'_>,
    after: FunctionBuilder<'_>,
    i: Instr,
    m: Machine,
)
    requires
        #[trigger] appended(b, after, i),
    ensures
        #[trigger] at(after, m) == step(at(b, m), i),
{
    reveal(at);
    lemma_run_push(m, code(b), i);
}

/// An instruction that defines no value keeps the types of those there are.
pub broadcast proof fn lemma_appended_keeps(
    b: FunctionBuilder<'_>,
    after: FunctionBuilder<'_>,
    i: Instr,
    x: Value,
    x_ty: Ty,
)
    requires
        #[trigger] appended(b, after, i),
        #[trigger] has_type(b, x, x_ty),
    ensures
        has_type(after, x, x_ty),
{
    reveal(has_type);
}

/// An instruction that defines a value adds to the loads where it is one.
pub broadcast proof fn lemma_defined_loads(
    b: FunctionBuilder<'_>,
    after: FunctionBuilder<'_>,
    i: Instr,
    dst: Value,
    ty: Ty,
)
    requires
        #[trigger] defined(b, after, i, dst, ty),
    ensures
        #[trigger] loads(after) == match i {
            Instr::Load { access, .. } => loads(b).push(access),
            _ => loads(b),
        },
{
    reveal(loads);
    assert(code(b).push(i).drop_last() =~= code(b));
}

/// An instruction that defines two values is no load.
pub broadcast proof fn lemma_defined2_loads(
    b: FunctionBuilder<'_>,
    after: FunctionBuilder<'_>,
    i: Instr,
    dst: Value,
    flag: Value,
)
    requires
        #[trigger] defined2(b, after, i, dst, flag),
        i !is Load,
    ensures
        #[trigger] loads(after) == loads(b),
{
    reveal(loads);
    assert(code(b).push(i).drop_last() =~= code(b));
}

/// An instruction that defines no value is no load.
pub broadcast proof fn lemma_appended_loads(
    b: FunctionBuilder<'_>,
    after: FunctionBuilder<'_>,
    i: Instr,
)
    requires
        #[trigger] appended(b, after, i),
        i !is Load,
    ensures
        #[trigger] loads(after) == loads(b),
{
    reveal(loads);
    assert(code(b).push(i).drop_last() =~= code(b));
}

/// Whether the instruction writes value `x`.
pub open spec fn writes(i: Instr, x: Value) -> bool {
    match i {
        Instr::Store { .. } | Instr::Trapnz { .. } => false,
        Instr::UaddOverflow { dst, carry, .. } => x == dst || x == carry,
        Instr::Iconst { dst, .. }
        | Instr::GlobalValue { dst, .. }
        | Instr::Binary { dst, .. }
        | Instr::BinaryImm { dst, .. }
        | Instr::Bnot { dst, .. }
        | Instr::Compare { dst, .. }
        | Instr::Select { dst, .. }
        | Instr::Uextend { dst, .. }
        | Instr::Ireduce32 { dst, .. }
        | Instr::Load { dst, .. } => x == dst,
    }
}

/// One more instruction extends the code.
proof fn lemma_push_extends(b: FunctionBuilder<'_>, after: FunctionBuilder<'_>, i: Instr)
    requires
        accepting(after),
        stays(b, after),
        code(after) == code(b).push(i),
        forall|x: Value, ty: Ty|
            has_type(b, x, ty) ==> #[trigger] has_type(after, x, ty) && !writes(i, x),
    ensures
        extends(b, after),
{
    reveal(extends);
    assert(code(b) =~= code(after).subrange(0, code(b).len() as int));
    assert forall|m: Machine| #[trigger] at(after, m) == step(at(b, m), i) by {
        reveal(at);
        lemma_run_push(m, code(b), i);
    }
    assert forall|m: Machine, x: Value, ty: Ty|
        #![trigger at(after, m), has_type(b, x, ty)]
        has_type(b, x, ty) implies at(after, m).env[x] == at(b, m).env[x] by {
        assert(has_type(after, x, ty));
    }
}

/// One more instruction that defines a value extends the code.
pub broadcast proof fn lemma_extends_defined(
    a: FunctionBuilder<'_>,
    b: FunctionBuilder<'_>,
    after: FunctionBuilder<'_>,
    i: Instr,
    dst: Value,
    ty: Ty,
)
    requires
        #[trigger] extends(a, b),
        #[trigger] defined(b, after, i, dst, ty),
        forall|x: Value| #[trigger] writes(i, x) ==> x == dst,
    ensures
        extends(a, after),
{
    assert forall|x: Value, x_ty: Ty| has_type(b, x, x_ty) implies #[trigger] has_type(
        after,
        x,
        x_ty,
    ) && !writes(i, x) by {
        lemma_defined_keeps(b, after, i, dst, ty, x, x_ty);
    }
    lemma_push_extends(b, after, i);
    lemma_extends_trans(a, b, after);
}

/// One more instruction that defines two values extends the code.
pub broadcast proof fn lemma_extends_defined2(
    a: FunctionBuilder<'_>,
    b: FunctionBuilder<'_>,
    after: FunctionBuilder<'_>,
    i: Instr,
    dst: Value,
    flag: Value,
)
    requires
        #[trigger] extends(a, b),
        #[trigger] defined2(b, after, i, dst, flag),
        forall|x: Value| #[trigger] writes(i, x) ==> x == dst || x == flag,
    ensures
        extends(a, after),
{
    assert forall|x: Value, x_ty: Ty| has_type(b, x, x_ty) implies #[trigger] has_type(
        after,
        x,
        x_ty,
    ) && !writes(i, x) by {
        lemma_defined2_keeps(b, after, i, dst, flag, x, x_ty);
    }
    lemma_push_extends(b, after, i);
    lemma_extends_trans(a, b, after);
}

/// One more instruction that defines no value extends the code.
pub broadcast proof fn lemma_extends_appended(
    a: FunctionBuilder<'_>,
    b: FunctionBuilder<'_>,
    after: FunctionBuilder<'_>,
    i: Instr,
)
    requires
        #[trigger] extends(a, b),
        #[trigger] appended(b, after, i),
        forall|x: Value| !#[trigger] writes(i, x),
    ensures
        extends(a, after),
{
    assert forall|x: Value, x_ty: Ty| has_type(b, x, x_ty) implies #[trigger] has_type(
        after,
        x,
        x_ty,
    ) && !writes(i, x) by {
        lemma_appended_keeps(b, after, i, x, x_ty);
    }
    lemma_push_extends(b, after, i);
    lemma_extends_trans(a, b, after);
}

pub broadcast group group_emission {
    lemma_defined,
    lemma_defined_type,
    lemma_defined_keeps,
    lemma_defined2,
    lemma_defined2_type,
    lemma_defined2_keeps,
    lemma_appended,
    lemma_appended_keeps,
    lemma_defined_loads,
    lemma_defined2_loads,
    lemma_appended_loads,
    lemma_extends_trans,
    lemma_extends_accepting,
    lemma_extends_type,
    lemma_extends_value,
    lemma_extends_trap,
    lemma_extends_defined,
    lemma_extends_defined2,
    lemma_extends_appended,
}

} // verus!
