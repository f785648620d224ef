//! What straight-line code means.
//!
//! [`Instr`] holds the instructions that the helpers of this crate append to a block, and
//! [`Machine`] the state that such a block works on: one word for each value, the bytes of the
//! address space, and the trap that stopped the run, if one did. [`run`] gives the state after a
//! sequence of instructions. Memory is little-endian, as on every target that the encoded
//! shadow is laid out for.
use vstd::prelude::*;

verus! {

/// A value of the function under construction, by its number.
#[derive(Clone, Copy, Debug, PartialEq, Eq, Structural)]
pub struct Value(pub u32);

/// A block of a function, by number.
#[derive(Clone, Copy, Debug, PartialEq, Eq, Structural)]
pub struct Block(pub u32);

/// The type of a value.
#[derive(Clone, Copy, Debug, PartialEq, Eq, Structural)]
pub enum Ty {
    I8,
    I32,
    I64,
    I128,
    F32,
    F64,
    I8X16,
}

/// Why a run stopped.
#[derive(Clone, Copy, Debug, PartialEq, Eq, Structural)]
pub enum TrapReason {
    /// An access that was not aligned to the size of what it reads or writes. What the code does
    /// there is open: it may trap or go on with a wrong result, so that nothing is said of the
    /// run from there on.
    Misaligned,
    /// A division by zero.
    DivisionByZero,
    /// A conditional trap with this user code.
    User(u8),
}

/// Unsigned comparisons.
#[derive(Clone, Copy, Debug, PartialEq, Eq, Structural)]
pub enum Cond {
    NotEqual,
    UnsignedGreaterThan,
    UnsignedGreaterThanOrEqual,
}

/// What a load may be told of the memory that it reads. Both are trusted accesses: they are
/// taken to be aligned and never out of bounds. Read-only memory does not change while the function runs.
#[derive(Clone, Copy, Debug, PartialEq, Eq, Structural)]
pub enum Access {
    Plain,
    Readonly,
}

/// Two-operand operations on 64-bit words.
#[derive(Clone, Copy, Debug, PartialEq, Eq, Structural)]
pub enum Op2 {
    Iadd,
    Isub,
    Imul,
    Umulhi,
    Udiv,
    Urem,
    Band,
    Bor,
    Ishl,
    Ushr,
}

/// One instruction. `dst` is the value that it defines; immediates are 64-bit words.
pub enum Instr {
    Iconst { dst: Value, imm: u64 },
    /// The address that a global value of the function stands for.
    GlobalValue { dst: Value, gv: u32 },
    Binary { op: Op2, dst: Value, x: Value, y: Value },
    BinaryImm { op: Op2, dst: Value, x: Value, imm: u64 },
    Bnot { dst: Value, x: Value },
    UaddOverflow { dst: Value, carry: Value, x: Value, y: Value },
    Compare { dst: Value, cond: Cond, x: Value, y: Value },
    Select { dst: Value, c: Value, x: Value, y: Value },
    /// Zero extension: the word stays as it is.
    Uextend { dst: Value, x: Value },
    /// Reduction to the low 32 bits.
    Ireduce32 { dst: Value, x: Value },
    Load { dst: Value, ty: Ty, access: Access, addr: Value, offset: i32 },
    /// A store of a 64-bit word.
    Store { x: Value, addr: Value, offset: i32 },
    Trapnz { c: Value, code: u8 },
}

/// The state of a run.
///
/// Every value is held as a 64-bit word, narrower ones zero-extended.
pub struct Machine {
    pub env: Map<Value, u64>,
    pub mem: Map<int, u8>,
    /// What the global values of the function stand for.
    pub globals: Map<u32, u64>,
    pub trap: Option<TrapReason>,
}

/// Two to the power of 64.
pub open spec fn b64() -> int {
    0x1_0000_0000_0000_0000
}

/// Reduction to 64 bits.
pub open spec fn wrap64(x: int) -> u64 {
    (x % b64()) as u64
}

/// Two words as one 128-bit number.
pub open spec fn wide(hi: u64, lo: u64) -> int {
    hi * b64() + lo
}

/// What a two-operand operation computes; `None` is a trap.
pub open spec fn apply2(op: Op2, x: u64, y: u64) -> Option<u64> {
    match op {
        Op2::Iadd => Some(wrap64(x + y)),
        Op2::Isub => Some(wrap64(x - y)),
        Op2::Imul => Some(wrap64(x * y)),
        Op2::Umulhi => Some(((x * y) / b64()) as u64),
        Op2::Udiv => if y == 0 {
            None
        } else {
            Some((x as int / y as int) as u64)
        },
        Op2::Urem => if y == 0 {
            None
        } else {
            Some((x as int % y as int) as u64)
        },
        Op2::Band => Some(x & y),
        Op2::Bor => Some(x | y),
        Op2::Ishl => Some(x << (y % 64)),
        Op2::Ushr => Some(x >> (y % 64)),
    }
}

/// What a comparison yields.
pub open spec fn compare(cond: Cond, x: u64, y: u64) -> bool {
    match cond {
        Cond::NotEqual => x != y,
        Cond::UnsignedGreaterThan => x > y,
        Cond::UnsignedGreaterThanOrEqual => x >= y,
    }
}

/// The 32-bit word at `p`.
pub open spec fn word32(mem: Map<int, u8>, p: int) -> int {
    mem[p] + 0x100 * mem[p + 1] + 0x1_0000 * mem[p + 2] + 0x100_0000 * mem[p + 3]
}

/// The 64-bit word at `p`.
pub open spec fn word64(mem: Map<int, u8>, p: int) -> int {
    word32(mem, p) + 0x1_0000_0000 * word32(mem, p + 4)
}

/// Byte `i` of a word, counted from the low end.
pub open spec fn byte_of(v: u64, i: int) -> u8 {
    ((v >> ((8 * i) as u64)) & 0xff) as u8
}

/// Memory after a 64-bit store.
pub open spec fn put64(mem: Map<int, u8>, p: int, v: u64) -> Map<int, u8> {
    mem.insert(p, byte_of(v, 0)).insert(p + 1, byte_of(v, 1)).insert(p + 2, byte_of(v, 2)).insert(
        p + 3,
        byte_of(v, 3),
    ).insert(p + 4, byte_of(v, 4)).insert(p + 5, byte_of(v, 5)).insert(p + 6, byte_of(v, 6)).insert(
        p + 7,
        byte_of(v, 7),
    )
}

/// What a load of this type reads at `p`.
pub open spec fn load_value(ty: Ty, mem: Map<int, u8>, p: int) -> u64 {
    match ty {
        Ty::I8 => mem[p] as u64,
        Ty::I32 => word32(mem, p) as u64,
        _ => word64(mem, p) as u64,
    }
}

/// The number of bytes that a load of this type reads.
pub open spec fn load_size(ty: Ty) -> int {
    match ty {
        Ty::I8 => 1,
        Ty::I32 => 4,
        _ => 8,
    }
}

impl Machine {
    /// The state with one more value defined.
    pub open spec fn define(self, dst: Value, v: u64) -> Machine {
        Machine { env: self.env.insert(dst, v), ..self }
    }

    /// The state stopped by a trap.
    pub open spec fn stop(self, reason: TrapReason) -> Machine {
        Machine { trap: Some(reason), ..self }
    }

    /// The state after one two-operand operation.
    pub open spec fn binary(self, op: Op2, dst: Value, x: u64, y: u64) -> Machine {
        match apply2(op, x, y) {
            Some(v) => self.define(dst, v),
            None => self.stop(TrapReason::DivisionByZero),
        }
    }
}

/// The state after one instruction. A stopped machine stays as it is. Every access carries the
/// flag that it is aligned, so that one which is not stops the machine: see
/// [`TrapReason::Misaligned`].
pub open spec fn step(m: Machine, i: Instr) -> Machine {
    if m.trap is Some {
        m
    } else {
        match i {
            Instr::Iconst { dst, imm } => m.define(dst, imm),
            Instr::GlobalValue { dst, gv } => m.define(dst, m.globals[gv]),
            Instr::Binary { op, dst, x, y } => m.binary(op, dst, m.env[x], m.env[y]),
            Instr::BinaryImm { op, dst, x, imm } => m.binary(op, dst, m.env[x], imm),
            Instr::Bnot { dst, x } => m.define(dst, !m.env[x]),
            Instr::UaddOverflow { dst, carry, x, y } => m.define(
                dst,
                wrap64(m.env[x] + m.env[y]),
            ).define(carry, if m.env[x] + m.env[y] >= b64() { 1 } else { 0 }),
            Instr::Compare { dst, cond, x, y } => m.define(
                dst,
                if compare(cond, m.env[x], m.env[y]) { 1 } else { 0 },
            ),
            Instr::Select { dst, c, x, y } => m.define(
                dst,
                if m.env[c] != 0 { m.env[x] } else { m.env[y] },
            ),
            Instr::Uextend { dst, x } => m.define(dst, m.env[x]),
            Instr::Ireduce32 { dst, x } => m.define(dst, m.env[x] % 0x1_0000_0000),
            Instr::Load { dst, ty, access, addr, offset } => {
                let p = m.env[addr] + offset;
                if p % load_size(ty) == 0 {
                    m.define(dst, load_value(ty, m.mem, p))
                } else {
                    m.stop(TrapReason::Misaligned)
                }
            },
            Instr::Store { x, addr, offset } => {
                let p = m.env[addr] + offset;
                if p % 8 == 0 {
                    Machine { mem: put64(m.mem, p, m.env[x]), ..m }
                } else {
                    m.stop(TrapReason::Misaligned)
                }
            },
            Instr::Trapnz { c, code } => if m.env[c] != 0 {
                m.stop(TrapReason::User(code))
            } else {
                m
            },
        }
    }
}

/// The state after a sequence of instructions.
pub open spec fn run(m: Machine, code: Seq<Instr>) -> Machine
    decreases code.len(),
{
    if code.len() == 0 {
        m
    } else {
        step(run(m, code.drop_last()), code.last())
    }
}

/// How the loads of a sequence of instructions access memory, in order.
pub open spec fn accesses(code: Seq<Instr>) -> Seq<Access>
    decreases code.len(),
{
    if code.len() == 0 {
        Seq::empty()
    } else {
        let before = accesses(code.drop_last());
        match code.last() {
            Instr::Load { access, .. } => before.push(access),
            _ => before,
        }
    }
}

/// Running one instruction more is one step more.
pub proof fn lemma_run_push(m: Machine, code: Seq<Instr>, i: Instr)
    ensures
        run(m, code.push(i)) == step(run(m, code), i),
{
    assert(code.push(i).drop_last() =~= code);
}

/// A load reads back what a store of the same word wrote.
pub proof fn lemma_put_get64(mem: Map<int, u8>, p: int, v: u64)
    ensures
        word64(put64(mem, p, v), p) == v,
{
    assert(v == (v & 0xff) + 0x100 * ((v >> 8u64) & 0xff) + 0x1_0000 * ((v >> 16u64) & 0xff)
        + 0x100_0000 * ((v >> 24u64) & 0xff) + 0x1_0000_0000 * ((v >> 32u64) & 0xff)
        + 0x100_0000_0000 * ((v >> 40u64) & 0xff) + 0x1_0000_0000_0000 * ((v >> 48u64) & 0xff)
        + 0x100_0000_0000_0000 * ((v >> 56u64) & 0xff)) by (bit_vector);
    assert(v >> 0u64 == v && (v & 0xff) <= 0xff && ((v >> 8u64) & 0xff) <= 0xff && ((v >> 16u64)
        & 0xff) <= 0xff && ((v >> 24u64) & 0xff) <= 0xff && ((v >> 32u64) & 0xff) <= 0xff && ((v
        >> 40u64) & 0xff) <= 0xff && ((v >> 48u64) & 0xff) <= 0xff && ((v >> 56u64) & 0xff)
        <= 0xff) by (bit_vector);
}

/// A store leaves the bytes outside of its word alone.
pub proof fn lemma_put_frame64(mem: Map<int, u8>, p: int, v: u64, q: int)
    requires
        q < p || q >= p + 8,
    ensures
        put64(mem, p, v)[q] == mem[q],
{
}

} // verus!
