//! What the instructions do.
use super::words::{eight_bytes, four_bytes};
use crate::clif::machine::{
    lemma_put_get64, run, step, Access, Cond, Instr, Machine, Op2, TrapReason, Ty, Value,
};
use vstd::prelude::*;

verus! {

/// Two operands as numbers, and the word that the operation gives.
pub open spec fn computed(op: Op2, x: u64, y: u64, r: u64) -> bool {
    match op {
        Op2::Iadd => r == (x + y) % 0x1_0000_0000_0000_0000,
        Op2::Isub => r == (x - y) % 0x1_0000_0000_0000_0000,
        Op2::Imul => r == (x * y) % 0x1_0000_0000_0000_0000,
        Op2::Umulhi => r == (x * y) / 0x1_0000_0000_0000_0000,
        Op2::Udiv => r == x as int / y as int,
        Op2::Urem => r == x as int % y as int,
        Op2::Band => r == x & y,
        Op2::Bor => r == x | y,
        Op2::Ishl => r == x << (y % 64),
        Op2::Ushr => r == x >> (y % 64),
    }
}

/// An operation on two words gives its result as a new value and changes nothing else; only a
/// division by zero stops.
pub proof fn law_binary(m: Machine, op: Op2, dst: Value, x: Value, y: Value, imm: u64)
    requires
        m.trap is None,
    ensures
        ({
            let t = step(m, Instr::Binary { op, dst, x, y });
            let u = step(m, Instr::BinaryImm { op, dst, x, imm });
            let divides = op is Udiv || op is Urem;
            &&& divides && m.env[y] == 0 ==> t.trap == Some(TrapReason::DivisionByZero)
            &&& !(divides && m.env[y] == 0) ==> t.trap is None && t.mem == m.mem && t.globals
                == m.globals && t.env == m.env.insert(dst, t.env[dst]) && computed(
                op,
                m.env[x],
                m.env[y],
                t.env[dst],
            )
            &&& divides && imm == 0 ==> u.trap == Some(TrapReason::DivisionByZero)
            &&& !(divides && imm == 0) ==> u.trap is None && u.mem == m.mem && u.globals
                == m.globals && u.env == m.env.insert(dst, u.env[dst]) && computed(
                op,
                m.env[x],
                imm,
                u.env[dst],
            )
        }),
{
    let (a, b) = (m.env[x], m.env[y]);
    lemma_in_word(a, b);
    lemma_in_word(a, imm);
    let t = step(m, Instr::Binary { op, dst, x, y });
    let u = step(m, Instr::BinaryImm { op, dst, x, imm });
    if t.trap is None {
        assert(t.env =~= m.env.insert(dst, t.env[dst]));
    }
    if u.trap is None {
        assert(u.env =~= m.env.insert(dst, u.env[dst]));
    }
}

/// The results of products and quotients of words are words.
proof fn lemma_in_word(x: u64, y: u64)
    ensures
        0 <= (x * y) / 0x1_0000_0000_0000_0000 <= u64::MAX,
        y > 0 ==> 0 <= x as int / y as int <= u64::MAX && 0 <= x as int % y as int <= u64::MAX,
{
    let p = x * y;
    assert(0 <= p < 0x1_0000_0000_0000_0000 * 0x1_0000_0000_0000_0000) by (nonlinear_arith)
        requires
            p == x * y,
            0 <= x < 0x1_0000_0000_0000_0000,
            0 <= y < 0x1_0000_0000_0000_0000,
    ;
    if y > 0 {
        assert(0 <= x as int / y as int <= x) by (nonlinear_arith)
            requires
                y > 0,
                x >= 0,
        ;
    }
}

/// A load reads the bytes at the address, lowest first, and a store writes them and no others;
/// what is not aligned stops.
pub proof fn law_memory(
    m: Machine,
    dst: Value,
    ty: Ty,
    access: Access,
    x: Value,
    addr: Value,
    offset: i32,
)
    requires
        m.trap is None,
    ensures
        ({
            let p = m.env[addr] + offset;
            let t = step(m, Instr::Load { dst, ty, access, addr, offset });
            let u = step(m, Instr::Store { x, addr, offset });
            &&& ty is I8 ==> t.trap is None && t.env[dst] == m.mem[p]
            &&& ty is I32 && p % 4 == 0 ==> t.trap is None && t.env[dst] == four_bytes(m.mem, p)
            &&& ty is I64 && p % 8 == 0 ==> t.trap is None && t.env[dst] == eight_bytes(m.mem, p)
            &&& t.mem == m.mem
            &&& p % 8 == 0 ==> {
                &&& u.trap is None
                &&& u.env == m.env
                &&& eight_bytes(u.mem, p) == m.env[x]
                &&& forall|q: int| q < p || q >= p + 8 ==> #[trigger] u.mem[q] == m.mem[q]
            }
            &&& p % 8 != 0 ==> u.trap == Some(TrapReason::Misaligned)
        }),
{
    let p = m.env[addr] + offset;
    lemma_put_get64(m.mem, p, m.env[x]);
}

/// The other instructions.
pub proof fn law_others(
    m: Machine,
    dst: Value,
    carry: Value,
    x: Value,
    y: Value,
    c: Value,
    imm: u64,
    gv: u32,
    code: u8,
    cond: Cond,
)
    requires
        m.trap is None,
        dst != carry,
    ensures
        step(m, Instr::Iconst { dst, imm }).env[dst] == imm,
        step(m, Instr::GlobalValue { dst, gv }).env[dst] == m.globals[gv],
        step(m, Instr::Bnot { dst, x }).env[dst] == !m.env[x],
        step(m, Instr::Uextend { dst, x }).env[dst] == m.env[x],
        step(m, Instr::Ireduce32 { dst, x }).env[dst] == m.env[x] % 0x1_0000_0000,
        step(m, Instr::Select { dst, c, x, y }).env[dst] == if m.env[c] != 0 {
            m.env[x]
        } else {
            m.env[y]
        },
        step(m, Instr::Compare { dst, cond, x, y }).env[dst] == if match cond {
            Cond::NotEqual => m.env[x] != m.env[y],
            Cond::UnsignedGreaterThan => m.env[x] > m.env[y],
            Cond::UnsignedGreaterThanOrEqual => m.env[x] >= m.env[y],
        } {
            1u64
        } else {
            0u64
        },
        ({
            let t = step(m, Instr::UaddOverflow { dst, carry, x, y });
            t.env[carry] * 0x1_0000_0000_0000_0000 + t.env[dst] == m.env[x] + m.env[y]
        }),
        step(m, Instr::Trapnz { c, code }).trap == if m.env[c] != 0 {
            Some(TrapReason::User(code))
        } else {
            None
        },
{
}

/// Code runs one instruction after the other.
pub proof fn law_run(m: Machine, code: Seq<Instr>, i: Instr)
    ensures
        run(m, Seq::empty()) == m,
        run(m, code.push(i)) == step(run(m, code), i),
        m.trap is Some ==> step(m, i) == m,
{
    assert(code.push(i).drop_last() =~= code);
}

} // verus!
