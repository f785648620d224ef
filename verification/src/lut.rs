//! The tables of encoded byte results behind the bitwise operations.
//!
//! For each operation one table of 256 times 256 entries is built: the entry at
//! `256 * c1 + c2` is the constant times the operation on the bytes `c1` and `c2`.
use crate::clif::machine::word32;
use crate::emit::bitwise::{lemma_byte_range, table_at, AnBitwiseOp};
use crate::text::{put_number, with_number};
use vstd::prelude::*;
use vstd::string::StringExecFns;

verus! {

/// The number of entries of a table.
pub const TABLE_LEN: usize = 0x1_0000;

/// One populated table.
pub type Table = Vec<i64>;

/// Why no tables can be built.
#[derive(Clone, Copy, Debug, PartialEq, Eq, Structural)]
pub enum AnLutError {
    /// The constant is not in the supported range, `1 <= A < 2^31`.
    InvalidA(u64),
}

impl AnLutError {
    /// The text of the error.
    pub open spec fn text(self) -> Seq<char> {
        match self {
            AnLutError::InvalidA(a) => with_number("invalid AN constant "@, a as nat)
                + ": require 1 <= A < 2^31"@,
        }
    }

    /// The text of the error.
    pub fn message(self) -> (r: String)
        ensures
            r@ == self.text(),
    {
        let mut out: String = "invalid AN constant ".to_owned();
        match self {
            AnLutError::InvalidA(a) => {
                put_number(&mut out, a);
            },
        }
        out.append(": require 1 <= A < 2^31");
        out
    }
}

/// The constants that tables can be built for.
pub open spec fn valid_a(a: u64) -> bool {
    1 <= a < 0x8000_0000
}

/// Checks that the constant is in the supported range.
pub fn validate_a(a: u64) -> (r: Result<(), AnLutError>)
    ensures
        r is Ok <==> valid_a(a),
        r matches Err(e) ==> e == AnLutError::InvalidA(a),
{
    if a == 0 || a >= 0x8000_0000 {
        return Err(AnLutError::InvalidA(a));
    }
    Ok(())
}

/// The bitwise operations that tables are built for.
#[derive(Clone, Copy, Debug, PartialEq, Eq, Structural)]
pub enum BinOp {
    And,
    Or,
    Xor,
}

impl BinOp {
    /// What the operation gives on two numbers.
    pub open spec fn result(self, c1: u32, c2: u32) -> u32 {
        match self {
            BinOp::And => c1 & c2,
            BinOp::Or => c1 | c2,
            BinOp::Xor => c1 ^ c2,
        }
    }

    /// Applies the operation.
    pub fn apply(self, c1: u32, c2: u32) -> (r: u32)
        ensures
            r == self.result(c1, c2),
    {
        match self {
            BinOp::And => c1 & c2,
            BinOp::Or => c1 | c2,
            BinOp::Xor => c1 ^ c2,
        }
    }

    /// The operation as the emitters name it.
    pub open spec fn emitted(self) -> AnBitwiseOp {
        match self {
            BinOp::And => AnBitwiseOp::And,
            BinOp::Or => AnBitwiseOp::Or,
            BinOp::Xor => AnBitwiseOp::Xor,
        }
    }
}

/// The tables of an engine that encodes.
pub struct AnLuts {
    pub and: Table,
    pub or: Table,
    pub xor: Table,
}

impl AnLuts {
    /// The tables are complete and right for the constant.
    pub open spec fn wf(self, a: u64) -> bool {
        &&& is_table(self.and@, a, BinOp::And)
        &&& is_table(self.or@, a, BinOp::Or)
        &&& is_table(self.xor@, a, BinOp::Xor)
    }
}

/// The entry of a table for two bytes.
pub open spec fn entry_of(a: u64, op: BinOp, c1: int, c2: int) -> int {
    a * op.result(c1 as u32, c2 as u32)
}

/// A sequence is the table of an operation.
pub open spec fn is_table(table: Seq<i64>, a: u64, op: BinOp) -> bool {
    &&& table.len() == TABLE_LEN
    &&& forall|c1: int, c2: int|
        0 <= c1 < 0x100 && 0 <= c2 < 0x100 ==> #[trigger] table[0x100 * c1 + c2] == entry_of(
            a,
            op,
            c1,
            c2,
        )
}

/// The operations take bytes to a byte.
proof fn lemma_result_range(op: BinOp, c1: u32, c2: u32)
    requires
        c1 < 0x100,
        c2 < 0x100,
    ensures
        op.result(c1, c2) < 0x100,
{
    assert(c1 & c2 < 0x100 && c1 | c2 < 0x100 && c1 ^ c2 < 0x100) by (bit_vector)
        requires
            c1 < 0x100,
            c2 < 0x100,
    ;
}

/// Builds the table of one operation.
fn build_table(a: u64, op: BinOp) -> (buf: Table)
    requires
        valid_a(a),
    ensures
        is_table(buf@, a, op),
{
    let a_signed: i64 = a as i64;
    let mut buf: Vec<i64> = Vec::new();
    let mut c1: u32 = 0;
    while c1 < 0x100
        invariant
            c1 <= 0x100,
            a_signed == a,
            valid_a(a),
            buf@.len() == 0x100 * c1,
            forall|d1: int, d2: int|
                0 <= d1 < c1 && 0 <= d2 < 0x100 ==> #[trigger] buf@[0x100 * d1 + d2] == entry_of(
                    a,
                    op,
                    d1,
                    d2,
                ),
        decreases 0x100 - c1,
    {
        let mut c2: u32 = 0;
        while c2 < 0x100
            invariant
                c1 < 0x100,
                c2 <= 0x100,
                a_signed == a,
                valid_a(a),
                buf@.len() == 0x100 * c1 + c2,
                forall|d1: int, d2: int|
                    0 <= d1 < c1 && 0 <= d2 < 0x100 ==> #[trigger] buf@[0x100 * d1 + d2]
                        == entry_of(a, op, d1, d2),
                forall|d1: int, d2: int|
                    d1 == c1 && 0 <= d2 < c2 ==> #[trigger] buf@[0x100 * d1 + d2] == entry_of(
                        a,
                        op,
                        d1,
                        d2,
                    ),
            decreases 0x100 - c2,
        {
            let r: i64 = op.apply(c1, c2) as i64;
            proof {
                lemma_result_range(op, c1, c2);
                assert(0 <= a_signed * r < 0x100 * 0x8000_0000) by (nonlinear_arith)
                    requires
                        0 <= a_signed < 0x8000_0000,
                        0 <= r < 0x100,
                ;
            }
            buf.push(a_signed * r);
            c2 = c2 + 1;
        }
        c1 = c1 + 1;
    }
    buf
}

/// Builds the tables of all three operations for a constant in the supported range.
pub fn generate(a: u64) -> (r: Result<AnLuts, AnLutError>)
    ensures
        r is Ok <==> valid_a(a),
        r matches Ok(luts) ==> luts.wf(a),
        r matches Err(e) ==> e == AnLutError::InvalidA(a),
{
    match validate_a(a) {
        Ok(_) => Ok(
            AnLuts {
                and: build_table(a, BinOp::And),
                or: build_table(a, BinOp::Or),
                xor: build_table(a, BinOp::Xor),
            },
        ),
        Err(e) => Err(e),
    }
}

/// Every entry is a codeword, and decodes to the operation on its bytes.
pub proof fn lemma_entry_decodes(a: u64, op: BinOp, c1: int, c2: int)
    requires
        valid_a(a),
    ensures
        entry_of(a, op, c1, c2) % a as int == 0,
        entry_of(a, op, c1, c2) / a as int == op.result(c1 as u32, c2 as u32),
{
    let r = op.result(c1 as u32, c2 as u32) as int;
    assert(a * r == r * a) by (nonlinear_arith);
    vstd::arithmetic::div_mod::lemma_mod_multiples_basic(r, a as int);
    vstd::arithmetic::div_mod::lemma_div_multiples_vanish(r, a as int);
}

/// Laid out in memory as aligned words of four bytes, a table is what the emitted bitwise operations
/// look their results up in. A word holds every entry where the constant is below 2^24.
pub proof fn lemma_table_in_memory(
    table: Seq<i64>,
    a: u64,
    op: BinOp,
    mem: Map<int, u8>,
    base: u64,
)
    requires
        is_table(table, a, op),
        base % 4 == 0,
        base + 0x4_0000 <= 0x1_0000_0000_0000_0000,
        forall|i: int| 0 <= i < TABLE_LEN ==> word32(mem, base + 4 * i) == #[trigger] table[i],
    ensures
        table_at(mem, base, a as int, op.emitted()),
{
    reveal(table_at);
    let e = op.emitted();
    assert forall|c1: u64, c2: u64| c1 < 0x100 && c2 < 0x100 implies word32(
        mem,
        base + 4 * (0x100 * c1 + c2),
    ) == a * #[trigger] e.apply(c1, c2) by {
        let i = 0x100 * c1 + c2;
        assert(table[0x100 * c1 as int + c2 as int] == entry_of(a, op, c1 as int, c2 as int));
        assert(word32(mem, base + 4 * i) == table[i]);
        lemma_byte_range(e, c1, c2);
    }
}

} // verus!
