//! Bitwise operations, through the tables of encoded byte results.
use crate::codec::Codec;
use crate::lut::{entry_of, is_table, AnLuts, BinOp, Table};
use crate::traps::Trap;
use crate::wasm::Width;
use vstd::prelude::*;

verus! {

/// The operation on 64-bit words.
pub open spec fn apply(op: BinOp, n: u64, m: u64) -> u64 {
    match op {
        BinOp::And => n & m,
        BinOp::Or => n | m,
        BinOp::Xor => n ^ m,
    }
}

/// The low `s` bits of a word.
spec fn low(n: u64, s: u64) -> u64 {
    n & (0xffff_ffff_ffff_ffffu64 >> (64 - s) as u64)
}

/// One more byte of both operands adds the operation on that byte, at its place.
proof fn lemma_next_byte(op: BinOp, n: u64, m: u64, s: u64)
    requires
        s <= 56,
    ensures
        ({
            let (c1, c2) = ((n >> s) & 0xff, (m >> s) & 0xff);
            let s8 = (s + 8) as u64;
            &&& c1 < 0x100
            &&& c2 < 0x100
            &&& apply(op, c1, c2) < 0x100
            &&& apply(op, low(n, s8), low(m, s8)) == apply(op, low(n, s), low(m, s)) + (apply(
                op,
                c1,
                c2,
            ) << s)
        }),
{
    let (t, t8) = ((64 - s) as u64, (56 - s) as u64);
    let (c1, c2) = ((n >> s) & 0xff, (m >> s) & 0xff);
    let ones = 0xffff_ffff_ffff_ffffu64;
    assert(c1 < 0x100 && c2 < 0x100 && c1 & c2 < 0x100 && c1 | c2 < 0x100 && c1 ^ c2 < 0x100)
        by (bit_vector)
        requires
            c1 == (n >> s) & 0xff,
            c2 == (m >> s) & 0xff,
    ;
    match op {
        BinOp::And => {
            assert((n & (ones >> t8)) & (m & (ones >> t8)) == ((n & (ones >> t)) & (m & (ones
                >> t))) + ((((n >> s) & 0xff) & ((m >> s) & 0xff)) << s)) by (bit_vector)
                requires
                    t == 64 - s,
                    t8 == 56 - s,
                    s <= 56,
                    ones == 0xffff_ffff_ffff_ffff,
            ;
        },
        BinOp::Or => {
            assert((n & (ones >> t8)) | (m & (ones >> t8)) == ((n & (ones >> t)) | (m & (ones
                >> t))) + ((((n >> s) & 0xff) | ((m >> s) & 0xff)) << s)) by (bit_vector)
                requires
                    t == 64 - s,
                    t8 == 56 - s,
                    s <= 56,
                    ones == 0xffff_ffff_ffff_ffff,
            ;
        },
        BinOp::Xor => {
            assert((n & (ones >> t8)) ^ (m & (ones >> t8)) == ((n & (ones >> t)) ^ (m & (ones
                >> t))) + ((((n >> s) & 0xff) ^ ((m >> s) & 0xff)) << s)) by (bit_vector)
                requires
                    t == 64 - s,
                    t8 == 56 - s,
                    s <= 56,
                    ones == 0xffff_ffff_ffff_ffff,
            ;
        },
    }
}

/// A byte shifted within a word is multiplied by the power of two.
proof fn lemma_shifted_byte(c: u64, s: u64, weight: int)
    requires
        c < 0x100,
        s <= 56,
        weight == vstd::arithmetic::power2::pow2(s as nat),
    ensures
        (c << s) == c * weight,
        0 < weight <= 0x100_0000_0000_0000,
{
    vstd::arithmetic::power2::lemma_pow2_pos(s as nat);
    vstd::arithmetic::power2::lemma2_to64_rest();
    if s < 56 {
        vstd::arithmetic::power2::lemma_pow2_strictly_increases(s as nat, 56);
    }
    assert(c * weight < 0x100 * 0x100_0000_0000_0000) by (nonlinear_arith)
        requires
            0 <= c < 0x100,
            0 < weight <= 0x100_0000_0000_0000,
    ;
    vstd::bits::lemma_u64_shl_is_mul(c, s);
}

/// The whole word is its low 64 bits, and a 32-bit value its low 32 bits.
proof fn lemma_whole(n: u64, w: Width)
    requires
        w.has(n as int),
    ensures
        low(n, w.bits() as u64) == n,
        low(n, 0) == 0,
{
    assert(n & (0xffff_ffff_ffff_ffffu64 >> 0u64) == n && n & (0xffff_ffff_ffff_ffffu64 >> 64u64)
        == 0) by (bit_vector);
    if w == Width::W32 {
        assert(n & (0xffff_ffff_ffff_ffffu64 >> 32u64) == n) by (bit_vector)
            requires
                n < 0x1_0000_0000,
        ;
    }
}

impl Codec {
    /// The encoded result of a bitwise operation. Both operands are checked and decoded; the
    /// encoded results of their bytes are looked up and added at their places.
    pub fn bitwise(&self, op: BinOp, luts: &AnLuts, w: Width, x: u128, y: u128) -> (r: Result<
        u128,
        Trap,
    >)
        requires
            self.wf(),
            luts.wf(self.a),
            self.in_band(w, x as int),
            self.in_band(w, y as int),
        ensures
            r is Ok <==> self.is_codeword(x as int) && self.is_codeword(y as int),
            r matches Err(t) ==> t == Trap::AnCodewordInvalid,
            r matches Ok(z) ==> {
                let (n, m) = (self.dec(x as int) as u64, self.dec(y as int) as u64);
                z == self.enc(apply(op, n, m) as int) && self.valid(w, z as int)
            },
    {
        let n: u64 = match self.decode(w, x) {
            Ok(n) => n,
            Err(t) => {
                return Err(t);
            },
        };
        let m: u64 = match self.decode(w, y) {
            Ok(m) => m,
            Err(t) => {
                return Err(t);
            },
        };
        let table: &Table = match op {
            BinOp::And => &luts.and,
            BinOp::Or => &luts.or,
            BinOp::Xor => &luts.xor,
        };
        let bits: u64 = match w {
            Width::W32 => 32,
            Width::W64 => 64,
        };
        let mut acc: u128 = 0;
        let mut weight: u128 = 1;
        let mut s: u64 = 0;
        proof {
            lemma_whole(n, w);
            lemma_whole(m, w);
            vstd::arithmetic::power2::lemma2_to64();
            assert(0u64 & 0u64 == 0u64 && 0u64 | 0u64 == 0u64 && 0u64 ^ 0u64 == 0u64)
                by (bit_vector);
            assert(apply(op, low(n, s), low(m, s)) == 0);
        }
        while s < bits
            invariant
                self.wf(),
                is_table(table@, self.a, op),
                bits == 32 || bits == 64,
                s % 8 == 0,
                s <= bits,
                weight == vstd::arithmetic::power2::pow2(s as nat),
                acc == self.enc(apply(op, low(n, s), low(m, s)) as int),
                acc <= 0x100_0000 * 0x1_0000_0000_0000_0000,
            decreases bits - s,
        {
            let c1: u64 = (n >> s) & 0xff;
            let c2: u64 = (m >> s) & 0xff;
            proof {
                lemma_next_byte(op, n, m, s);
                lemma_shifted_byte(apply(op, c1, c2), s, weight as int);
                assert(table@[0x100 * c1 as int + c2 as int] == entry_of(
                    self.a,
                    op,
                    c1 as int,
                    c2 as int,
                ));
                lemma_entry_word(op, c1, c2);
                let (a, e, p) = (self.a as int, apply(op, c1, c2) as int, weight as int);
                let (b, f) = (
                    apply(op, low(n, s), low(m, s)) as int,
                    apply(op, low(n, (s + 8) as u64), low(m, (s + 8) as u64)) as int,
                );
                assert(0 <= a * e < 0x1_0000_0000) by (nonlinear_arith)
                    requires
                        0 < a < 0x100_0000,
                        0 <= e < 0x100,
                ;
                assert(0 <= (a * e) * p && (a * e) * p == a * (e * p) && a * b + a * (e * p) == a
                    * f && a * f <= 0x100_0000 * 0x1_0000_0000_0000_0000) by (nonlinear_arith)
                    requires
                        0 < a < 0x100_0000,
                        0 <= e,
                        0 < p,
                        f == b + e * p,
                        0 <= f < 0x1_0000_0000_0000_0000,
                ;
                vstd::arithmetic::power2::lemma_pow2_adds(s as nat, 8);
                vstd::arithmetic::power2::lemma2_to64();
            }
            let entry: i64 = table[(c1 * 0x100 + c2) as usize];
            acc = acc + (entry as u128) * weight;
            weight = weight * 0x100;
            s = s + 8;
        }
        proof {
            let z = apply(op, n, m);
            assert(w == Width::W32 ==> n & m <= 0xffff_ffff && n | m <= 0xffff_ffff && n ^ m
                <= 0xffff_ffff) by {
                if w == Width::W32 {
                    assert(n & m <= 0xffff_ffff && n | m <= 0xffff_ffff && n ^ m <= 0xffff_ffff)
                        by (bit_vector)
                        requires
                            n <= 0xffff_ffff,
                            m <= 0xffff_ffff,
                    ;
                }
            }
            self.lemma_round_trip(w, z as int);
        }
        Ok(acc)
    }
}

/// The table's operation on two bytes is that on words.
proof fn lemma_entry_word(op: BinOp, c1: u64, c2: u64)
    requires
        c1 < 0x100,
        c2 < 0x100,
    ensures
        op.result(c1 as u32, c2 as u32) == apply(op, c1, c2),
{
}

} // verus!
