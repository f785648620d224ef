//! How bytes spell numbers, and how a slot mirrors four of them.
use crate::bytes::{byte_at, le, lemma_le_range, size_of_bytes};
use vstd::arithmetic::div_mod::lemma_div_denominator;
use vstd::arithmetic::power2::{lemma2_to64, lemma_pow2_adds, lemma_pow2_pos, pow2};
use vstd::prelude::*;

verus! {

/// The byte of a number with the weight `256^j`.
pub open spec fn digit256(u: int, j: nat) -> int {
    (u / pow2(8 * j) as int) % 0x100
}

/// The `n` bytes from `off` on spell the number `u`, lowest first.
pub open spec fn spells(s: Seq<u8>, off: int, n: nat, u: int) -> bool {
    0 <= u < pow2(8 * n) && forall|j: nat| j < n ==> s[off + j] == #[trigger] digit256(u, j)
}

/// A slot holds the constant times the four bytes from `4 * i` on, lowest first.
pub open spec fn holds(a: int, slot: int, raw: Seq<u8>, i: int) -> bool {
    slot == a * (raw[4 * i] + 0x100 * raw[4 * i + 1] + 0x1_0000 * raw[4 * i + 2] + 0x100_0000
        * raw[4 * i + 3])
}

/// Dividing a byte off moves the others down by one.
pub proof fn lemma_next_digit(u: int, j: nat)
    requires
        0 <= u,
    ensures
        digit256(u, j + 1) == digit256(u / 0x100, j),
        digit256(u, 0) == u % 0x100,
{
    lemma2_to64();
    assert(pow2(8 * 0nat) == 1 && u / 1 == u);
    lemma_pow2_pos(8 * j);
    lemma_pow2_adds(8, 8 * j);
    lemma_div_denominator(u, 0x100, pow2(8 * j) as int);
    assert(8 * (j + 1) == 8 + 8 * j);
}

/// The bytes of a number.
pub proof fn lemma_byte_at(u: int, j: nat)
    requires
        0 <= u,
    ensures
        byte_at(u, j) == digit256(u, j),
    decreases j,
{
    if j == 0 {
        lemma_next_digit(u, 0);
    } else {
        lemma_byte_at(u / 0x100, (j - 1) as nat);
        lemma_next_digit(u, (j - 1) as nat);
    }
}

/// The number of values of some bytes is a power of two.
pub proof fn lemma_size(n: nat)
    ensures
        size_of_bytes(n) == pow2(8 * n),
    decreases n,
{
    lemma2_to64();
    if n > 0 {
        lemma_size((n - 1) as nat);
        lemma_pow2_adds(8, 8 * (n - 1) as nat);
    }
}

/// Bytes spell one number.
pub proof fn lemma_spells(s: Seq<u8>, off: int, n: nat, u: int)
    ensures
        spells(s, off, n, u) <==> u == le(s, off, n),
    decreases n,
{
    let v = le(s, off, n);
    lemma2_to64();
    lemma_size(n);
    lemma_le_range(s, off, n);
    if n > 0 {
        let m = (n - 1) as nat;
        let rest = le(s, off + 1, m);
        lemma_size(m);
        lemma_le_range(s, off + 1, m);
        lemma_pow2_adds(8, 8 * m);
        lemma_spells(s, off + 1, m, rest);
        assert(v / 0x100 == rest && v % 0x100 == s[off]);
        assert forall|j: nat| j < n implies s[off + j] == #[trigger] digit256(v, j) by {
            if j == 0 {
                lemma_next_digit(v, 0);
            } else {
                let i = (j - 1) as nat;
                lemma_next_digit(v, i);
                assert(s[off + 1 + i] == digit256(rest, i));
            }
        }
        if spells(s, off, n, u) {
            let q = u / 0x100;
            assert(0 <= q < pow2(8 * m));
            assert forall|j: nat| j < m implies s[off + 1 + j] == #[trigger] digit256(q, j) by {
                lemma_next_digit(u, j);
                assert(s[off + (j + 1)] == digit256(u, j + 1));
            }
            lemma_spells(s, off + 1, m, q);
            lemma_next_digit(u, 0);
            assert(s[off + 0] == digit256(u, 0));
        }
    }
}

/// The value of four bytes.
pub proof fn lemma_four(s: Seq<u8>, i: int)
    ensures
        le(s, 4 * i, 4) == s[4 * i] + 0x100 * s[4 * i + 1] + 0x1_0000 * s[4 * i + 2] + 0x100_0000
            * s[4 * i + 3],
{
    reveal_with_fuel(le, 5);
}

} // verus!
