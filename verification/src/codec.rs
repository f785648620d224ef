//! Encoding and decoding of single values.
//!
//! A value is encoded as its product with the constant `A`, so that every multiple of `A` up to
//! the band `A * 2^bits` is a codeword and every other word is the trace of a fault.
use crate::traps::Trap;
use crate::wasm::Width;
use vstd::arithmetic::div_mod::{
    lemma_add_mod_noop, lemma_div_multiples_vanish, lemma_fundamental_div_mod,
    lemma_mod_mod, lemma_mod_multiples_basic, lemma_mod_twice, lemma_small_mod,
};
use vstd::arithmetic::power2::{lemma2_to64, lemma_pow2_unfold, pow2};
use vstd::prelude::*;

verus! {

/// The bound on the constant: the encoded result of a byte operation fits in 32 bits.
pub const AN_CONSTANT_LIMIT: u64 = 0x100_0000;

/// The encoding with one constant. The constant one leaves every value as it is: execution
/// without encoding is execution with that constant.
#[derive(Clone, Copy, Debug, PartialEq, Eq, Structural)]
pub struct Codec {
    pub a: u64,
}

impl Codec {
    /// The constant is in the supported range.
    pub open spec fn wf(self) -> bool {
        1 <= self.a < AN_CONSTANT_LIMIT
    }

    /// The modulus of encoded arithmetic.
    pub open spec fn band(self, w: Width) -> int {
        self.a * w.modulus()
    }

    /// Whether a word is in the canonical range; a faulty word may be.
    pub open spec fn in_band(self, w: Width, x: int) -> bool {
        0 <= x < self.band(w)
    }

    /// Whether a word is a multiple of the constant.
    pub open spec fn is_codeword(self, x: int) -> bool {
        x % self.a as int == 0
    }

    /// Whether a word is the encoding of a value.
    pub open spec fn valid(self, w: Width, x: int) -> bool {
        self.in_band(w, x) && self.is_codeword(x)
    }

    /// The encoding of a value.
    pub open spec fn enc(self, n: int) -> int {
        self.a * n
    }

    /// The value that a codeword encodes.
    pub open spec fn dec(self, x: int) -> int {
        x / self.a as int
    }

    /// A codeword is the encoding of the value that it decodes to.
    pub proof fn lemma_valid(self, w: Width, x: int)
        requires
            self.wf(),
            self.valid(w, x),
        ensures
            x == self.enc(self.dec(x)),
            w.has(self.dec(x)),
    {
        let (a, n) = (self.a as int, self.dec(x));
        lemma_fundamental_div_mod(x, a);
        let m = w.modulus();
        assert(0 <= n < m) by (nonlinear_arith)
            requires
                x == a * n,
                0 <= x < a * m,
                a > 0,
        ;
    }

    /// The encoding of a value is a codeword, in the canonical range, and decodes to the value.
    pub proof fn lemma_round_trip(self, w: Width, n: int)
        requires
            self.wf(),
            w.has(n),
        ensures
            self.valid(w, self.enc(n)),
            self.dec(self.enc(n)) == n,
    {
        let (a, m) = (self.a as int, w.modulus());
        assert(a * n == n * a) by (nonlinear_arith);
        lemma_mod_multiples_basic(n, a);
        lemma_div_multiples_vanish(n, a);
        assert(0 <= a * n < a * m) by (nonlinear_arith)
            requires
                0 <= n < m,
                a > 0,
        ;
    }

    /// A fault that is not a multiple of the constant turns a codeword into a word that is none.
    pub proof fn lemma_fault_detected(self, x: int, e: int)
        requires
            self.wf(),
            self.is_codeword(x),
            !self.is_codeword(e),
        ensures
            !self.is_codeword(x + e),
    {
        lemma_add_mod_noop(x, e, self.a as int);
        lemma_mod_twice(e, self.a as int);
    }

    /// Under an odd constant other than one, the flip of any single bit turns a codeword into a
    /// word that is none.
    pub proof fn lemma_flip_detected(self, x: int, k: nat)
        requires
            self.wf(),
            self.a % 2 == 1,
            self.a > 1,
            self.is_codeword(x),
        ensures
            !self.is_codeword(x + pow2(k)),
            !self.is_codeword(x - pow2(k)),
    {
        lemma_power_indivisible(self.a as int, k);
        self.lemma_fault_detected(x, pow2(k) as int);
        if self.is_codeword(x - pow2(k)) {
            self.lemma_fault_detected(x - pow2(k), pow2(k) as int);
        }
    }

    /// Reduction to the canonical range keeps the residue: a word is a codeword exactly if its
    /// reduced word is. So a fault survives wrapping arithmetic, and none appears by it.
    pub proof fn lemma_residue(self, w: Width, t: int)
        requires
            self.wf(),
        ensures
            (t % self.band(w)) % (self.a as int) == t % (self.a as int),
            self.is_codeword(t % self.band(w)) == self.is_codeword(t),
    {
        lemma_mod_mod(t, self.a as int, w.modulus());
    }

    /// The sum or difference of a faulty word and a codeword is faulty, also after reduction.
    pub proof fn lemma_fault_survives(self, w: Width, x: int, y: int)
        requires
            self.wf(),
            !self.is_codeword(x),
            self.is_codeword(y),
        ensures
            !self.is_codeword((x + y) % self.band(w)),
            !self.is_codeword((x - y) % self.band(w)),
    {
        self.lemma_residue(w, x + y);
        self.lemma_residue(w, x - y);
        self.lemma_fault_detected(y, x);
        if self.is_codeword(x - y) {
            lemma_add_mod_noop(x - y, y, self.a as int);
        }
    }

    /// Every word is a codeword where the constant is one.
    pub proof fn lemma_identity(self, x: int)
        requires
            self.a == 1,
        ensures
            self.is_codeword(x),
            self.enc(x) == x,
            self.dec(x) == x,
    {
    }

    /// Every word of a band fits in 88 bits.
    pub proof fn lemma_band(self, w: Width)
        requires
            self.wf(),
        ensures
            0 < self.band(w) <= 0x100_0000 * 0x1_0000_0000_0000_0000,
            self.band(w) == self.enc(w.modulus()),
            self.a <= self.band(w),
    {
        let (a, m) = (self.a as int, w.modulus());
        assert(0 < a * m <= 0x100_0000 * 0x1_0000_0000_0000_0000 && a <= a * m) by (nonlinear_arith)
            requires
                0 < a < 0x100_0000,
                0 < m <= 0x1_0000_0000_0000_0000,
        ;
    }

    /// The number of values of a width.
    pub(crate) fn modulus_of(w: Width) -> (r: u128)
        ensures
            r == w.modulus(),
    {
        match w {
            Width::W32 => 0x1_0000_0000,
            Width::W64 => 0x1_0000_0000_0000_0000,
        }
    }

    /// The modulus of encoded arithmetic.
    pub(crate) fn band_of(&self, w: Width) -> (r: u128)
        requires
            self.wf(),
        ensures
            r == self.band(w),
            0 < r <= 0x100_0000 * 0x1_0000_0000_0000_0000,
            self.a <= r,
    {
        proof {
            self.lemma_band(w);
        }
        (self.a as u128) * Self::modulus_of(w)
    }

    /// Encodes a value.
    pub fn encode(&self, w: Width, n: u64) -> (x: u128)
        requires
            self.wf(),
            w.has(n as int),
        ensures
            x == self.enc(n as int),
            self.valid(w, x as int),
    {
        proof {
            self.lemma_round_trip(w, n as int);
            self.lemma_band(w);
        }
        (self.a as u128) * (n as u128)
    }

    /// Checks that a word is a codeword.
    pub fn check(&self, x: u128) -> (r: Result<(), Trap>)
        requires
            self.wf(),
        ensures
            r is Ok <==> self.is_codeword(x as int),
            r matches Err(t) ==> t == Trap::AnCodewordInvalid,
    {
        if x % (self.a as u128) == 0 {
            Ok(())
        } else {
            Err(Trap::AnCodewordInvalid)
        }
    }

    /// Checks a word of the canonical range and decodes it.
    pub fn decode(&self, w: Width, x: u128) -> (r: Result<u64, Trap>)
        requires
            self.wf(),
            self.in_band(w, x as int),
        ensures
            r is Ok <==> self.is_codeword(x as int),
            r matches Ok(n) ==> n == self.dec(x as int) && w.has(n as int),
            r matches Err(t) ==> t == Trap::AnCodewordInvalid,
    {
        match self.check(x) {
            Ok(_) => {
                proof {
                    self.lemma_valid(w, x as int);
                }
                Ok((x / (self.a as u128)) as u64)
            },
            Err(t) => Err(t),
        }
    }
}

/// Two to the power of `k`.
pub(crate) fn two_to(k: u32) -> (p: u128)
    requires
        k < 128,
    ensures
        p == pow2(k as nat),
        p > 0,
{
    proof {
        vstd::arithmetic::power2::lemma2_to64();
    }
    let mut p: u128 = 1;
    let mut i: u32 = 0;
    while i < k
        invariant
            i <= k < 128,
            p == pow2(i as nat),
            p > 0,
        decreases k - i,
    {
        proof {
            lemma_pow2_unfold((i + 1) as nat);
            lemma_power_bound((i + 1) as nat);
        }
        p = p * 2;
        i = i + 1;
    }
    p
}

/// An odd number other than one divides no power of two.
proof fn lemma_power_indivisible(a: int, k: nat)
    requires
        a > 1,
        a % 2 == 1,
    ensures
        pow2(k) as int % a != 0,
    decreases k,
{
    if k == 0 {
        lemma2_to64();
        lemma_small_mod(1, a as nat);
    } else {
        let (p, h, q) = (pow2(k) as int, pow2((k - 1) as nat) as int, pow2(k) as int / a);
        lemma_power_indivisible(a, (k - 1) as nat);
        lemma_pow2_unfold(k);
        if p % a == 0 {
            lemma_fundamental_div_mod(p, a);
            let (b, c) = (a / 2, q / 2);
            assert(a * q == 2 * (b * q) + q) by (nonlinear_arith)
                requires
                    a == 2 * b + 1,
            ;
            assert(q == 2 * c);
            assert(h == c * a) by (nonlinear_arith)
                requires
                    2 * h == a * q,
                    q == 2 * c,
            ;
            lemma_mod_multiples_basic(c, a);
        }
    }
}

/// Powers of two below 2^128 fit in 128 bits.
pub proof fn lemma_power_bound(k: nat)
    requires
        k < 128,
    ensures
        0 < pow2(k) <= u128::MAX,
{
    vstd::arithmetic::power2::lemma_pow2_pos(k);
    vstd::arithmetic::power2::lemma2_to64_rest();
    vstd::arithmetic::power2::lemma_pow2_adds(64, 63);
    if k < 127 {
        vstd::arithmetic::power2::lemma_pow2_strictly_increases(k, 127);
    }
    assert(pow2(64) * pow2(63) <= u128::MAX) by (nonlinear_arith)
        requires
            pow2(64) == 0x1_0000_0000_0000_0000,
            pow2(63) == 0x8000_0000_0000_0000,
    ;
}

} // verus!
