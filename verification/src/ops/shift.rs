//! Shifts and rotations.
use crate::arith::lemma_scaled_mod;
use crate::codec::{two_to, Codec};
use crate::traps::Trap;
use crate::wasm::{rotl, rotr, shl, shr_s, shr_u, Width};
use vstd::arithmetic::div_mod::{
    lemma_fundamental_div_mod, lemma_fundamental_div_mod_converse, lemma_mod_bound,
};
use vstd::arithmetic::power2::{
    lemma2_to64, lemma2_to64_rest, lemma_pow2_adds, lemma_pow2_pos, pow2,
};
use vstd::prelude::*;

verus! {

/// The bits of a width.
pub(crate) fn bits_of(w: Width) -> (r: u32)
    ensures
        r == w.bits(),
{
    match w {
        Width::W32 => 32,
        Width::W64 => 64,
    }
}

/// The powers of two round a shift count: the width splits into the count and the rest.
proof fn lemma_split(w: Width, k: nat)
    requires
        k <= w.bits(),
    ensures
        pow2(k) > 0,
        pow2((w.bits() - k) as nat) > 0,
        pow2((w.bits() - k) as nat) * pow2(k) == w.modulus(),
        pow2(k) <= w.modulus(),
        pow2((w.bits() - k) as nat) <= w.modulus(),
{
    let j = (w.bits() - k) as nat;
    lemma_pow2_pos(k);
    lemma_pow2_pos(j);
    lemma_pow2_adds(j, k);
    lemma2_to64();
    lemma2_to64_rest();
    let (p, q) = (pow2(j) as int, pow2(k) as int);
    assert(q <= p * q && p <= p * q) by (nonlinear_arith)
        requires
            p > 0,
            q > 0,
    ;
}

/// The high and the low part of a value, exchanged, are again a value of the width.
proof fn lemma_rotated(w: Width, n: int, k: nat)
    requires
        w.has(n),
        k <= w.bits(),
    ensures
        0 <= shl(w, n, k),
        0 <= shr_u(n, (w.bits() - k) as nat),
        shl(w, n, k) + shr_u(n, (w.bits() - k) as nat) < w.modulus(),
{
    lemma_split(w, k);
    let (p, q) = (pow2((w.bits() - k) as nat) as int, pow2(k) as int);
    lemma_scaled_mod(q, n, p);
    assert(q * n == n * q && q * p == p * q) by (nonlinear_arith);
    lemma_fundamental_div_mod(n, p);
    let (hi, lo) = (n / p, n % p);
    assert(0 <= hi < q) by (nonlinear_arith)
        requires
            0 <= n < p * q,
            n == p * hi + lo,
            0 <= lo < p,
            p > 0,
    ;
    assert(0 <= q * lo && q * lo + hi < p * q) by (nonlinear_arith)
        requires
            0 <= lo <= p - 1,
            0 <= hi < q,
            q > 0,
    ;
}

impl Codec {
    /// Checks and decodes a shift count, and reduces it by the width.
    fn shift_count(&self, w: Width, k: u128) -> (r: Result<u32, Trap>)
        requires
            self.wf(),
            self.in_band(w, k as int),
        ensures
            r is Ok <==> self.is_codeword(k as int),
            r matches Err(t) ==> t == Trap::AnCodewordInvalid,
            r matches Ok(c) ==> c == self.dec(k as int) % w.bits() as int && c < w.bits(),
    {
        match self.decode(w, k) {
            Ok(n) => Ok((n % (bits_of(w) as u64)) as u32),
            Err(t) => Err(t),
        }
    }

    /// The encoded value shifted left by a plain count of at most the width.
    fn shl_by(&self, w: Width, x: u128, k: u32) -> (r: u128)
        requires
            self.wf(),
            self.in_band(w, x as int),
            k <= w.bits(),
        ensures
            self.in_band(w, r as int),
            r == (x * pow2(k as nat)) % self.band(w),
            self.valid(w, x as int) ==> r == self.enc(shl(w, self.dec(x as int), k as nat)),
    {
        proof {
            self.lemma_band(w);
            lemma_split(w, k as nat);
        }
        let keep: u128 = two_to(bits_of(w) - k);
        let scale: u128 = two_to(k);
        proof {
            let (a, p, q) = (self.a as int, keep as int, scale as int);
            assert(0 < a * p <= 0x100_0000 * 0x1_0000_0000_0000_0000) by (nonlinear_arith)
                requires
                    0 < a < 0x100_0000,
                    0 < p <= 0x1_0000_0000_0000_0000,
            ;
            let low = x as int % (a * p);
            lemma_mod_bound(x as int, a * p);
            lemma_scaled_mod(q, x as int, a * p);
            assert(q * (a * p) == a * (p * q) && q * x as int == x * q) by (nonlinear_arith);
            assert(0 <= low * q < a * (p * q) && low * q == q * low) by (nonlinear_arith)
                requires
                    0 <= low < a * p,
                    q > 0,
            ;
            if self.valid(w, x as int) {
                let n = self.dec(x as int);
                self.lemma_valid(w, x as int);
                lemma_scaled_mod(a, n * q, w.modulus());
                assert((a * n) * q == a * (n * q)) by (nonlinear_arith);
            }
        }
        (x % ((self.a as u128) * keep)) * scale
    }

    /// The encoded value, which is checked, shifted right by a plain count of at most the width:
    /// the quotient by the constant times the power of two is the shifted value, which is
    /// encoded again.
    fn shr_u_by(&self, w: Width, x: u128, k: u32) -> (r: Result<u128, Trap>)
        requires
            self.wf(),
            self.in_band(w, x as int),
            k <= w.bits(),
        ensures
            r is Ok <==> self.is_codeword(x as int),
            r matches Err(t) ==> t == Trap::AnCodewordInvalid,
            r matches Ok(y) ==> {
                &&& y == self.enc(shr_u(self.dec(x as int), k as nat))
                &&& w.has(shr_u(self.dec(x as int), k as nat))
                &&& self.valid(w, y as int)
            },
    {
        match self.check(x) {
            Err(t) => {
                return Err(t);
            },
            Ok(_) => {},
        }
        let scale: u128 = two_to(k);
        proof {
            self.lemma_valid(w, x as int);
            lemma_split(w, k as nat);
            let (a, n, q) = (self.a as int, self.dec(x as int), scale as int);
            assert(0 < a * q <= 0x100_0000 * 0x1_0000_0000_0000_0000) by (nonlinear_arith)
                requires
                    0 < a < 0x100_0000,
                    0 < q <= 0x1_0000_0000_0000_0000,
            ;
            lemma_scaled_mod(a, n, q);
            assert(0 <= n / q <= n) by (nonlinear_arith)
                requires
                    0 <= n,
                    q > 0,
            ;
            assert((n / q) * a == a * (n / q)) by (nonlinear_arith);
            self.lemma_round_trip(w, n / q);
            self.lemma_band(w);
        }
        Ok(x / ((self.a as u128) * scale) * (self.a as u128))
    }

    /// The encoded value shifted left. The count is checked and decoded; the value stays encoded.
    pub fn shl(&self, w: Width, x: u128, k: u128) -> (r: Result<u128, Trap>)
        requires
            self.wf(),
            self.in_band(w, x as int),
            self.in_band(w, k as int),
        ensures
            r is Ok <==> self.is_codeword(k as int),
            r matches Err(t) ==> t == Trap::AnCodewordInvalid,
            r matches Ok(y) ==> {
                let c = (self.dec(k as int) % w.bits() as int) as nat;
                &&& self.in_band(w, y as int)
                &&& y == (x * pow2(c)) % self.band(w)
                &&& self.valid(w, x as int) ==> y == self.enc(shl(w, self.dec(x as int), c))
            },
    {
        match self.shift_count(w, k) {
            Ok(c) => Ok(self.shl_by(w, x, c)),
            Err(t) => Err(t),
        }
    }

    /// The encoded value shifted right. The count and the value are checked.
    pub fn shr_u(&self, w: Width, x: u128, k: u128) -> (r: Result<u128, Trap>)
        requires
            self.wf(),
            self.in_band(w, x as int),
            self.in_band(w, k as int),
        ensures
            r is Ok <==> self.is_codeword(k as int) && self.is_codeword(x as int),
            r matches Err(t) ==> t == Trap::AnCodewordInvalid,
            r matches Ok(y) ==> {
                let c = (self.dec(k as int) % w.bits() as int) as nat;
                y == self.enc(shr_u(self.dec(x as int), c)) && self.valid(w, y as int)
            },
    {
        match self.shift_count(w, k) {
            Ok(c) => self.shr_u_by(w, x, c),
            Err(t) => Err(t),
        }
    }

    /// The encoded signed value shifted right: the logical shift, and for a negative value the
    /// encoded ones that the sign fills in. The count and the value are checked.
    pub fn shr_s(&self, w: Width, x: u128, k: u128) -> (r: Result<u128, Trap>)
        requires
            self.wf(),
            self.in_band(w, x as int),
            self.in_band(w, k as int),
        ensures
            r is Ok <==> self.is_codeword(k as int) && self.is_codeword(x as int),
            r matches Err(t) ==> t == Trap::AnCodewordInvalid,
            r matches Ok(y) ==> {
                let c = (self.dec(k as int) % w.bits() as int) as nat;
                y == self.enc(shr_s(w, self.dec(x as int), c)) && self.valid(w, y as int)
            },
    {
        let c: u32 = match self.shift_count(w, k) {
            Ok(c) => c,
            Err(t) => {
                return Err(t);
            },
        };
        let logical: u128 = match self.shr_u_by(w, x, c) {
            Ok(y) => y,
            Err(t) => {
                return Err(t);
            },
        };
        let band: u128 = self.band_of(w);
        let half: u128 = match w {
            Width::W32 => 0x8000_0000,
            Width::W64 => 0x8000_0000_0000_0000,
        };
        let scale: u128 = two_to(c);
        proof {
            self.lemma_valid(w, x as int);
            lemma_split(w, c as nat);
            lemma_shr_s(*self, w, self.dec(x as int), c as nat);
            let (a, n, h) = (self.a as int, self.dec(x as int), half as int);
            assert(a * n >= a * h <==> n >= h) by (nonlinear_arith)
                requires
                    a > 0,
            ;
            assert(a * h <= a * w.modulus()) by (nonlinear_arith)
                requires
                    a > 0,
                    h <= w.modulus(),
            ;
        }
        if x >= (self.a as u128) * half {
            Ok(logical + (band - band / scale))
        } else {
            Ok(logical)
        }
    }

    /// The encoded value rotated left. The count and the value are checked.
    pub fn rotl(&self, w: Width, x: u128, k: u128) -> (r: Result<u128, Trap>)
        requires
            self.wf(),
            self.in_band(w, x as int),
            self.in_band(w, k as int),
        ensures
            r is Ok <==> self.is_codeword(k as int) && self.is_codeword(x as int),
            r matches Err(t) ==> t == Trap::AnCodewordInvalid,
            r matches Ok(y) ==> {
                let c = (self.dec(k as int) % w.bits() as int) as nat;
                y == self.enc(rotl(w, self.dec(x as int), c)) && self.valid(w, y as int)
            },
    {
        let c: u32 = match self.shift_count(w, k) {
            Ok(c) => c,
            Err(t) => {
                return Err(t);
            },
        };
        let high: u128 = self.shl_by(w, x, c);
        let low: u128 = match self.shr_u_by(w, x, bits_of(w) - c) {
            Ok(y) => y,
            Err(t) => {
                return Err(t);
            },
        };
        proof {
            self.lemma_valid(w, x as int);
            let n = self.dec(x as int);
            lemma_rotated(w, n, c as nat);
            let (a, p, q) = (
                self.a as int,
                shl(w, n, c as nat),
                shr_u(n, (w.bits() - c) as nat),
            );
            assert(a * p + a * q == a * (p + q)) by (nonlinear_arith);
            self.lemma_round_trip(w, p + q);
            self.lemma_band(w);
        }
        Ok(high + low)
    }

    /// The encoded value rotated right. The count and the value are checked.
    pub fn rotr(&self, w: Width, x: u128, k: u128) -> (r: Result<u128, Trap>)
        requires
            self.wf(),
            self.in_band(w, x as int),
            self.in_band(w, k as int),
        ensures
            r is Ok <==> self.is_codeword(k as int) && self.is_codeword(x as int),
            r matches Err(t) ==> t == Trap::AnCodewordInvalid,
            r matches Ok(y) ==> {
                let c = (self.dec(k as int) % w.bits() as int) as nat;
                y == self.enc(rotr(w, self.dec(x as int), c)) && self.valid(w, y as int)
            },
    {
        let c: u32 = match self.shift_count(w, k) {
            Ok(c) => c,
            Err(t) => {
                return Err(t);
            },
        };
        let low: u128 = match self.shr_u_by(w, x, c) {
            Ok(y) => y,
            Err(t) => {
                return Err(t);
            },
        };
        let high: u128 = self.shl_by(w, x, bits_of(w) - c);
        proof {
            self.lemma_valid(w, x as int);
            let n = self.dec(x as int);
            let d = (w.bits() - c) as nat;
            lemma_rotated(w, n, d);
            assert((w.bits() - d) as nat == c as nat);
            let (a, p, q) = (self.a as int, shl(w, n, d), shr_u(n, c as nat));
            assert(a * p + a * q == a * (p + q)) by (nonlinear_arith);
            self.lemma_round_trip(w, p + q);
            self.lemma_band(w);
        }
        Ok(low + high)
    }
}

/// The signed right shift of a value, encoded, through the logical shift.
proof fn lemma_shr_s(c: Codec, w: Width, n: int, k: nat)
    requires
        c.wf(),
        w.has(n),
        k < w.bits(),
    ensures
        ({
            let fill = c.band(w) - c.band(w) / pow2(k) as int;
            let y = if n >= w.half() {
                c.enc(shr_u(n, k)) + fill
            } else {
                c.enc(shr_u(n, k))
            };
            &&& 0 <= c.band(w) / pow2(k) as int <= c.band(w)
            &&& y == c.enc(shr_s(w, n, k))
            &&& c.valid(w, y)
        }),
{
    lemma_split(w, k);
    let (a, m) = (c.a as int, w.modulus());
    let (p, q) = (pow2((w.bits() - k) as nat) as int, pow2(k) as int);
    assert(a * (p * q) == (a * p) * q) by (nonlinear_arith);
    vstd::arithmetic::div_mod::lemma_div_multiples_vanish(a * p, q);
    assert((a * p) * q == q * (a * p)) by (nonlinear_arith);
    lemma_fundamental_div_mod(n, q);
    let (d, r) = (n / q, n % q);
    assert(0 <= d < p) by (nonlinear_arith)
        requires
            0 <= n < p * q,
            n == q * d + r,
            0 <= r < q,
            q > 0,
    ;
    assert(0 <= a * p <= a * m) by (nonlinear_arith)
        requires
            0 < p <= m,
            a > 0,
    ;
    if n >= w.half() {
        assert(n - m == q * (d - p) + r) by (nonlinear_arith)
            requires
                n == q * d + r,
                m == p * q,
        ;
        assert(q * (d - p) == (d - p) * q) by (nonlinear_arith);
        lemma_fundamental_div_mod_converse(n - m, q, d - p, r);
        lemma_fundamental_div_mod_converse(d - p, m, -1, m + d - p);
        assert(a * d + (a * m - a * p) == a * (m + d - p)) by (nonlinear_arith);
        c.lemma_round_trip(w, m + d - p);
    } else {
        vstd::arithmetic::div_mod::lemma_small_mod(d as nat, m as nat);
        c.lemma_round_trip(w, d);
    }
}

} // verus!
