//! Conversions between the widths, and sign extension within one.
use crate::arith::lemma_scaled_mod;
use crate::codec::{two_to, Codec};
use crate::wasm::{extend_s, Width};
use vstd::arithmetic::div_mod::lemma_mod_bound;
use vstd::arithmetic::power2::{
    lemma2_to64, lemma2_to64_rest, lemma_pow2_strictly_increases, lemma_pow2_unfold, pow2,
};
use vstd::prelude::*;

verus! {

impl Codec {
    /// The low bits of an encoded value, sign-extended: the residue by the constant times the
    /// power of two, and for a set sign bit the encoded ones above it.
    pub fn extend_s(&self, w: Width, bits: u32, x: u128) -> (r: u128)
        requires
            self.wf(),
            self.in_band(w, x as int),
            0 < bits < w.bits(),
        ensures
            self.in_band(w, r as int),
            ({
                let low = x as int % (self.a * pow2(bits as nat));
                r == if 2 * low >= self.a * pow2(bits as nat) {
                    low + self.band(w) - self.a * pow2(bits as nat)
                } else {
                    low
                }
            }),
            self.is_codeword(x as int) ==> r == self.enc(
                extend_s(w, bits as nat, self.dec(x as int)),
            ) && self.valid(w, r as int),
    {
        let band: u128 = self.band_of(w);
        let p: u128 = two_to(bits);
        proof {
            lemma2_to64();
            lemma2_to64_rest();
            lemma_pow2_strictly_increases(bits as nat, w.bits());
            lemma_pow2_unfold(bits as nat);
            let (a, q) = (self.a as int, p as int);
            assert(0 < a * q < a * w.modulus()) by (nonlinear_arith)
                requires
                    0 < a,
                    0 < q < w.modulus(),
            ;
            lemma_mod_bound(x as int, a * q);
            if self.valid(w, x as int) {
                self.lemma_valid(w, x as int);
                let n = self.dec(x as int);
                lemma_scaled_mod(a, n, q);
                lemma_mod_bound(n, q);
                let low = n % q;
                assert(2 * (a * low) >= a * q <==> 2 * low >= q) by (nonlinear_arith)
                    requires
                        a > 0,
                ;
                let m = w.modulus();
                assert(a * low + a * m - a * q == a * (low + m - q)) by (nonlinear_arith);
                self.lemma_round_trip(w, extend_s(w, bits as nat, n));
            }
        }
        let scaled: u128 = (self.a as u128) * p;
        let low: u128 = x % scaled;
        if 2 * low >= scaled {
            low + (band - scaled)
        } else {
            low
        }
    }

    /// A 64-bit value reduced to 32 bits, in the encoding.
    pub fn wrap_i64(&self, x: u128) -> (r: u128)
        requires
            self.wf(),
            self.in_band(Width::W64, x as int),
        ensures
            self.in_band(Width::W32, r as int),
            r == x as int % self.band(Width::W32),
            self.is_codeword(x as int) ==> r == self.enc(
                self.dec(x as int) % Width::W32.modulus(),
            ) && self.valid(Width::W32, r as int),
    {
        let band: u128 = self.band_of(Width::W32);
        proof {
            lemma_mod_bound(x as int, band as int);
            if self.is_codeword(x as int) {
                self.lemma_valid(Width::W64, x as int);
                let n = self.dec(x as int);
                lemma_scaled_mod(self.a as int, n, Width::W32.modulus());
                self.lemma_round_trip(Width::W32, n % Width::W32.modulus());
            }
        }
        x % band
    }

    /// A 32-bit value zero-extended to 64 bits: the word stays as it is.
    pub fn extend_i32_u(&self, x: u128) -> (r: u128)
        requires
            self.wf(),
            self.in_band(Width::W32, x as int),
        ensures
            r == x,
            self.in_band(Width::W64, r as int),
            self.is_codeword(x as int) ==> self.valid(Width::W64, r as int),
    {
        proof {
            let a = self.a as int;
            assert(a * 0x1_0000_0000 <= a * 0x1_0000_0000_0000_0000) by (nonlinear_arith)
                requires
                    a > 0,
            ;
        }
        x
    }

    /// A 32-bit value sign-extended to 64 bits, in the encoding.
    pub fn extend_i32_s(&self, x: u128) -> (r: u128)
        requires
            self.wf(),
            self.in_band(Width::W32, x as int),
        ensures
            self.in_band(Width::W64, r as int),
            r == if x >= self.a * Width::W32.half() {
                x + self.band(Width::W64) - self.band(Width::W32)
            } else {
                x as int
            },
            self.is_codeword(x as int) ==> r == self.enc(
                Width::W64.reduce(Width::W32.signed(self.dec(x as int))),
            ) && self.valid(Width::W64, r as int),
    {
        let band32: u128 = self.band_of(Width::W32);
        let band64: u128 = self.band_of(Width::W64);
        proof {
            let a = self.a as int;
            assert(a * 0x1_0000_0000 <= a * 0x1_0000_0000_0000_0000) by (nonlinear_arith)
                requires
                    a > 0,
            ;
            if self.is_codeword(x as int) {
                self.lemma_valid(Width::W32, x as int);
                let n = self.dec(x as int);
                assert(a * n >= a * 0x8000_0000 <==> n >= 0x8000_0000) by (nonlinear_arith)
                    requires
                        a > 0,
                ;
                let v = Width::W32.signed(n);
                if v < 0 {
                    vstd::arithmetic::div_mod::lemma_fundamental_div_mod_converse(
                        v,
                        0x1_0000_0000_0000_0000,
                        -1,
                        v + 0x1_0000_0000_0000_0000,
                    );
                    assert(a * n + a * 0x1_0000_0000_0000_0000 - a * 0x1_0000_0000 == a * (n
                        + 0x1_0000_0000_0000_0000 - 0x1_0000_0000)) by (nonlinear_arith);
                } else {
                    vstd::arithmetic::div_mod::lemma_small_mod(
                        v as nat,
                        0x1_0000_0000_0000_0000,
                    );
                }
                self.lemma_round_trip(Width::W64, Width::W64.reduce(v));
            }
        }
        if x >= (self.a as u128) * 0x8000_0000 {
            x + (band64 - band32)
        } else {
            x
        }
    }
}

} // verus!
