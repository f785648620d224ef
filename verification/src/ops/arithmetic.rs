//! Addition, subtraction, multiplication and division.
use crate::arith::lemma_scaled_mod;
use crate::codec::Codec;
use crate::traps::Trap;
use crate::wasm::{div_s, rem_s, truncated_div, truncated_rem, Width};
use vstd::arithmetic::div_mod::{
    lemma_div_multiples_vanish, lemma_fundamental_div_mod, lemma_fundamental_div_mod_converse,
    lemma_mod_bound, lemma_small_mod,
};
use vstd::prelude::*;

verus! {

/// The numbers of machine words in which the encoded values of a width are held.
pub open spec fn word(w: Width) -> int {
    match w {
        Width::W32 => 0x1_0000_0000_0000_0000,
        Width::W64 => u128::MAX + 1,
    }
}

impl Codec {
    /// The encoded sum, reduced to the canonical range.
    pub fn add(&self, w: Width, x: u128, y: u128) -> (r: u128)
        requires
            self.wf(),
            self.in_band(w, x as int),
            self.in_band(w, y as int),
        ensures
            self.in_band(w, r as int),
            r == (x + y) % self.band(w),
            self.valid(w, x as int) && self.valid(w, y as int) ==> r == self.enc(
                w.reduce(self.dec(x as int) + self.dec(y as int)),
            ),
    {
        let band: u128 = self.band_of(w);
        let sum: u128 = x + y;
        proof {
            if sum >= band {
                lemma_fundamental_div_mod_converse(sum as int, band as int, 1, sum - band);
            } else {
                lemma_small_mod(sum as nat, band as nat);
            }
            if self.valid(w, x as int) && self.valid(w, y as int) {
                let (n, m) = (self.dec(x as int), self.dec(y as int));
                self.lemma_valid(w, x as int);
                self.lemma_valid(w, y as int);
                lemma_scaled_mod(self.a as int, n + m, w.modulus());
                assert(self.a * (n + m) == self.a * n + self.a * m) by (nonlinear_arith);
            }
        }
        if sum >= band {
            sum - band
        } else {
            sum
        }
    }

    /// The encoded difference, reduced to the canonical range.
    pub fn sub(&self, w: Width, x: u128, y: u128) -> (r: u128)
        requires
            self.wf(),
            self.in_band(w, x as int),
            self.in_band(w, y as int),
        ensures
            self.in_band(w, r as int),
            r == (x - y) % self.band(w),
            self.valid(w, x as int) && self.valid(w, y as int) ==> r == self.enc(
                w.reduce(self.dec(x as int) - self.dec(y as int)),
            ),
    {
        let band: u128 = self.band_of(w);
        proof {
            if x >= y {
                lemma_small_mod((x - y) as nat, band as nat);
            } else {
                lemma_fundamental_div_mod_converse(x - y, band as int, -1, x - y + band);
            }
            if self.valid(w, x as int) && self.valid(w, y as int) {
                let (n, m) = (self.dec(x as int), self.dec(y as int));
                self.lemma_valid(w, x as int);
                self.lemma_valid(w, y as int);
                lemma_scaled_mod(self.a as int, n - m, w.modulus());
                assert(self.a * (n - m) == self.a * n - self.a * m) by (nonlinear_arith);
            }
        }
        if x >= y {
            x - y
        } else {
            x + band - y
        }
    }

    /// The encoded product: the product of the words carries the constant twice, one factor is
    /// divided out, and the rest is reduced to the canonical range. A product of more than 128
    /// bits, which two 32-bit values never have, is a trap.
    pub fn mul(&self, w: Width, x: u128, y: u128) -> (r: Result<u128, Trap>)
        requires
            self.wf(),
            self.in_band(w, x as int),
            self.in_band(w, y as int),
        ensures
            r is Ok <==> x * y <= u128::MAX,
            w == Width::W32 || self.a == 1 ==> r is Ok,
            r matches Err(t) ==> t == Trap::AnI64WidenOverflow,
            r matches Ok(p) ==> {
                &&& self.in_band(w, p as int)
                &&& p == ((x * y) / self.a as int) % self.band(w)
                &&& self.valid(w, x as int) && self.valid(w, y as int) ==> p == self.enc(
                    w.reduce(self.dec(x as int) * self.dec(y as int)),
                )
            },
    {
        let band: u128 = self.band_of(w);
        proof {
            let b = band as int;
            assert(w == Width::W32 ==> b <= 0x100_0000 * 0x1_0000_0000) by {
                let a = self.a as int;
                assert(a * 0x1_0000_0000 <= 0x100_0000 * 0x1_0000_0000);
            }
            if w == Width::W32 || self.a == 1 {
                assert(x * y <= u128::MAX) by (nonlinear_arith)
                    requires
                        0 <= x < b,
                        0 <= y < b,
                        0 < b <= 0x1_0000_0000_0000_0000,
                ;
            }
        }
        match x.checked_mul(y) {
            None => Err(Trap::AnI64WidenOverflow),
            Some(p) => {
                proof {
                    lemma_mod_bound(p as int / self.a as int, band as int);
                    if self.valid(w, x as int) && self.valid(w, y as int) {
                        let (a, n, m) = (self.a as int, self.dec(x as int), self.dec(y as int));
                        self.lemma_valid(w, x as int);
                        self.lemma_valid(w, y as int);
                        assert((a * n) * (a * m) == (a * (n * m)) * a) by (nonlinear_arith);
                        lemma_div_multiples_vanish(a * (n * m), a);
                        assert((a * (n * m)) * a == a * (a * (n * m))) by (nonlinear_arith);
                        lemma_scaled_mod(a, n * m, w.modulus());
                    }
                }
                Ok((p / (self.a as u128)) % band)
            },
        }
    }

    /// The encoded quotient of unsigned values: the constant cancels, and the quotient is
    /// encoded again.
    pub fn div_u(&self, w: Width, x: u128, y: u128) -> (r: Result<u128, Trap>)
        requires
            self.wf(),
            self.in_band(w, x as int),
            self.in_band(w, y as int),
        ensures
            r is Ok <==> y != 0,
            r matches Err(t) ==> t == Trap::IntegerDivisionByZero,
            r matches Ok(q) ==> {
                &&& q == self.enc(x as int / y as int) % word(w)
                &&& self.valid(w, x as int) && self.valid(w, y as int) ==> q == self.enc(
                    self.dec(x as int) / self.dec(y as int),
                ) && self.valid(w, q as int)
            },
    {
        if y == 0 {
            return Err(Trap::IntegerDivisionByZero);
        }
        let q: u128 = x / y;
        proof {
            self.lemma_band(w);
            lemma_quotient_bound(x as int, y as int);
            if self.valid(w, x as int) && self.valid(w, y as int) {
                let (n, m) = (self.dec(x as int), self.dec(y as int));
                self.lemma_valid(w, x as int);
                self.lemma_valid(w, y as int);
                lemma_scaled_mod(self.a as int, n, m);
                lemma_quotient_bound(n, m);
                self.lemma_round_trip(w, n / m);
            }
        }
        Ok(self.encode_word(w, q))
    }

    /// The product of a quotient with the constant, in a machine word of the width.
    fn encode_word(&self, w: Width, q: u128) -> (r: u128)
        requires
            self.wf(),
            q <= 0x100_0000 * 0x1_0000_0000_0000_0000,
        ensures
            r == self.enc(q as int) % word(w),
            r < word(w),
            self.in_band(w, self.enc(q as int)) ==> r == self.enc(q as int),
    {
        proof {
            let (a, b) = (self.a as int, q as int);
            assert(0 <= a * b <= 0x100_0000 * (0x100_0000 * 0x1_0000_0000_0000_0000))
                by (nonlinear_arith)
                requires
                    0 < a < 0x100_0000,
                    0 <= b <= 0x100_0000 * 0x1_0000_0000_0000_0000,
            ;
            lemma_small_mod((a * b) as nat, (u128::MAX + 1) as nat);
            if a * b < 0x1_0000_0000_0000_0000 {
                lemma_small_mod((a * b) as nat, 0x1_0000_0000_0000_0000);
            }
        }
        let p: u128 = (self.a as u128) * q;
        match w {
            Width::W32 => p % 0x1_0000_0000_0000_0000,
            Width::W64 => p,
        }
    }

    /// The encoded remainder of unsigned values: the constant stays.
    pub fn rem_u(&self, w: Width, x: u128, y: u128) -> (r: Result<u128, Trap>)
        requires
            self.wf(),
            self.in_band(w, x as int),
            self.in_band(w, y as int),
        ensures
            r is Ok <==> y != 0,
            r matches Err(t) ==> t == Trap::IntegerDivisionByZero,
            r matches Ok(m) ==> {
                &&& self.in_band(w, m as int)
                &&& m == x as int % y as int
                &&& self.valid(w, x as int) && self.valid(w, y as int) ==> m == self.enc(
                    self.dec(x as int) % self.dec(y as int),
                )
            },
    {
        if y == 0 {
            return Err(Trap::IntegerDivisionByZero);
        }
        proof {
            lemma_mod_bound(x as int, y as int);
            if self.valid(w, x as int) && self.valid(w, y as int) {
                self.lemma_valid(w, x as int);
                self.lemma_valid(w, y as int);
                lemma_scaled_mod(self.a as int, self.dec(x as int), self.dec(y as int));
            }
        }
        Ok(x % y)
    }

    /// Whether a word is the encoding of a negative value.
    pub open spec fn is_negative(self, w: Width, x: int) -> bool {
        x >= self.a * w.half()
    }

    /// The encoded magnitude of a word.
    pub open spec fn abs(self, w: Width, x: int) -> int {
        if self.is_negative(w, x) {
            self.band(w) - x
        } else {
            x
        }
    }

    /// The sign and the encoded magnitude of a word.
    fn sign_and_abs(&self, w: Width, x: u128) -> (r: (bool, u128))
        requires
            self.wf(),
            self.in_band(w, x as int),
        ensures
            r.0 == self.is_negative(w, x as int),
            r.1 == self.abs(w, x as int),
            self.in_band(w, r.1 as int),
            r.1 == 0 <==> x == 0,
            self.valid(w, x as int) ==> {
                &&& r.0 <==> w.signed(self.dec(x as int)) < 0
                &&& r.1 == self.enc(w.magnitude(self.dec(x as int)))
                &&& 0 <= w.magnitude(self.dec(x as int)) <= w.half()
            },
    {
        let band: u128 = self.band_of(w);
        let half: u128 = match w {
            Width::W32 => 0x8000_0000,
            Width::W64 => 0x8000_0000_0000_0000,
        };
        proof {
            let (a, h) = (self.a as int, half as int);
            assert(a * h + a * h == a * (2 * h) && a * h > 0) by (nonlinear_arith)
                requires
                    a > 0,
                    h > 0,
            ;
            if self.valid(w, x as int) {
                let n = self.dec(x as int);
                self.lemma_valid(w, x as int);
                assert(a * n >= a * h <==> n >= h) by (nonlinear_arith)
                    requires
                        a > 0,
                ;
                let m = w.modulus();
                assert(a * m - a * n == a * (m - n)) by (nonlinear_arith);
            }
        }
        let negative: bool = x >= (self.a as u128) * half;
        (negative, if negative {
            band - x
        } else {
            x
        })
    }

    /// The encoded quotient of signed values: that of the magnitudes, with the sign put back.
    /// The least value divided by minus one is an overflow.
    pub fn div_s(&self, w: Width, x: u128, y: u128) -> (r: Result<u128, Trap>)
        requires
            self.wf(),
            self.in_band(w, x as int),
            self.in_band(w, y as int),
        ensures
            r is Err <==> y == 0 || (x == self.a * w.half() && y == self.enc(w.modulus() - 1)),
            r matches Err(t) ==> t == if y == 0 {
                Trap::IntegerDivisionByZero
            } else {
                Trap::IntegerOverflow
            },
            r matches Ok(q) ==> {
                let p = self.enc(self.abs(w, x as int) / self.abs(w, y as int)) % word(w);
                &&& q == if p == 0 || self.is_negative(w, x as int) == self.is_negative(
                    w,
                    y as int,
                ) {
                    p
                } else {
                    (self.band(w) - p) % word(w)
                }
                &&& self.valid(w, x as int) && self.valid(w, y as int) ==> q == self.enc(
                    div_s(w, self.dec(x as int), self.dec(y as int)),
                ) && self.valid(w, q as int)
            },
    {
        let band: u128 = self.band_of(w);
        if y == 0 {
            return Err(Trap::IntegerDivisionByZero);
        }
        let (s1, abs1) = self.sign_and_abs(w, x);
        let (s2, abs2) = self.sign_and_abs(w, y);
        let half: u128 = match w {
            Width::W32 => 0x8000_0000,
            Width::W64 => 0x8000_0000_0000_0000,
        };
        proof {
            let (a, m) = (self.a as int, w.modulus());
            assert(a * (m - 1) == a * m - a) by (nonlinear_arith);
            assert(a * w.half() < a * m) by (nonlinear_arith)
                requires
                    a > 0,
                    w.half() < m,
            ;
        }
        if x == (self.a as u128) * half && y == band - (self.a as u128) {
            return Err(Trap::IntegerOverflow);
        }
        let raw: u128 = abs1 / abs2;
        proof {
            lemma_quotient_bound(abs1 as int, abs2 as int);
            self.lemma_band(w);
        }
        let q: u128 = self.encode_word(w, raw);
        let r: u128 = if q == 0 || s1 == s2 {
            q
        } else {
            self.negate_word(w, q)
        };
        proof {
            if self.valid(w, x as int) && self.valid(w, y as int) {
                self.lemma_valid(w, x as int);
                self.lemma_valid(w, y as int);
                lemma_div_s_codewords(*self, w, self.dec(x as int), self.dec(y as int));
            }
        }
        Ok(r)
    }

    /// The band less a word, in a machine word of the width.
    fn negate_word(&self, w: Width, q: u128) -> (r: u128)
        requires
            self.wf(),
            q < word(w),
        ensures
            r == (self.band(w) - q) % word(w),
            q <= self.band(w) && q != 0 ==> r == self.band(w) - q,
    {
        let band: u128 = self.band_of(w);
        proof {
            assert(band < word(w)) by {
                assert(w == Width::W32 ==> band == self.a * 0x1_0000_0000);
            }
            if q <= band {
                lemma_small_mod((band - q) as nat, word(w) as nat);
            } else {
                lemma_fundamental_div_mod_converse(band - q, word(w), -1, word(w) + band - q);
            }
        }
        if q <= band {
            band - q
        } else {
            match w {
                Width::W32 => 0x1_0000_0000_0000_0000 + band - q,
                Width::W64 => 0xffff_ffff_ffff_ffff_ffff_ffff_ffff_ffff - (q - band - 1),
            }
        }
    }

    /// The encoded remainder of signed values: that of the magnitudes, with the sign of the
    /// dividend.
    pub fn rem_s(&self, w: Width, x: u128, y: u128) -> (r: Result<u128, Trap>)
        requires
            self.wf(),
            self.in_band(w, x as int),
            self.in_band(w, y as int),
        ensures
            r is Ok <==> y != 0,
            r matches Err(t) ==> t == Trap::IntegerDivisionByZero,
            r matches Ok(q) ==> {
                let p = self.abs(w, x as int) % self.abs(w, y as int);
                &&& self.in_band(w, q as int)
                &&& q == if p == 0 || !self.is_negative(w, x as int) {
                    p
                } else {
                    self.band(w) - p
                }
                &&& self.valid(w, x as int) && self.valid(w, y as int) ==> q == self.enc(
                    rem_s(w, self.dec(x as int), self.dec(y as int)),
                )
            },
    {
        let band: u128 = self.band_of(w);
        if y == 0 {
            return Err(Trap::IntegerDivisionByZero);
        }
        let (s1, abs1) = self.sign_and_abs(w, x);
        let (_s2, abs2) = self.sign_and_abs(w, y);
        let p: u128 = abs1 % abs2;
        proof {
            lemma_mod_bound(abs1 as int, abs2 as int);
            if self.valid(w, x as int) && self.valid(w, y as int) {
                self.lemma_valid(w, x as int);
                self.lemma_valid(w, y as int);
                lemma_rem_s_codewords(*self, w, self.dec(x as int), self.dec(y as int));
            }
        }
        if p == 0 || !s1 {
            Ok(p)
        } else {
            Ok(band - p)
        }
    }
}

/// A quotient is between zero and its dividend.
proof fn lemma_quotient_bound(x: int, y: int)
    requires
        0 <= x,
        0 < y,
    ensures
        0 <= x / y <= x,
{
    assert(0 <= x / y <= x) by (nonlinear_arith)
        requires
            0 <= x,
            0 < y,
    ;
}

/// The signed quotient of two values, through the magnitudes, encoded.
proof fn lemma_div_s_codewords(c: Codec, w: Width, n: int, m: int)
    requires
        c.wf(),
        w.has(n),
        w.has(m),
        m != 0,
        !(n == w.half() && m == w.modulus() - 1),
    ensures
        ({
            let (p, q) = (w.magnitude(n), w.magnitude(m));
            let e = p / q;
            &&& q > 0
            &&& c.enc(p) / c.enc(q) == e
            &&& c.in_band(w, c.enc(e))
            &&& c.enc(e) == 0 <==> e == 0
            &&& (e == 0 || (w.signed(n) < 0) == (w.signed(m) < 0)) ==> c.enc(e) == c.enc(
                div_s(w, n, m),
            ) && c.valid(w, c.enc(e))
            &&& e != 0 && (w.signed(n) < 0) != (w.signed(m) < 0) ==> c.band(w) - c.enc(e) == c.enc(
                div_s(w, n, m),
            ) && c.valid(w, c.band(w) - c.enc(e)) && c.enc(e) <= c.band(w)
        }),
{
    let (a, k) = (c.a as int, w.modulus());
    let (p, q) = (w.magnitude(n), w.magnitude(m));
    let e = p / q;
    lemma_scaled_mod(a, p, q);
    lemma_quotient_bound(p, q);
    lemma_fundamental_div_mod(p, q);
    if e == w.half() && (w.signed(n) < 0) == (w.signed(m) < 0) {
        assert(q == 1) by (nonlinear_arith)
            requires
                p == q * e + p % q,
                0 <= p % q < q,
                p <= w.half(),
                e == w.half(),
                w.half() > 0,
                q > 0,
        ;
    }
    assert(a * e == 0 <==> e == 0) by (nonlinear_arith)
        requires
            a > 0,
    ;
    c.lemma_round_trip(w, e);
    if e == 0 || (w.signed(n) < 0) == (w.signed(m) < 0) {
        lemma_small_mod(e as nat, k as nat);
    } else {
        lemma_fundamental_div_mod_converse(-e, k, -1, k - e);
        c.lemma_round_trip(w, k - e);
        assert(a * k - a * e == a * (k - e)) by (nonlinear_arith);
        assert(a * e <= a * k) by (nonlinear_arith)
            requires
                0 < e <= k,
                a > 0,
        ;
    }
}

/// The signed remainder of two values, through the magnitudes, encoded.
proof fn lemma_rem_s_codewords(c: Codec, w: Width, n: int, m: int)
    requires
        c.wf(),
        w.has(n),
        w.has(m),
        m != 0,
    ensures
        ({
            let (p, q) = (w.magnitude(n), w.magnitude(m));
            let e = p % q;
            &&& q > 0
            &&& c.enc(p) % c.enc(q) == c.enc(e)
            &&& c.enc(e) == 0 <==> e == 0
            &&& (e == 0 || w.signed(n) >= 0) ==> c.enc(e) == c.enc(rem_s(w, n, m))
            &&& e != 0 && w.signed(n) < 0 ==> c.band(w) - c.enc(e) == c.enc(rem_s(w, n, m))
        }),
{
    let (a, k) = (c.a as int, w.modulus());
    let (p, q) = (w.magnitude(n), w.magnitude(m));
    let e = p % q;
    lemma_scaled_mod(a, p, q);
    lemma_fundamental_div_mod(p, q);
    lemma_mod_bound(p, q);
    assert(a * e == 0 <==> e == 0) by (nonlinear_arith)
        requires
            a > 0,
    ;
    let (x, y) = (w.signed(n), w.signed(m));
    let d = p / q;
    let t = truncated_div(x, y);
    assert(t * y == if x < 0 {
        -(q * d)
    } else {
        q * d
    }) by (nonlinear_arith)
        requires
            t == if (x < 0) != (y < 0) {
                -d
            } else {
                d
            },
            q == if y < 0 {
                -y
            } else {
                y
            },
    ;
    assert(truncated_rem(x, y) == if x < 0 {
        -e
    } else {
        e
    });
    if e == 0 || x >= 0 {
        lemma_small_mod(e as nat, k as nat);
    } else {
        lemma_fundamental_div_mod_converse(-e, k, -1, k - e);
        assert(a * k - a * e == a * (k - e)) by (nonlinear_arith);
    }
}

} // verus!
