//! Comparisons, and the decisions that control flow takes on encoded values.
use crate::codec::Codec;
use crate::traps::Trap;
use crate::wasm::{Relation, Width};
use vstd::arithmetic::div_mod::{lemma_fundamental_div_mod_converse, lemma_small_mod};
use vstd::prelude::*;

verus! {

impl Codec {
    /// An encoded truth value.
    pub open spec fn truth(self, b: bool) -> int {
        if b {
            self.a as int
        } else {
            0
        }
    }

    /// The word by which a comparison orders an operand: signed operands are moved by half the
    /// band, so that the negative values come first.
    pub open spec fn order_key(self, op: Relation, w: Width, x: int) -> int {
        if op.is_signed() {
            (x + self.a * w.half()) % self.band(w)
        } else {
            x
        }
    }

    /// The word by which a comparison orders an operand.
    fn key_of(&self, op: Relation, w: Width, x: u128) -> (r: u128)
        requires
            self.wf(),
            self.in_band(w, x as int),
        ensures
            r == self.order_key(op, w, x as int),
            self.valid(w, x as int) && op.is_signed() ==> r == self.enc(
                w.signed(self.dec(x as int)) + w.half(),
            ),
    {
        let signed: bool = match op {
            Relation::LtS | Relation::LeS | Relation::GtS | Relation::GeS => true,
            _ => false,
        };
        if !signed {
            return x;
        }
        let band: u128 = self.band_of(w);
        let half: u128 = match w {
            Width::W32 => 0x8000_0000,
            Width::W64 => 0x8000_0000_0000_0000,
        };
        proof {
            let (a, h) = (self.a as int, half as int);
            assert(a * h + a * h == a * (2 * h) && a * h > 0) by (nonlinear_arith)
                requires
                    a > 0,
                    h > 0,
            ;
            let t = x + a * h;
            if t >= band {
                lemma_fundamental_div_mod_converse(t, band as int, 1, t - band);
            } else {
                lemma_small_mod(t as nat, band as nat);
            }
            if self.valid(w, x as int) {
                self.lemma_valid(w, x as int);
                let n = self.dec(x as int);
                assert(a * n >= a * h <==> n >= h) by (nonlinear_arith)
                    requires
                        a > 0,
                ;
                assert(a * n + a * h == a * (n + h) && a * n - a * h == a * (n - h))
                    by (nonlinear_arith);
            }
        }
        let t: u128 = x + (self.a as u128) * half;
        if t >= band {
            t - band
        } else {
            t
        }
    }

    /// The encoded truth value of a comparison. Both operands are checked: the result is a fresh
    /// codeword, which would hide a fault in either.
    pub fn compare(&self, op: Relation, w: Width, x: u128, y: u128) -> (r: Result<u128, Trap>)
        requires
            self.wf(),
            self.in_band(w, x as int),
            self.in_band(w, y as int),
        ensures
            r is Ok <==> self.is_codeword(x as int) && self.is_codeword(y as int),
            r matches Err(t) ==> t == Trap::AnCodewordInvalid,
            r matches Ok(b) ==> b == self.truth(
                op.compares(w, self.dec(x as int), self.dec(y as int)),
            ) && self.valid(Width::W32, b as int),
    {
        match self.check(x) {
            Err(t) => {
                return Err(t);
            },
            Ok(_) => {},
        }
        match self.check(y) {
            Err(t) => {
                return Err(t);
            },
            Ok(_) => {},
        }
        let c: u128 = self.key_of(op, w, x);
        let d: u128 = self.key_of(op, w, y);
        proof {
            self.lemma_valid(w, x as int);
            self.lemma_valid(w, y as int);
            let (a, n, m) = (self.a as int, self.dec(x as int), self.dec(y as int));
            let (p, q) = if op.is_signed() {
                (w.signed(n) + w.half(), w.signed(m) + w.half())
            } else {
                (n, m)
            };
            assert((a * p < a * q <==> p < q) && (a * p == a * q <==> p == q)) by (nonlinear_arith)
                requires
                    a > 0,
            ;
        }
        let b: bool = match op {
            Relation::Eq => c == d,
            Relation::Ne => c != d,
            Relation::LtU | Relation::LtS => c < d,
            Relation::LeU | Relation::LeS => c <= d,
            Relation::GtU | Relation::GtS => c > d,
            Relation::GeU | Relation::GeS => c >= d,
        };
        Ok(self.truth_of(b))
    }

    /// Encodes a truth value.
    pub fn truth_of(&self, b: bool) -> (r: u128)
        requires
            self.wf(),
        ensures
            r == self.truth(b),
            self.valid(Width::W32, r as int),
    {
        proof {
            self.lemma_round_trip(Width::W32, 1);
            self.lemma_round_trip(Width::W32, 0);
        }
        if b {
            self.a as u128
        } else {
            0
        }
    }

    /// The encoded truth value of a value being zero; the operand is checked.
    pub fn eqz(&self, w: Width, x: u128) -> (r: Result<u128, Trap>)
        requires
            self.wf(),
            self.in_band(w, x as int),
        ensures
            r is Ok <==> self.is_codeword(x as int),
            r matches Err(t) ==> t == Trap::AnCodewordInvalid,
            r matches Ok(b) ==> b == self.truth(self.dec(x as int) == 0) && self.valid(
                Width::W32,
                b as int,
            ),
    {
        match self.condition(w, x) {
            Ok(c) => Ok(self.truth_of(!c)),
            Err(t) => Err(t),
        }
    }

    /// The decision of a branch or a selection on an encoded condition, which is checked: it is
    /// consumed, and a fault in it would leave no other trace.
    pub fn condition(&self, w: Width, x: u128) -> (r: Result<bool, Trap>)
        requires
            self.wf(),
            self.in_band(w, x as int),
        ensures
            r is Ok <==> self.is_codeword(x as int),
            r matches Err(t) ==> t == Trap::AnCodewordInvalid,
            r matches Ok(c) ==> c == (self.dec(x as int) != 0),
    {
        match self.check(x) {
            Ok(_) => {
                proof {
                    self.lemma_valid(w, x as int);
                    let (a, n) = (self.a as int, self.dec(x as int));
                    assert(a * n == 0 <==> n == 0) by (nonlinear_arith)
                        requires
                            a > 0,
                    ;
                }
                Ok(x != 0)
            },
            Err(t) => Err(t),
        }
    }

    /// The arm that a branch table with `arms` targets before its default takes on an encoded
    /// index: the index is checked and decoded, and any that is too large selects the default.
    pub fn br_table(&self, x: u128, arms: u32) -> (r: Result<u32, Trap>)
        requires
            self.wf(),
            self.in_band(Width::W32, x as int),
        ensures
            r is Ok <==> self.is_codeword(x as int),
            r matches Err(t) ==> t == Trap::AnCodewordInvalid,
            r matches Ok(arm) ==> arm == if self.dec(x as int) < arms {
                self.dec(x as int)
            } else {
                arms as int
            },
    {
        match self.decode(Width::W32, x) {
            Ok(n) => if n < arms as u64 {
                Ok(n as u32)
            } else {
                Ok(arms)
            },
            Err(t) => Err(t),
        }
    }
}

} // verus!
