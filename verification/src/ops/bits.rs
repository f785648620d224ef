//! The operations that count bits.
use crate::codec::Codec;
use crate::traps::Trap;
use crate::wasm::{count, ones, Count, Width};
use vstd::prelude::*;

verus! {

/// The number of ones in a word.
fn count_ones(n: u64) -> (r: u32)
    ensures
        r == ones(n as nat),
        r <= 64,
{
    let mut rest: u64 = n;
    let mut r: u32 = 0;
    let mut i: u32 = 0;
    proof {
        vstd::arithmetic::power2::lemma2_to64_rest();
    }
    while rest != 0
        invariant
            r + ones(rest as nat) == ones(n as nat),
            r <= i <= 64,
            rest < vstd::arithmetic::power2::pow2((64 - i) as nat),
        decreases rest,
    {
        proof {
            if i == 64 {
                vstd::arithmetic::power2::lemma2_to64();
            } else {
                vstd::arithmetic::power2::lemma_pow2_unfold((64 - i) as nat);
            }
        }
        r = r + (rest % 2) as u32;
        rest = rest / 2;
        i = i + 1;
    }
    r
}

impl Codec {
    /// The encoded number of leading zeros, trailing zeros or ones. The operand is checked and
    /// decoded.
    pub fn count(&self, op: Count, w: Width, x: u128) -> (r: Result<u128, Trap>)
        requires
            self.wf(),
            self.in_band(w, x as int),
        ensures
            r is Ok <==> self.is_codeword(x as int),
            r matches Err(t) ==> t == Trap::AnCodewordInvalid,
            r matches Ok(y) ==> y == self.enc(count(op, w, self.dec(x as int))) && self.valid(
                w,
                y as int,
            ),
    {
        match self.decode(w, x) {
            Err(t) => Err(t),
            Ok(n) => {
                proof {
                    vstd::std_specs::bits::axiom_u32_leading_zeros(n as u32);
                    vstd::std_specs::bits::axiom_u64_leading_zeros(n);
                    vstd::std_specs::bits::axiom_u32_trailing_zeros(n as u32);
                    vstd::std_specs::bits::axiom_u64_trailing_zeros(n);
                }
                let c: u32 = match op {
                    Count::Clz => match w {
                        Width::W32 => (n as u32).leading_zeros(),
                        Width::W64 => n.leading_zeros(),
                    },
                    Count::Ctz => match w {
                        Width::W32 => (n as u32).trailing_zeros(),
                        Width::W64 => n.trailing_zeros(),
                    },
                    Count::Popcnt => count_ones(n),
                };
                Ok(self.encode(w, c as u64))
            },
        }
    }
}

} // verus!
