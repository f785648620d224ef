//! The meaning of the integer operations on plain values.
//!
//! A value of either width is taken as an unsigned number; the signed operations convert.
use vstd::arithmetic::power2::pow2;
use vstd::prelude::*;
use vstd::std_specs::bits::{
    u32_leading_zeros, u32_trailing_zeros, u64_leading_zeros, u64_trailing_zeros,
};

verus! {

/// The two integer types.
#[derive(Clone, Copy, Debug, PartialEq, Eq, Structural)]
pub enum Width {
    W32,
    W64,
}

impl Width {
    /// The number of bits.
    pub open spec fn bits(self) -> nat {
        match self {
            Width::W32 => 32,
            Width::W64 => 64,
        }
    }

    /// The number of values.
    pub open spec fn modulus(self) -> int {
        match self {
            Width::W32 => 0x1_0000_0000,
            Width::W64 => 0x1_0000_0000_0000_0000,
        }
    }

    /// The least number that is negative as a signed value.
    pub open spec fn half(self) -> int {
        match self {
            Width::W32 => 0x8000_0000,
            Width::W64 => 0x8000_0000_0000_0000,
        }
    }

    /// Whether a number is a value of this width.
    pub open spec fn has(self, n: int) -> bool {
        0 <= n < self.modulus()
    }

    /// A number as a signed value.
    pub open spec fn signed(self, n: int) -> int {
        if n >= self.half() {
            n - self.modulus()
        } else {
            n
        }
    }

    /// The magnitude of a number as a signed value.
    pub open spec fn magnitude(self, n: int) -> int {
        if n >= self.half() {
            self.modulus() - n
        } else {
            n
        }
    }

    /// A signed value, or any other integer, reduced to a number of this width.
    pub open spec fn reduce(self, v: int) -> int {
        v % self.modulus()
    }
}

/// Division that truncates towards zero.
pub open spec fn truncated_div(x: int, y: int) -> int {
    let q = (if x < 0 {
        -x
    } else {
        x
    }) / (if y < 0 {
        -y
    } else {
        y
    });
    if (x < 0) != (y < 0) {
        -q
    } else {
        q
    }
}

/// The remainder of truncated division; it has the sign of the dividend.
pub open spec fn truncated_rem(x: int, y: int) -> int {
    x - truncated_div(x, y) * y
}

/// The comparisons.
#[derive(Clone, Copy, Debug, PartialEq, Eq, Structural)]
pub enum Relation {
    Eq,
    Ne,
    LtU,
    LeU,
    GtU,
    GeU,
    LtS,
    LeS,
    GtS,
    GeS,
}

impl Relation {
    /// Whether the comparison is of signed values.
    pub open spec fn is_signed(self) -> bool {
        self is LtS || self is LeS || self is GtS || self is GeS
    }

    /// The comparison of two integers.
    pub open spec fn holds(self, x: int, y: int) -> bool {
        match self {
            Relation::Eq => x == y,
            Relation::Ne => x != y,
            Relation::LtU | Relation::LtS => x < y,
            Relation::LeU | Relation::LeS => x <= y,
            Relation::GtU | Relation::GtS => x > y,
            Relation::GeU | Relation::GeS => x >= y,
        }
    }

    /// The comparison of two values of a width.
    pub open spec fn compares(self, w: Width, n: int, m: int) -> bool {
        if self.is_signed() {
            self.holds(w.signed(n), w.signed(m))
        } else {
            self.holds(n, m)
        }
    }
}

/// The quotient of two values as signed values.
pub open spec fn div_s(w: Width, n: int, m: int) -> int {
    w.reduce(truncated_div(w.signed(n), w.signed(m)))
}

/// The remainder of two values as signed values.
pub open spec fn rem_s(w: Width, n: int, m: int) -> int {
    w.reduce(truncated_rem(w.signed(n), w.signed(m)))
}

/// The value shifted left.
pub open spec fn shl(w: Width, n: int, k: nat) -> int {
    w.reduce(n * pow2(k))
}

/// The value shifted right.
pub open spec fn shr_u(n: int, k: nat) -> int {
    n / pow2(k) as int
}

/// The signed value shifted right.
pub open spec fn shr_s(w: Width, n: int, k: nat) -> int {
    w.reduce(w.signed(n) / pow2(k) as int)
}

/// The value rotated left by less than its width.
pub open spec fn rotl(w: Width, n: int, k: nat) -> int {
    shl(w, n, k) + shr_u(n, (w.bits() - k) as nat)
}

/// The value rotated right by less than its width.
pub open spec fn rotr(w: Width, n: int, k: nat) -> int {
    shr_u(n, k) + shl(w, n, (w.bits() - k) as nat)
}

/// The low bits of a value, sign-extended.
pub open spec fn extend_s(w: Width, bits: nat, n: int) -> int {
    let low = n % pow2(bits) as int;
    if 2 * low >= pow2(bits) {
        low + w.modulus() - pow2(bits)
    } else {
        low
    }
}

/// The number of ones in the binary form of a number.
pub open spec fn ones(n: nat) -> nat
    decreases n,
{
    if n == 0 {
        0
    } else {
        n % 2 + ones(n / 2)
    }
}

/// The operations that count bits.
#[derive(Clone, Copy, Debug, PartialEq, Eq, Structural)]
pub enum Count {
    Clz,
    Ctz,
    Popcnt,
}

/// What a counting operation gives.
pub open spec fn count(op: Count, w: Width, n: int) -> int {
    match (op, w) {
        (Count::Clz, Width::W32) => u32_leading_zeros(n as u32) as int,
        (Count::Clz, Width::W64) => u64_leading_zeros(n as u64),
        (Count::Ctz, Width::W32) => u32_trailing_zeros(n as u32) as int,
        (Count::Ctz, Width::W64) => u64_trailing_zeros(n as u64) as int,
        (Count::Popcnt, _) => ones(n as nat) as int,
    }
}

} // verus!
