//! The traps that encoded code raises.
use vstd::prelude::*;

verus! {

/// A shadow slot does not match the bytes that it mirrors.
pub const TRAP_AN_MEMORY_MISMATCH: u8 = 48;

/// A word that is about to be decoded is not a multiple of the encoding constant.
pub const TRAP_AN_CODEWORD_INVALID: u8 = 49;

/// The product of two encoded 64-bit values does not fit in 128 bits.
pub const TRAP_AN_I64_WIDEN_OVERFLOW: u8 = 50;

/// Why execution stopped.
#[derive(Clone, Copy, Debug, PartialEq, Eq, Structural)]
pub enum Trap {
    /// A shadow slot does not match the bytes that it mirrors.
    AnMemoryMismatch,
    /// A word that is about to be decoded is not a multiple of the encoding constant.
    AnCodewordInvalid,
    /// The product of two encoded 64-bit values does not fit in 128 bits.
    AnI64WidenOverflow,
    IntegerDivisionByZero,
    IntegerOverflow,
    MemoryOutOfBounds,
    TableOutOfBounds,
    IndirectCallToNull,
    BadSignature,
}

impl Trap {
    /// The number of a trap that only encoded code raises.
    pub open spec fn number(self) -> Option<u8> {
        match self {
            Trap::AnMemoryMismatch => Some(TRAP_AN_MEMORY_MISMATCH),
            Trap::AnCodewordInvalid => Some(TRAP_AN_CODEWORD_INVALID),
            Trap::AnI64WidenOverflow => Some(TRAP_AN_I64_WIDEN_OVERFLOW),
            _ => None,
        }
    }

    /// The number under which the embedding sees a trap that only encoded code raises.
    pub fn code(self) -> (r: Option<u8>)
        ensures
            r == self.number(),
    {
        match self {
            Trap::AnMemoryMismatch => Some(TRAP_AN_MEMORY_MISMATCH),
            Trap::AnCodewordInvalid => Some(TRAP_AN_CODEWORD_INVALID),
            Trap::AnI64WidenOverflow => Some(TRAP_AN_I64_WIDEN_OVERFLOW),
            _ => None,
        }
    }
}

} // verus!
