//! The texts of errors.
use super::linker::{lemma_with_number, numeral};
use crate::component::{HostcallFuelExhausted, LowerError};
use crate::config::ConfigError;
use crate::hostcall::HostcallError;
use crate::lut::AnLutError;
use crate::memory::host::MemoryAccessError;
use crate::policy::Refusal;
use crate::traps::Trap;
use vstd::prelude::*;

verus! {

/// The refusal of a constant names it in decimal.
pub proof fn law_constant(a: u64, text: String)
    requires
        call_ensures(AnLutError::message, (AnLutError::InvalidA(a),), text),
    ensures
        text@ == "invalid AN constant "@ + numeral(a as nat) + ": require 1 <= A < 2^31"@,
{
    lemma_with_number("invalid AN constant "@, a as nat);
}

/// The refusals of a configuration.
pub proof fn law_config(a: u64, constant: &'static str, winch: &'static str, masked: &'static str)
    requires
        call_ensures(ConfigError::message, (ConfigError::InvalidConstant(a),), constant),
        call_ensures(ConfigError::message, (ConfigError::WinchStrategy,), winch),
        call_ensures(ConfigError::message, (ConfigError::MaskedFeature,), masked),
    ensures
        constant@ == "AN-encoding requires 1 <= A < 2^24"@,
        winch@ == "AN-encoding is not supported by Winch"@,
        masked@ == "a wasm feature conflicts with AN-encoding"@,
{
}

/// The refusals of a module.
pub proof fn law_refusals(e: Refusal, text: &'static str)
    requires
        call_ensures(Refusal::message, (e,), text),
    ensures
        e is FloatingPoint ==> text@ == "AN-encoding does not support floating-point"@,
        e is Simd ==> text@ == "AN-encoding does not support SIMD"@,
        e is ReferenceType ==> text@
            == "AN-encoding does not support reference types as values"@,
        e is SharedMemory ==> text@ == "AN-encoding does not support shared memories"@,
        e is Atomic ==> text@ == "AN-encoding does not support atomic operators"@,
        e is Gc ==> text@ == "AN-encoding does not support garbage-collected types"@,
        e is Exceptions ==> text@ == "AN-encoding does not support exceptions"@,
{
}

/// The errors of a host call.
pub proof fn law_hostcall(missing: &'static str, mismatch: &'static str)
    requires
        call_ensures(HostcallError::message, (HostcallError::MissingMemory,), missing),
        call_ensures(HostcallError::message, (HostcallError::AnMismatch,), mismatch),
    ensures
        missing@ == "missing required memory export"@,
        mismatch@ == "AN-encoding memory mismatch at hostcall write resync"@,
{
}

/// The errors of the host's accesses.
pub proof fn law_access(bounds: &'static str, mismatch: &'static str)
    requires
        call_ensures(MemoryAccessError::message, (MemoryAccessError::OutOfBounds,), bounds),
        call_ensures(MemoryAccessError::message, (MemoryAccessError::AnMismatch,), mismatch),
    ensures
        bounds@ == "out of bounds memory access"@,
        mismatch@ == "AN-encoding memory mismatch"@,
{
}

/// The errors of lowering.
pub proof fn law_lowering(
    trap: Trap,
    mismatch: &'static str,
    conversion: &'static str,
    alignment: &'static str,
    bounds: &'static str,
)
    requires
        call_ensures(LowerError::message, (LowerError::Trap(trap),), mismatch),
        call_ensures(LowerError::message, (LowerError::IntConversion,), conversion),
        call_ensures(LowerError::message, (LowerError::ReallocNotAligned,), alignment),
        call_ensures(LowerError::message, (LowerError::ReallocBeyondMemory,), bounds),
    ensures
        mismatch@ == "AN-encoding memory mismatch"@,
        conversion@ == "out of range integral type conversion attempted"@,
        alignment@ == "realloc return: result not aligned"@,
        bounds@ == "realloc return: beyond end of memory"@,
{
}

/// The error of an exhausted budget.
pub proof fn law_fuel(text: &'static str)
    requires
        call_ensures(HostcallFuelExhausted::message, (HostcallFuelExhausted,), text),
    ensures
        text@
            == "too much data is being copied between the host and the guest: fuel allocated for hostcalls has been exhausted"@,
{
}

} // verus!
