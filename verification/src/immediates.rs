//! Floating-point immediates, which pass from the parser to the code generator bit by bit.
use cranelift_codegen::ir::immediates::{Ieee32, Ieee64};
use vstd::prelude::*;

verus! {

/// The parser's 32-bit immediate.
#[verifier::external_type_specification]
#[verifier::external_body]
pub struct ExParsed32(wasmparser::Ieee32);

/// The parser's 64-bit immediate.
#[verifier::external_type_specification]
#[verifier::external_body]
pub struct ExParsed64(wasmparser::Ieee64);

/// The code generator's 32-bit immediate.
#[verifier::external_type_specification]
#[verifier::external_body]
pub struct ExImmediate32(Ieee32);

/// The code generator's 64-bit immediate.
#[verifier::external_type_specification]
#[verifier::external_body]
pub struct ExImmediate64(Ieee64);

/// The bits of the parser's 32-bit immediate.
pub uninterp spec fn parsed32(x: wasmparser::Ieee32) -> u32;

/// The bits of the parser's 64-bit immediate.
pub uninterp spec fn parsed64(x: wasmparser::Ieee64) -> u64;

/// The bits of the code generator's 32-bit immediate.
pub uninterp spec fn immediate32(x: Ieee32) -> u32;

/// The bits of the code generator's 64-bit immediate.
pub uninterp spec fn immediate64(x: Ieee64) -> u64;

/// `wasmparser::Ieee32::bits`: the bits of the immediate.
pub assume_specification[ wasmparser::Ieee32::bits ](x: wasmparser::Ieee32) -> (r: u32)
    ensures
        r == parsed32(x),
;

/// `wasmparser::Ieee64::bits`: the bits of the immediate.
pub assume_specification[ wasmparser::Ieee64::bits ](x: wasmparser::Ieee64) -> (r: u64)
    ensures
        r == parsed64(x),
;

/// `Ieee32::with_bits`: the immediate with these bits.
pub assume_specification[ Ieee32::with_bits ](bits: u32) -> (r: Ieee32)
    ensures
        immediate32(r) == bits,
;

/// `Ieee64::with_bits`: the immediate with these bits.
pub assume_specification[ Ieee64::with_bits ](bits: u64) -> (r: Ieee64)
    ensures
        immediate64(r) == bits,
;

/// The immediate with the same bits.
pub fn f32_translation(x: wasmparser::Ieee32) -> (r: Ieee32)
    ensures
        immediate32(r) == parsed32(x),
{
    Ieee32::with_bits(x.bits())
}

/// The immediate with the same bits.
pub fn f64_translation(x: wasmparser::Ieee64) -> (r: Ieee64)
    ensures
        immediate64(r) == parsed64(x),
{
    Ieee64::with_bits(x.bits())
}

} // verus!
