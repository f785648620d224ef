//! AN-encoding of WebAssembly integers.
//!
//! The codeword of a value is a fixed constant times the value. Computing on codewords leaves
//! every result a multiple of the constant, so that a flipped bit shows as a remainder. The
//! modules say what that takes from end to end:
//!
//! - the encoding itself and its configuration: [`codec`], [`config`], [`policy`], [`traps`];
//! - the arithmetic under it: [`arith`], [`division`], [`bytes`], [`wasm`], [`lut`];
//! - the operations on encoded values: [`ops`];
//! - memory with its encoded shadow, tables, globals and the host's boundary: [`memory`],
//!   [`dirty`], [`guest_memory`], [`table`], [`boundary`], [`component`], [`hostcall`];
//! - the code that is emitted for encoded values: [`clif`], [`emit`], [`translation`],
//!   [`immediates`];
//! - the text of host bindings: [`linker`], [`text`];
//! - two small guest programs: [`samples`];
//! - what all of these promise, stated of their results: [`laws`].
pub mod arith;
pub mod boundary;
pub mod bytes;
pub mod clif;
pub mod codec;
pub mod component;
pub mod config;
pub mod dirty;
pub mod division;
pub mod emit;
pub mod guest_memory;
pub mod hostcall;
pub mod immediates;
pub mod laws;
pub mod linker;
pub mod lut;
pub mod memory;
pub mod ops;
pub mod policy;
pub mod samples;
pub mod table;
pub mod text;
pub mod translation;
pub mod traps;
pub mod wasm;
