//! The integer operations on encoded values.
//!
//! Every operation says what it gives on any two words of the canonical range, and that on
//! codewords it gives the encoding of what the plain operation gives on the plain values: the
//! results do not depend on the constant.
pub mod arithmetic;
pub mod bits;
pub mod bitwise;
pub mod convert;
pub mod relation;
pub mod shift;
