//! Code for AN-encoded operations.
pub mod bitwise;
pub mod codeword;
pub mod env;
pub mod memory;
pub mod shift;
pub mod wide;
