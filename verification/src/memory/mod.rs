//! Linear memory with its encoded shadow.
//!
//! Beside the raw bytes a memory holds one slot for every four of them: the constant times their
//! little-endian value. Every access that reads the bytes compares the slots that it touches;
//! every access that writes them brings the slots along.
pub mod access;
pub mod bulk;
pub mod host;
pub mod resync;
pub mod state;
