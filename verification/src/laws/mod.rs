//! What the operations promise, stated of their results.
//!
//! Each law takes the inputs of one call or of several and what the calls gave, and says how
//! these are related: over plain numbers and bytes, the constant, and what a second call gives.
pub mod bulk;
pub mod bytes;
pub mod component;
pub mod dirty;
pub mod guest;
pub mod linker;
pub mod machine;
pub mod memory;
pub mod messages;
pub mod ops;
pub mod resync;
pub mod samples;
pub mod setup;
pub mod shadow;
pub mod tables;
pub mod valid;
pub mod words;
