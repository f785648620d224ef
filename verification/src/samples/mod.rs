//! Small guest programs.
pub mod fib;
pub mod structs;
