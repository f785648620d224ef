//! Code generation through Cranelift: the model of emitted code and the calls that emit it.
pub mod builder;
pub mod machine;
