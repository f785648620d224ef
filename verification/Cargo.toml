[package]
name = "an_encoding"
version = "0.1.0"
edition = "2021"
publish = false

[dependencies]
cranelift-codegen = "=0.130.2"
cranelift-frontend = "=0.130.2"
wasmparser = "=0.249.0"
proc-macro2 = "=1.0.107"
quote = "=1.0.47"
syn = { version = "=2.0.119", features = ["full"] }
witx = "=0.9.1"

[dev-dependencies]
cranelift-interpreter = "=0.130.2"
