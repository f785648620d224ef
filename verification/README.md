# an_encoding

AN-encoding for WebAssembly: every integer of the guest is kept as the product with a fixed
constant, so that a flipped bit shows as a remainder. The library holds the encoding, the
operations on encoded values, memory with its encoded shadow, the boundary with the host, the
code that a compiler emits for encoded values, and the text of host bindings. It is verified with
Verus against contracts over plain mathematical values. Trusted, not proved, are the contracts on
the outside functions that it calls; the comment above each says what is claimed of the function.

- `src/`: the verified library. `src/lib.rs` says which module is for what. The trusted calls
  into Cranelift stand in `src/clif/builder.rs`, those on float immediates in
  `src/immediates.rs`, and one on slices in `src/component.rs`.
- `app/`: conversions from parsed modules and interface descriptions, and errors that print.
- `tests/`: tests, among them runs of the emitted code in Cranelift's interpreter.
