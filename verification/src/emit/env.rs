//! What the emitters are told of the module and of the engine that it is compiled for.
use vstd::prelude::*;

verus! {

/// The engine's encoding settings.
#[derive(Clone, Copy, Debug)]
pub struct Tunables {
    pub an_encoding: bool,
    /// The encoding constant `A`.
    pub an_constant: u64,
    /// An offset added to every value that is about to be decoded at a conversion; zero outside
    /// of fault-injection runs.
    pub an_inject_conversion_fault: u64,
}

/// Where the bases of the three bitwise tables stand in the VM context.
#[derive(Clone, Copy, Debug)]
pub struct TableOffsets {
    pub an_and_table: u8,
    pub an_or_table: u8,
    pub an_xor_table: u8,
}

/// Where the shadow base of a memory is found.
#[derive(Clone, Copy, Debug)]
pub enum MemoryOffsets {
    /// The memory is the instance's own: the offset of its slot in the VM context.
    Defined { an_enc_memory_base: u32 },
    /// The memory is imported: the offset of the import in the VM context, and within the import
    /// the offset of the pointer to the owner's slot.
    Imported { vmmemory_import: u32, an_enc_base_slot: u8 },
}

/// The environment of the function that is being compiled.
pub struct FuncEnvironment {
    pub tunables: Tunables,
    /// The number of the global value that is the VM context pointer.
    pub vmctx: u32,
    pub tables: TableOffsets,
    /// The memories of the module, by index.
    pub memories: Vec<MemoryOffsets>,
}

} // verus!
