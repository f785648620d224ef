//! How a call of a host function of the system interface handles the guest's memory.
use crate::bytes::{le, lemma_le_same, size_of_bytes, write_le};
use crate::dirty::ByteRange;
use crate::guest_memory::GuestMemory;
use crate::memory::resync::{resyncable, resynced};
use crate::memory::state::AnMemory;
use vstd::prelude::*;

verus! {

/// Why a host call failed beside its own result.
#[derive(Clone, Copy, Debug, PartialEq, Eq, Structural)]
pub enum HostcallError {
    /// The caller exports no memory.
    MissingMemory,
    /// A byte beside what the host wrote is not the one that the shadow holds.
    AnMismatch,
}

impl HostcallError {
    /// The text of the error.
    pub open spec fn text(self) -> Seq<char> {
        match self {
            HostcallError::MissingMemory => "missing required memory export"@,
            HostcallError::AnMismatch => "AN-encoding memory mismatch at hostcall write resync"@,
        }
    }

    /// The text of the error.
    pub fn message(self) -> (r: &'static str)
        ensures
            r@ == self.text(),
    {
        match self {
            HostcallError::MissingMemory => "missing required memory export",
            HostcallError::AnMismatch => "AN-encoding memory mismatch at hostcall write resync",
        }
    }
}

/// What a caller exports as its memory.
#[derive(Clone, Copy, Debug, PartialEq, Eq, Structural)]
pub enum MemoryExport {
    /// A memory, and whether it has a shadow.
    Memory { shadow: bool },
    SharedMemory,
    /// Nothing, or something else.
    Missing,
}

/// The kinds of view that a call can work on.
#[derive(Clone, Copy, Debug, PartialEq, Eq, Structural)]
pub enum ViewKind {
    /// Reads are compared, writes are recorded.
    Verified,
    Unshared,
    Shared,
}

/// The view that a call works on. The system interface needs a memory.
pub fn view_kind(export: MemoryExport) -> (r: Result<ViewKind, HostcallError>)
    ensures
        r == match export {
            MemoryExport::Memory { shadow: true } => Ok::<ViewKind, HostcallError>(
                ViewKind::Verified,
            ),
            MemoryExport::Memory { shadow: false } => Ok(ViewKind::Unshared),
            MemoryExport::SharedMemory => Ok(ViewKind::Shared),
            MemoryExport::Missing => Err(HostcallError::MissingMemory),
        },
{
    match export {
        MemoryExport::Memory { shadow } => if shadow {
            Ok(ViewKind::Verified)
        } else {
            Ok(ViewKind::Unshared)
        },
        MemoryExport::SharedMemory => Ok(ViewKind::Shared),
        MemoryExport::Missing => Err(HostcallError::MissingMemory),
    }
}

/// The bytes of a shadow, eight for each slot.
fn shadow_bytes(shadow: &Vec<u64>) -> (bytes: Vec<u8>)
    requires
        8 * shadow@.len() <= usize::MAX,
    ensures
        bytes@.len() == 8 * shadow@.len(),
        forall|i: int| 0 <= i < shadow@.len() ==> le(bytes@, 8 * i, 8) == #[trigger] shadow@[i],
{
    let total: usize = shadow.len();
    let mut bytes: Vec<u8> = Vec::new();
    let mut k: usize = 0;
    while k < 8 * total
        invariant
            total == shadow@.len(),
            8 * total <= usize::MAX,
            k <= 8 * total,
            bytes@.len() == k,
        decreases 8 * total - k,
    {
        bytes.push(0);
        k = k + 1;
    }
    let mut i: usize = 0;
    while i < total
        invariant
            total == shadow@.len(),
            8 * total <= usize::MAX,
            i <= total,
            bytes@.len() == 8 * total,
            forall|j: int| 0 <= j < i ==> le(bytes@, 8 * j, 8) == #[trigger] shadow@[j],
        decreases total - i,
    {
        let ghost before = bytes@;
        write_le(&mut bytes, 8 * i, shadow[i], 8);
        proof {
            let v = shadow@[i as int] as int;
            crate::bytes::lemma_read_back(before, 8 * i, v, 8);
            crate::bytes::lemma_sizes();
            vstd::arithmetic::div_mod::lemma_small_mod(v as nat, size_of_bytes(8) as nat);
            assert forall|j: int| 0 <= j < i + 1 implies le(bytes@, 8 * j, 8)
                == #[trigger] shadow@[j] by {
                if j < i {
                    lemma_le_same(bytes@, before, 8 * j, 8);
                }
            }
        }
        i = i + 1;
    }
    bytes
}

/// The view for a call: with encoding one that compares what is read with the shadow and records
/// what is written, without encoding a plain one. The bytes move into the view.
pub fn begin_hostcall(memory: &mut AnMemory) -> (view: GuestMemory)
    requires
        old(memory).wf(),
        2 * old(memory).raw@.len() <= usize::MAX,
    ensures
        view.wf(),
        view.bytes == old(memory).raw,
        view.dirty@.len() == 0,
        view.recording == old(memory).an_encoding,
        old(memory).an_encoding <==> view.shadow is Some,
        view.shadow matches Some(s) ==> s.a == old(memory).codec.a && s.bytes@.len() == 8 * old(
            memory,
        ).shadow@.len() && forall|i: int|
            0 <= i < old(memory).shadow@.len() ==> le(s.bytes@, 8 * i, 8) == #[trigger] old(
                memory,
            ).shadow@[i],
        final(memory).same_kind(*old(memory)),
        final(memory).whole_dirty == old(memory).whole_dirty,
        final(memory).shadow == old(memory).shadow,
{
    let mut raw: Vec<u8> = Vec::new();
    std::mem::swap(&mut raw, &mut memory.raw);
    if memory.an_encoding {
        let bytes: Vec<u8> = shadow_bytes(&memory.shadow);
        GuestMemory::unshared_an_verified(raw, bytes, memory.codec.a)
    } else {
        GuestMemory::unshared(raw)
    }
}

/// Ends a call: the bytes move back, and the slots of everything that the host wrote are encoded
/// anew. This is done whether the call succeeded or not, as writes may have come before a
/// failure.
pub fn end_hostcall(memory: &mut AnMemory, view: GuestMemory) -> (r: Result<(), HostcallError>)
    requires
        old(memory).codec.wf(),
        view.wf(),
        view.bytes@.len() % 0x1_0000 == 0,
        view.bytes@.len() <= 0x1_0000 * 0x1_0000,
        old(memory).an_encoding ==> 4 * old(memory).shadow@.len() == view.bytes@.len(),
        !old(memory).an_encoding ==> old(memory).codec.a == 1 && old(memory).shadow@.len() == 0,
    ensures
        final(memory).wf(),
        final(memory).same_kind(*old(memory)),
        final(memory).whole_dirty == old(memory).whole_dirty,
        final(memory).raw == view.bytes,
        ({
            let (c, raw, shadow) = (old(memory).codec, view.bytes@, old(memory).shadow@);
            let ok = !old(memory).an_encoding || resyncable(c, raw, shadow, view.dirty@);
            &&& r == if ok {
                Ok::<(), HostcallError>(())
            } else {
                Err(HostcallError::AnMismatch)
            }
            &&& final(memory).shadow@ == if ok && old(memory).an_encoding {
                resynced(c, raw, shadow, view.dirty@)
            } else {
                shadow
            }
        }),
{
    let mut view: GuestMemory = view;
    let dirty: Vec<ByteRange> = view.an_take_dirty();
    memory.raw = view.bytes;
    if memory.resync_ranges(&dirty) {
        Ok(())
    } else {
        Err(HostcallError::AnMismatch)
    }
}

} // verus!
