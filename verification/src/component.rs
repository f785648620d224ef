//! The contexts in which values are lowered into and lifted out of a component's memory.
use crate::bytes::copy_bytes;
use crate::dirty::{recorded, ByteRange, DirtyRanges};
use crate::memory::resync::{resyncable, resynced};
use crate::memory::state::AnMemory;
use crate::traps::Trap;
use vstd::prelude::*;

verus! {

/// Why lowering failed.
#[derive(Clone, Copy, Debug, PartialEq, Eq, Structural)]
pub enum LowerError {
    /// A byte beside what was written is not the one that the shadow holds.
    Trap(Trap),
    /// A size or an address does not fit in 32 bits.
    IntConversion,
    /// The allocation is not aligned as asked for.
    ReallocNotAligned,
    /// The allocation does not lie within memory.
    ReallocBeyondMemory,
}

impl LowerError {
    /// The text of the error.
    pub open spec fn text(self) -> Seq<char> {
        match self {
            LowerError::Trap(_) => "AN-encoding memory mismatch"@,
            LowerError::IntConversion => "out of range integral type conversion attempted"@,
            LowerError::ReallocNotAligned => "realloc return: result not aligned"@,
            LowerError::ReallocBeyondMemory => "realloc return: beyond end of memory"@,
        }
    }

    /// The text of the error.
    pub fn message(self) -> (r: &'static str)
        ensures
            r@ == self.text(),
    {
        match self {
            LowerError::Trap(_) => "AN-encoding memory mismatch",
            LowerError::IntConversion => "out of range integral type conversion attempted",
            LowerError::ReallocNotAligned => "realloc return: result not aligned",
            LowerError::ReallocBeyondMemory => "realloc return: beyond end of memory",
        }
    }
}

/// The arguments of a call of the guest's allocation function.
#[derive(Clone, Copy, Debug, PartialEq, Eq, Structural)]
pub struct ReallocCall {
    pub old: u32,
    pub old_size: u32,
    pub old_align: u32,
    pub new_size: u32,
}

/// Bytes in which a range of `len` bytes at `offset` has been replaced.
pub open spec fn spliced(raw: Seq<u8>, offset: int, len: int, data: Seq<u8>) -> Seq<u8> {
    raw.take(offset) + (data + raw.skip(offset + len))
}

/// `slice::first_chunk_mut`: the first `N` items of a slice, as an array for writing, where there
/// are so many. The items behind them stay.
pub assume_specification<E, const N: usize>[ <[E]>::first_chunk_mut::<N> ](
    slice: &mut [E],
) -> (r: Option<&mut [E; N]>)
    ensures
        match r {
            Some(chunk) => {
                &&& N <= old(slice)@.len()
                &&& chunk@ == old(slice)@.take(N as int)
                &&& final(slice)@ == final(chunk)@ + old(slice)@.skip(N as int)
            },
            None => N > old(slice)@.len() && final(slice)@ == old(slice)@,
        },
;

/// The context of lowering. The host's writes are recorded, and the shadow is brought along
/// before control re-enters the guest.
pub struct LowerContext {
    /// The memory that is lowered into, where the options name one.
    pub memory: Option<AnMemory>,
    /// Whether the guest's allocation function may be called.
    pub allow_realloc: bool,
    pub an_dirty: DirtyRanges,
}

impl LowerContext {
    /// The memory and the record are in order.
    pub open spec fn wf(self) -> bool {
        &&& self.an_dirty.wf()
        &&& self.memory matches Some(m) ==> m.wf()
    }

    /// Whether a range lies within the memory.
    pub open spec fn in_bounds(self, offset: int, len: int) -> bool {
        self.memory matches Some(m) && offset + len <= m.raw@.len()
    }

    /// The context in which the bytes of the memory are `raw` and a range has been recorded.
    pub open spec fn lent(
        self,
        after: LowerContext,
        raw: Seq<u8>,
        start: usize,
        len: usize,
    ) -> bool {
        let (m, t) = (self.memory->0, after.memory->0);
        &&& after.memory is Some
        &&& after.allow_realloc == self.allow_realloc
        &&& t.same_kind(m)
        &&& t.whole_dirty == m.whole_dirty
        &&& t.raw@ == raw
        &&& t.shadow == m.shadow
        &&& after.an_dirty@ == recorded(self.an_dirty@, start, len)
        &&& raw.len() == m.raw@.len() ==> after.wf()
    }

    /// The context after its record was used to bring the shadow along.
    pub open spec fn flushed(self, after: LowerContext, r: Result<(), Trap>) -> bool {
        let ranges = self.an_dirty@;
        &&& after.wf()
        &&& after.allow_realloc == self.allow_realloc
        &&& after.an_dirty@.len() == 0
        &&& match self.memory {
            None => after.memory is None && r is Ok,
            Some(m) => after.memory matches Some(t) && {
                let ok = ranges.len() == 0 || !m.an_encoding || resyncable(
                    m.codec,
                    m.raw@,
                    m.shadow@,
                    ranges,
                );
                &&& t.same_kind(m)
                &&& t.whole_dirty == m.whole_dirty
                &&& t.raw == m.raw
                &&& t.shadow@ == if ok && ranges.len() > 0 && m.an_encoding {
                    resynced(m.codec, m.raw@, m.shadow@, ranges)
                } else {
                    m.shadow@
                }
                &&& r == if ok {
                    Ok::<(), Trap>(())
                } else {
                    Err(Trap::AnMemoryMismatch)
                }
            },
        }
    }

    /// A context in which the guest's allocation function may be called.
    pub fn new(memory: Option<AnMemory>) -> (cx: LowerContext)
        requires
            memory matches Some(m) ==> m.wf(),
        ensures
            cx.wf(),
            cx.memory == memory,
            cx.allow_realloc,
            cx.an_dirty@.len() == 0,
    {
        LowerContext { memory, allow_realloc: true, an_dirty: DirtyRanges::new() }
    }

    /// A context for values that need no allocation.
    pub fn new_without_realloc(memory: Option<AnMemory>) -> (cx: LowerContext)
        requires
            memory matches Some(m) ==> m.wf(),
        ensures
            cx.wf(),
            cx.memory == memory,
            !cx.allow_realloc,
            cx.an_dirty@.len() == 0,
    {
        LowerContext { memory, allow_realloc: false, an_dirty: DirtyRanges::new() }
    }

    /// Records the write of `len` bytes at `offset`.
    fn an_record_write(&mut self, offset: usize, len: usize)
        requires
            old(self).wf(),
        ensures
            final(self).wf(),
            final(self).memory == old(self).memory,
            final(self).allow_realloc == old(self).allow_realloc,
            final(self).an_dirty@ == recorded(old(self).an_dirty@, offset, len),
    {
        self.an_dirty.record(offset, len);
    }

    /// The bytes of the memory, without a record.
    fn as_slice_mut_untracked(&mut self) -> (r: &mut [u8])
        requires
            old(self).wf(),
            old(self).memory is Some,
        ensures
            r@ == old(self).memory->0.raw@,
            final(self).memory is Some,
            final(self).allow_realloc == old(self).allow_realloc,
            final(self).an_dirty == old(self).an_dirty,
            final(self).memory->0.same_kind(old(self).memory->0),
            final(self).memory->0.whole_dirty == old(self).memory->0.whole_dirty,
            final(self).memory->0.shadow == old(self).memory->0.shadow,
            final(self).memory->0.raw@ == final(r)@,
    {
        self.memory.as_mut().unwrap().raw.as_mut_slice()
    }

    /// A view of the whole memory for writing. Anything may be written through it, so that the
    /// whole memory is recorded. A memory that may be borrowed so is as the host may read it: the
    /// encoding that follows hides no fault that was there before.
    pub fn as_slice_mut(&mut self) -> (r: &mut [u8])
        requires
            old(self).wf(),
            old(self).memory is Some,
            old(self).memory->0.readable(0, old(self).memory->0.raw@.len() as int),
        ensures
            r@ == old(self).memory->0.raw@,
            old(self).lent(*final(self), final(r)@, 0, usize::MAX),
    {
        self.an_record_write(0, usize::MAX);
        self.as_slice_mut_untracked()
    }

    /// A view of the whole memory for writing, as [`LowerContext::as_slice_mut`] gives it, after
    /// every slot has been compared. Where one does not mirror its bytes, that is a trap and
    /// nothing is recorded.
    pub fn try_as_slice_mut(&mut self) -> (r: Result<&mut [u8], Trap>)
        requires
            old(self).wf(),
            old(self).memory is Some,
        ensures
            r is Ok <==> old(self).memory->0.readable(0, old(self).memory->0.raw@.len() as int),
            match r {
                Ok(data) => {
                    &&& data@ == old(self).memory->0.raw@
                    &&& old(self).lent(*final(self), final(data)@, 0, usize::MAX)
                },
                Err(t) => t == Trap::AnMemoryMismatch && *final(self) == *old(self),
            },
    {
        let checked: bool = self.memory.as_ref().unwrap().try_data().is_ok();
        if !checked {
            return Err(Trap::AnMemoryMismatch);
        }
        Ok(self.as_slice_mut())
    }

    /// A view of a range for writing, which is recorded.
    pub fn slice_mut(&mut self, offset: usize, len: usize) -> (r: &mut [u8])
        requires
            old(self).wf(),
            old(self).in_bounds(offset as int, len as int),
        ensures
            r@ == old(self).memory->0.raw@.subrange(offset as int, offset + len),
            old(self).lent(
                *final(self),
                spliced(old(self).memory->0.raw@, offset as int, len as int, final(r)@),
                offset,
                len,
            ),
    {
        self.an_record_write(offset, len);
        let ghost raw = self.memory->0.raw@;
        let (head, rest) = self.as_slice_mut_untracked().split_at_mut(offset);
        assert(rest@ =~= raw.skip(offset as int) && head@ =~= raw.take(offset as int));
        let (r, tail) = rest.split_at_mut(len);
        assert(tail@ =~= raw.skip(offset + len));
        assert(r@ =~= raw.subrange(offset as int, offset + len));
        r
    }

    /// A view of an array for writing, at an offset that has been checked; it is recorded.
    pub fn get<const N: usize>(&mut self, offset: usize) -> (r: &mut [u8; N])
        requires
            old(self).wf(),
            old(self).in_bounds(offset as int, N as int),
        ensures
            r@ == old(self).memory->0.raw@.subrange(offset as int, offset + N),
            old(self).lent(
                *final(self),
                spliced(old(self).memory->0.raw@, offset as int, N as int, final(r)@),
                offset,
                N,
            ),
    {
        self.an_record_write(offset, N);
        let ghost raw = self.memory->0.raw@;
        let (head, rest) = self.as_slice_mut_untracked().split_at_mut(offset);
        assert(rest@ =~= raw.skip(offset as int) && head@ =~= raw.take(offset as int));
        assert(rest@.skip(N as int) =~= raw.skip(offset + N));
        assert(rest@.take(N as int) =~= raw.subrange(offset as int, offset + N));
        rest.first_chunk_mut().unwrap()
    }

    /// Brings the shadow along with everything that was recorded, and clears the record. The
    /// ranges are taken together: those that share a slot do not stand in each other's way, and
    /// nothing is encoded anew where a byte beside them differs from what the shadow holds.
    pub fn an_flush_dirty(&mut self) -> (r: Result<(), Trap>)
        requires
            old(self).wf(),
        ensures
            old(self).flushed(*final(self), r),
    {
        if self.an_dirty.is_empty() {
            return Ok(());
        }
        let ranges: Vec<ByteRange> = self.an_dirty.take();
        match self.memory.take() {
            None => Ok(()),
            Some(m) => {
                let mut memory = m;
                let ok: bool = memory.resync_ranges(&ranges);
                self.memory = Some(memory);
                if ok {
                    Ok(())
                } else {
                    Err(Trap::AnMemoryMismatch)
                }
            },
        }
    }

    /// The first half of an allocation: brings the shadow along, as control is about to enter
    /// the guest, and gives the arguments for the guest's allocation function.
    pub fn realloc(
        &mut self,
        old_ptr: usize,
        old_size: usize,
        old_align: u32,
        new_size: usize,
    ) -> (r: Result<ReallocCall, LowerError>)
        requires
            old(self).wf(),
            old(self).allow_realloc,
        ensures
            exists|f: Result<(), Trap>|
                #![trigger old(self).flushed(*final(self), f)]
                old(self).flushed(*final(self), f) && r == match f {
                    Err(t) => Err::<ReallocCall, LowerError>(LowerError::Trap(t)),
                    Ok(_) => if old_ptr > u32::MAX || old_size > u32::MAX || new_size > u32::MAX {
                        Err(LowerError::IntConversion)
                    } else {
                        Ok(
                            ReallocCall {
                                old: old_ptr as u32,
                                old_size: old_size as u32,
                                old_align,
                                new_size: new_size as u32,
                            },
                        )
                    },
                },
    {
        let ghost before = *self;
        let f: Result<(), Trap> = self.an_flush_dirty();
        assert(before.flushed(*self, f));
        match f {
            Err(t) => {
                return Err(LowerError::Trap(t));
            },
            Ok(_) => {},
        }
        if old_ptr > 0xffff_ffff || old_size > 0xffff_ffff || new_size > 0xffff_ffff {
            return Err(LowerError::IntConversion);
        }
        Ok(
            ReallocCall {
                old: old_ptr as u32,
                old_size: old_size as u32,
                old_align,
                new_size: new_size as u32,
            },
        )
    }

    /// The second half of an allocation: checks what the guest's allocation function returned.
    pub fn realloc_result(&self, result: u32, old_align: u32, new_size: usize) -> (r: Result<
        usize,
        LowerError,
    >)
        requires
            self.wf(),
            self.memory is Some,
            old_align > 0,
        ensures
            r == if result % old_align != 0 {
                Err::<usize, LowerError>(LowerError::ReallocNotAligned)
            } else if !self.in_bounds(result as int, new_size as int) {
                Err(LowerError::ReallocBeyondMemory)
            } else {
                Ok(result as usize)
            },
    {
        if result % old_align != 0 {
            return Err(LowerError::ReallocNotAligned);
        }
        match &self.memory {
            None => Err(LowerError::ReallocBeyondMemory),
            Some(m) => {
                let total: usize = m.raw.len();
                if result as u128 + new_size as u128 > total as u128 {
                    Err(LowerError::ReallocBeyondMemory)
                } else {
                    Ok(result as usize)
                }
            },
        }
    }

    /// How a borrow is lowered, given whether the resource type belongs to the instance that is
    /// lowered into.
    pub fn guest_resource_lower_borrow(&self, owned_by_own_instance: bool, rep: u32) -> (r:
        BorrowLowering)
        ensures
            r == if owned_by_own_instance {
                BorrowLowering::Raw(rep)
            } else {
                BorrowLowering::Entry
            },
    {
        if owned_by_own_instance {
            BorrowLowering::Raw(rep)
        } else {
            BorrowLowering::Entry
        }
    }
}

/// What a lowered borrow of a resource becomes.
#[derive(Clone, Copy, Debug, PartialEq, Eq, Structural)]
pub enum BorrowLowering {
    /// The representation itself: the resource belongs to the instance that is lowered into.
    Raw(u32),
    /// An index into the table, under which the borrow is kept track of.
    Entry,
}

/// More data is to be copied than the budget of the host call allows.
#[derive(Clone, Copy, Debug, PartialEq, Eq, Structural)]
pub struct HostcallFuelExhausted;

impl HostcallFuelExhausted {
    /// The text of the error.
    pub fn message(self) -> (r: &'static str)
        ensures
            r@
                == "too much data is being copied between the host and the guest: fuel allocated for hostcalls has been exhausted"@,
    {
        "too much data is being copied between the host and the guest: fuel allocated for hostcalls has been exhausted"
    }
}

/// The context of lifting.
pub struct LiftContext<'a> {
    pub memory: &'a AnMemory,
    /// How many bytes the host may still copy on behalf of the guest.
    pub hostcall_fuel: usize,
}

impl<'a> LiftContext<'a> {
    /// A context with a budget.
    pub fn new(memory: &'a AnMemory, hostcall_fuel: usize) -> (cx: LiftContext<'a>)
        ensures
            cx.memory == memory,
            cx.hostcall_fuel == hostcall_fuel,
    {
        LiftContext { memory, hostcall_fuel }
    }

    /// The bytes of the memory, not compared.
    pub fn memory(&self) -> (r: &Vec<u8>)
        ensures
            *r == self.memory.raw,
    {
        &self.memory.raw
    }

    /// The bytes of a range that is lifted; the slots of the range are compared.
    pub fn memory_checked(&self, offset: usize, len: usize) -> (r: Result<Vec<u8>, Trap>)
        requires
            self.memory.wf(),
        ensures
            if offset + len > self.memory.raw@.len() {
                r == Err::<Vec<u8>, Trap>(Trap::MemoryOutOfBounds)
            } else if self.memory.an_encoding && !self.memory.range_ok(offset as int, len as int) {
                r == Err::<Vec<u8>, Trap>(Trap::AnMemoryMismatch)
            } else {
                r is Ok && r->Ok_0@ == self.memory.raw@.subrange(offset as int, offset + len)
            },
    {
        let total: usize = self.memory.raw.len();
        if offset > total || len > total - offset {
            return Err(Trap::MemoryOutOfBounds);
        }
        if self.memory.an_encoding && !self.memory.range_consistent(offset, len) {
            return Err(Trap::AnMemoryMismatch);
        }
        Ok(copy_bytes(&self.memory.raw, offset, len))
    }

    /// Takes `amt` bytes from the budget, or fails and leaves it.
    pub fn consume_fuel(&mut self, amt: usize) -> (r: Result<(), HostcallFuelExhausted>)
        ensures
            final(self).memory == old(self).memory,
            r is Ok <==> amt <= old(self).hostcall_fuel,
            final(self).hostcall_fuel == if r is Ok {
                (old(self).hostcall_fuel - amt) as usize
            } else {
                old(self).hostcall_fuel
            },
    {
        if amt > self.hostcall_fuel {
            return Err(HostcallFuelExhausted);
        }
        self.hostcall_fuel = self.hostcall_fuel - amt;
        Ok(())
    }

    /// Takes the bytes of `len` items of `size` bytes from the budget, or fails and leaves it.
    pub fn consume_fuel_array(&mut self, len: usize, size: usize) -> (r: Result<
        (),
        HostcallFuelExhausted,
    >)
        ensures
            final(self).memory == old(self).memory,
            r is Ok <==> len * size <= old(self).hostcall_fuel,
            final(self).hostcall_fuel == if r is Ok {
                (old(self).hostcall_fuel - len * size) as usize
            } else {
                old(self).hostcall_fuel
            },
    {
        match len.checked_mul(size) {
            Some(bytes) => self.consume_fuel(bytes),
            None => Err(HostcallFuelExhausted),
        }
    }
}

} // verus!
