//! The view of guest memory that a host call works on.
//!
//! A tracked view records every range that the host writes, for the shadow to be brought along
//! after the call. A verified view also holds the shadow as it was when the call began, and
//! compares every byte that the host reads with it; bytes that the same call has written are
//! left out, as the shadow does not know of them yet.
use crate::bytes::{
    byte_at, copy_bytes, le, overwritten, read_le, size_of_bytes, stored, write_bytes, write_le,
};
use crate::dirty::{covered, recorded, ByteRange, DirtyRanges};
use vstd::prelude::*;

verus! {

/// Why the host could not access guest memory.
#[derive(Clone, Copy, Debug, PartialEq, Eq, Structural)]
pub enum GuestError {
    PtrOutOfBounds,
    /// A byte is not the one that the shadow holds.
    AnMemoryMismatch,
}

/// The shadow that a view compares with: eight bytes for every four of the memory.
pub struct Shadow {
    pub bytes: Vec<u8>,
    pub a: u64,
}

/// A view of guest memory.
pub struct GuestMemory {
    pub bytes: Vec<u8>,
    pub recording: bool,
    pub shadow: Option<Shadow>,
    pub dirty: DirtyRanges,
}

/// The slot of a shadow that mirrors the byte at `x`.
pub open spec fn shadow_word(shadow: Seq<u8>, x: int) -> int {
    le(shadow, 8 * (x / 4), 8)
}

impl GuestMemory {
    /// The shadow of a view fits its memory.
    pub open spec fn wf(self) -> bool {
        &&& self.dirty.wf()
        &&& !self.recording ==> self.dirty@.len() == 0
        &&& self.shadow matches Some(s) ==> {
            &&& self.recording
            &&& s.a > 0
            &&& self.bytes@.len() % 4 == 0
            &&& s.bytes@.len() == 2 * self.bytes@.len()
        }
    }

    /// The byte at `x` is the one that the shadow holds, or the host has written it.
    pub open spec fn byte_ok(self, x: int) -> bool {
        match self.shadow {
            None => true,
            Some(s) => covered(self.dirty@, x) || {
                let e = shadow_word(s.bytes@, x);
                &&& e % s.a as int == 0
                &&& e / s.a as int <= 0xffff_ffff
                &&& self.bytes@[x] == byte_at(e / s.a as int, (x % 4) as nat)
            },
        }
    }

    /// Whether a range is within the memory.
    pub open spec fn in_bounds(self, off: int, len: int) -> bool {
        off + len <= self.bytes@.len()
    }

    /// What a read of a range comes to.
    pub open spec fn read_outcome(self, off: int, len: int) -> Option<GuestError> {
        if !self.in_bounds(off, len) {
            Some(GuestError::PtrOutOfBounds)
        } else if exists|x: int| off <= x < off + len && !#[trigger] self.byte_ok(x) {
            Some(GuestError::AnMemoryMismatch)
        } else {
            None
        }
    }

    /// Everything but the bytes and the record is the same.
    pub open spec fn same_kind(self, other: GuestMemory) -> bool {
        self.recording == other.recording && self.shadow == other.shadow && self.bytes@.len()
            == other.bytes@.len()
    }

    /// The record after a write of a range.
    pub open spec fn record_after(self, off: int, len: int) -> Seq<ByteRange> {
        if self.recording {
            recorded(self.dirty@, off as usize, len as usize)
        } else {
            self.dirty@
        }
    }

    /// A view that neither records nor compares.
    pub fn unshared(bytes: Vec<u8>) -> (m: GuestMemory)
        ensures
            m.wf(),
            m.bytes == bytes,
            !m.recording,
            m.shadow is None,
            m.dirty@.len() == 0,
    {
        GuestMemory { bytes, recording: false, shadow: None, dirty: DirtyRanges::new() }
    }

    /// A view that records the ranges that are written.
    pub fn unshared_an_tracked(bytes: Vec<u8>) -> (m: GuestMemory)
        ensures
            m.wf(),
            m.bytes == bytes,
            m.recording,
            m.shadow is None,
            m.dirty@.len() == 0,
    {
        GuestMemory { bytes, recording: true, shadow: None, dirty: DirtyRanges::new() }
    }

    /// A view that records the ranges that are written and compares the bytes that are read.
    pub fn unshared_an_verified(bytes: Vec<u8>, shadow: Vec<u8>, a: u64) -> (m: GuestMemory)
        requires
            a > 0,
            bytes@.len() % 4 == 0,
            shadow@.len() == 2 * bytes@.len(),
        ensures
            m.wf(),
            m.bytes == bytes,
            m.recording,
            m.shadow == Some(Shadow { bytes: shadow, a }),
            m.dirty@.len() == 0,
    {
        GuestMemory {
            bytes,
            recording: true,
            shadow: Some(Shadow { bytes: shadow, a }),
            dirty: DirtyRanges::new(),
        }
    }

    /// Whether the host has written the byte at `x`.
    fn is_dirty(&self, x: usize) -> (r: bool)
        ensures
            r == covered(self.dirty@, x as int),
    {
        let mut k: usize = 0;
        while k < self.dirty.ranges.len()
            invariant
                k <= self.dirty@.len(),
                forall|j: int| 0 <= j < k ==> !(#[trigger] self.dirty@[j]).has(x as int),
            decreases self.dirty@.len() - k,
        {
            let r: ByteRange = self.dirty.ranges[k];
            if r.start <= x && x < r.end {
                assert(self.dirty@[k as int].has(x as int));
                return true;
            }
            k = k + 1;
        }
        false
    }

    /// Whether the byte at `x` is the one that the shadow holds, or the host has written it.
    fn check_byte(&self, x: usize) -> (r: bool)
        requires
            self.wf(),
            x < self.bytes@.len(),
        ensures
            r == self.byte_ok(x as int),
    {
        match &self.shadow {
            None => true,
            Some(s) => {
                if self.is_dirty(x) {
                    return true;
                }
                let total: usize = s.bytes.len();
                let e: u64 = read_le(&s.bytes, 8 * (x / 4), 8);
                if e % s.a != 0 {
                    return false;
                }
                let w: u64 = e / s.a;
                if w > 0xffff_ffff {
                    return false;
                }
                proof {
                    reveal_with_fuel(byte_at, 5);
                    let v = w as int;
                    assert(byte_at(v, 0) == v % 0x100);
                    assert(byte_at(v, 1) == v / 0x100 % 0x100);
                    assert(byte_at(v, 2) == v / 0x100 / 0x100 % 0x100);
                    assert(byte_at(v, 3) == v / 0x100 / 0x100 / 0x100 % 0x100);
                }
                let p: usize = x % 4;
                let b: u64 = if p == 0 {
                    w % 0x100
                } else if p == 1 {
                    w / 0x100 % 0x100
                } else if p == 2 {
                    w / 0x100 / 0x100 % 0x100
                } else {
                    w / 0x100 / 0x100 / 0x100 % 0x100
                };
                self.bytes[x] as u64 == b
            },
        }
    }

    /// Checks a range that is about to be read.
    fn check_range(&self, off: u32, len: u32) -> (r: Result<(), GuestError>)
        requires
            self.wf(),
        ensures
            match r {
                Ok(_) => self.read_outcome(off as int, len as int) is None,
                Err(e) => self.read_outcome(off as int, len as int) == Some(e),
            },
    {
        let total: usize = self.bytes.len();
        let end: u64 = (off as u64) + (len as u64);
        if end > total as u64 {
            return Err(GuestError::PtrOutOfBounds);
        }
        let mut x: usize = off as usize;
        while x < end as usize
            invariant
                self.wf(),
                total == self.bytes@.len(),
                end == off + len,
                end <= total,
                off <= x <= end,
                forall|y: int| off <= y < x ==> #[trigger] self.byte_ok(y),
            decreases end - x,
        {
            if !self.check_byte(x) {
                assert(!self.byte_ok(x as int));
                return Err(GuestError::AnMemoryMismatch);
            }
            x = x + 1;
        }
        Ok(())
    }

    /// Reads a number of `n` bytes.
    pub fn read(&self, off: u32, n: u32) -> (r: Result<u64, GuestError>)
        requires
            self.wf(),
            n == 1 || n == 2 || n == 4 || n == 8,
        ensures
            match r {
                Ok(v) => self.read_outcome(off as int, n as int) is None && v == le(
                    self.bytes@,
                    off as int,
                    n as nat,
                ),
                Err(e) => self.read_outcome(off as int, n as int) == Some(e),
            },
    {
        match self.check_range(off, n) {
            Ok(_) => {
                let total: usize = self.bytes.len();
                Ok(read_le(&self.bytes, off as usize, n as usize))
            },
            Err(e) => Err(e),
        }
    }

    /// Reads a range.
    pub fn as_slice(&self, off: u32, len: u32) -> (r: Result<Vec<u8>, GuestError>)
        requires
            self.wf(),
        ensures
            match r {
                Ok(data) => self.read_outcome(off as int, len as int) is None && data@
                    == self.bytes@.subrange(off as int, off + len),
                Err(e) => self.read_outcome(off as int, len as int) == Some(e),
            },
    {
        match self.check_range(off, len) {
            Ok(_) => {
                let total: usize = self.bytes.len();
                Ok(copy_bytes(&self.bytes, off as usize, len as usize))
            },
            Err(e) => Err(e),
        }
    }

    /// Reads a range into a list of its own.
    pub fn to_vec(&self, off: u32, len: u32) -> (r: Result<Vec<u8>, GuestError>)
        requires
            self.wf(),
        ensures
            match r {
                Ok(data) => self.read_outcome(off as int, len as int) is None && data@
                    == self.bytes@.subrange(off as int, off + len),
                Err(e) => self.read_outcome(off as int, len as int) == Some(e),
            },
    {
        self.as_slice(off, len)
    }

    /// A view of a range for writing, which is recorded. A range out of bounds is not, and nothing
    /// is recorded.
    pub fn as_slice_mut(&mut self, off: u32, len: u32) -> (r: Result<&mut [u8], GuestError>)
        requires
            old(self).wf(),
        ensures
            r is Ok <==> old(self).in_bounds(off as int, len as int),
            match r {
                Ok(data) => {
                    &&& data@ == old(self).bytes@.subrange(off as int, off + len)
                    &&& final(self).bytes@ == old(self).bytes@.take(off as int) + (final(data)@
                        + old(self).bytes@.skip(off + len))
                    &&& final(self).recording == old(self).recording
                    &&& final(self).shadow == old(self).shadow
                    &&& final(self).dirty@ == old(self).record_after(off as int, len as int)
                    &&& final(data)@.len() == data@.len() ==> final(self).wf()
                    &&& final(data)@.len() == data@.len() ==> final(self).same_kind(*old(self))
                },
                Err(e) => e == GuestError::PtrOutOfBounds && *final(self) == *old(self),
            },
    {
        match self.claim(off, len) {
            Ok(_) => {
                let ghost bytes = self.bytes@;
                let (head, rest) = self.bytes.as_mut_slice().split_at_mut(off as usize);
                assert(rest@ =~= bytes.skip(off as int) && head@ =~= bytes.take(off as int));
                let (data, tail) = rest.split_at_mut(len as usize);
                assert(tail@ =~= bytes.skip(off + len));
                assert(data@ =~= bytes.subrange(off as int, off + len));
                Ok(data)
            },
            Err(e) => Err(e),
        }
    }

    /// Records the write of a range that is within the memory. A write out of bounds fails and
    /// records nothing.
    fn claim(&mut self, off: u32, len: u32) -> (r: Result<(), GuestError>)
        requires
            old(self).wf(),
        ensures
            final(self).wf(),
            r is Ok <==> old(self).in_bounds(off as int, len as int),
            r matches Err(e) ==> e == GuestError::PtrOutOfBounds && *final(self) == *old(self),
            r is Ok ==> {
                &&& final(self).same_kind(*old(self))
                &&& final(self).bytes == old(self).bytes
                &&& final(self).dirty@ == old(self).record_after(off as int, len as int)
            },
    {
        let total: usize = self.bytes.len();
        if (off as u64) + (len as u64) > total as u64 {
            return Err(GuestError::PtrOutOfBounds);
        }
        if self.recording {
            self.dirty.record(off as usize, len as usize);
        }
        Ok(())
    }

    /// Writes a number of `n` bytes, and records the range.
    pub fn write(&mut self, off: u32, v: u64, n: u32) -> (r: Result<(), GuestError>)
        requires
            old(self).wf(),
            n == 1 || n == 2 || n == 4 || n == 8,
        ensures
            final(self).wf(),
            r is Ok <==> old(self).in_bounds(off as int, n as int),
            r matches Err(e) ==> e == GuestError::PtrOutOfBounds && *final(self) == *old(self),
            r is Ok ==> {
                &&& final(self).same_kind(*old(self))
                &&& final(self).bytes@ == stored(old(self).bytes@, off as int, v as int, n as nat)
                &&& final(self).dirty@ == old(self).record_after(off as int, n as int)
            },
    {
        match self.claim(off, n) {
            Ok(_) => {
                write_le(&mut self.bytes, off as usize, v, n as usize);
                Ok(())
            },
            Err(e) => Err(e),
        }
    }

    /// Writes a range, and records it.
    pub fn copy_from_slice(&mut self, data: &Vec<u8>, off: u32) -> (r: Result<(), GuestError>)
        requires
            old(self).wf(),
            data@.len() <= u32::MAX,
        ensures
            final(self).wf(),
            r is Ok <==> old(self).in_bounds(off as int, data@.len() as int),
            r matches Err(e) ==> e == GuestError::PtrOutOfBounds && *final(self) == *old(self),
            r is Ok ==> {
                &&& final(self).same_kind(*old(self))
                &&& final(self).bytes@ == overwritten(old(self).bytes@, off as int, data@)
                &&& final(self).dirty@ == old(self).record_after(off as int, data@.len() as int)
            },
    {
        match self.claim(off, data.len() as u32) {
            Ok(_) => {
                write_bytes(&mut self.bytes, off as usize, data);
                Ok(())
            },
            Err(e) => Err(e),
        }
    }

    /// Takes the recorded ranges and leaves the record empty.
    pub fn an_take_dirty(&mut self) -> (r: Vec<ByteRange>)
        requires
            old(self).wf(),
        ensures
            final(self).wf(),
            final(self).same_kind(*old(self)),
            final(self).bytes == old(self).bytes,
            r@ == old(self).dirty@,
            final(self).dirty@.len() == 0,
    {
        self.dirty.take()
    }
}

/// What a tracked view has written it may read: the bytes of a write are not compared, and a
/// number reads back.
pub proof fn lemma_read_own_write(m: GuestMemory, t: GuestMemory, off: u32, v: u64, n: nat)
    requires
        m.wf(),
        m.recording,
        n == 1 || n == 2 || n == 4 || n == 8,
        m.in_bounds(off as int, n as int),
        t.same_kind(m),
        t.bytes@ == stored(m.bytes@, off as int, v as int, n),
        t.dirty@ == m.record_after(off as int, n as int),
    ensures
        t.read_outcome(off as int, n as int) is None,
        le(t.bytes@, off as int, n) == v as int % size_of_bytes(n),
{
    vstd::std_specs::vec::axiom_spec_len(&m.bytes);
    assert(off + n <= usize::MAX);
    assert forall|x: int| off <= x < off + n implies #[trigger] t.byte_ok(x) by {
        crate::dirty::lemma_recorded_covers(m.dirty@, off as usize, n as usize, x);
    }
    crate::bytes::lemma_read_back(m.bytes@, off as int, v as int, n);
}

} // verus!
