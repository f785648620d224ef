//! The host's access to a memory.
use super::bulk::wrote;
use super::state::AnMemory;
use crate::bytes::{copy_bytes, overwritten, write_bytes};
use crate::traps::Trap;
use vstd::prelude::*;

verus! {

/// Why the host could not read or write a range.
#[derive(Clone, Copy, Debug, PartialEq, Eq, Structural)]
pub enum MemoryAccessError {
    OutOfBounds,
    /// A slot of the range does not mirror its bytes.
    AnMismatch,
}

impl MemoryAccessError {
    /// The text of the error.
    pub open spec fn text(self) -> Seq<char> {
        match self {
            MemoryAccessError::OutOfBounds => "out of bounds memory access"@,
            MemoryAccessError::AnMismatch => "AN-encoding memory mismatch"@,
        }
    }

    /// The text of the error.
    pub fn message(self) -> (r: &'static str)
        ensures
            r@ == self.text(),
    {
        match self {
            MemoryAccessError::OutOfBounds => "out of bounds memory access",
            MemoryAccessError::AnMismatch => "AN-encoding memory mismatch",
        }
    }
}

impl AnMemory {
    /// Whether the host may take the bytes of a range as they are: the slots of the range mirror
    /// them, or the host itself holds the memory for writing.
    pub open spec fn readable(self, off: int, len: int) -> bool {
        !self.an_encoding || self.whole_dirty || self.range_ok(off, len)
    }

    /// Reads a range. The slots of the range, and no others, are compared first.
    pub fn read(&self, off: usize, len: usize) -> (r: Result<Vec<u8>, MemoryAccessError>)
        requires
            self.wf(),
        ensures
            match r {
                Ok(data) => {
                    &&& off + len <= self.raw@.len()
                    &&& self.readable(off as int, len as int)
                    &&& data@ == self.raw@.subrange(off as int, off + len)
                },
                Err(MemoryAccessError::OutOfBounds) => off + len > self.raw@.len(),
                Err(MemoryAccessError::AnMismatch) => off + len <= self.raw@.len()
                    && !self.readable(off as int, len as int),
            },
    {
        let total: usize = self.raw.len();
        if off > total || len > total - off {
            return Err(MemoryAccessError::OutOfBounds);
        }
        if self.an_encoding && !self.whole_dirty && !self.range_consistent(off, len) {
            return Err(MemoryAccessError::AnMismatch);
        }
        Ok(copy_bytes(&self.raw, off, len))
    }

    /// Writes a range, and encodes its slots anew at once. Where the host holds the whole memory
    /// for writing, the slots are left to the encoding that is due anyway.
    pub fn write(&mut self, off: usize, data: &Vec<u8>) -> (r: Result<(), MemoryAccessError>)
        requires
            old(self).wf(),
        ensures
            off + data@.len() > old(self).raw@.len() ==> r == Err::<(), MemoryAccessError>(
                MemoryAccessError::OutOfBounds,
            ) && *final(self) == *old(self),
            off + data@.len() <= old(self).raw@.len() && old(self).whole_dirty ==> {
                &&& r is Ok
                &&& final(self).wf()
                &&& final(self).same_kind(*old(self))
                &&& final(self).whole_dirty
                &&& final(self).raw@ == overwritten(old(self).raw@, off as int, data@)
                &&& final(self).shadow == old(self).shadow
            },
            off + data@.len() <= old(self).raw@.len() && !old(self).whole_dirty ==> {
                &&& wrote(
                    *old(self),
                    *final(self),
                    off as int,
                    data@,
                    if r is Ok {
                        Ok::<(), Trap>(())
                    } else {
                        Err(Trap::AnMemoryMismatch)
                    },
                )
                &&& r matches Err(e) ==> e == MemoryAccessError::AnMismatch
                &&& old(self).consistent() ==> r is Ok && final(self).consistent()
            },
    {
        let total: usize = self.raw.len();
        if off > total || data.len() > total - off {
            return Err(MemoryAccessError::OutOfBounds);
        }
        if self.whole_dirty {
            write_bytes(&mut self.raw, off, data);
            return Ok(());
        }
        match self.write_range(off, data) {
            Ok(_) => Ok(()),
            Err(_) => Err(MemoryAccessError::AnMismatch),
        }
    }

    /// The whole memory, for reading. Every slot is compared first.
    pub fn try_data(&self) -> (r: Result<&Vec<u8>, Trap>)
        requires
            self.wf(),
        ensures
            r is Ok <==> self.readable(0, self.raw@.len() as int),
            r matches Ok(data) ==> *data == self.raw,
            r matches Err(t) ==> t == Trap::AnMemoryMismatch,
    {
        let total: usize = self.raw.len();
        if self.an_encoding && !self.whole_dirty && !self.range_consistent(0, total) {
            return Err(Trap::AnMemoryMismatch);
        }
        Ok(&self.raw)
    }

    /// The whole memory, for writing. Every slot is compared first, and the memory is marked: the
    /// encoding that follows hides no fault that was there before.
    pub fn try_data_mut(&mut self) -> (r: Result<&mut [u8], Trap>)
        requires
            old(self).wf(),
        ensures
            r is Ok <==> old(self).readable(0, old(self).raw@.len() as int),
            match r {
                Ok(data) => {
                    &&& data@ == old(self).raw@
                    &&& final(self).raw@ == final(data)@
                    &&& final(self).whole_dirty
                    &&& final(self).same_kind(*old(self))
                    &&& final(self).shadow == old(self).shadow
                    &&& final(data)@.len() == data@.len() ==> final(self).wf()
                },
                Err(t) => t == Trap::AnMemoryMismatch && *final(self) == *old(self),
            },
    {
        let total: usize = self.raw.len();
        if self.an_encoding && !self.whole_dirty && !self.range_consistent(0, total) {
            return Err(Trap::AnMemoryMismatch);
        }
        self.whole_dirty = true;
        Ok(self.raw.as_mut_slice())
    }
}

} // verus!
