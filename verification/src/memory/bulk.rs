//! The operations on ranges of memory, and growth.
use super::resync::{lemma_resync_consistent, lemma_retained, resyncable, resynced, touched};
use super::state::{mirrors, AnMemory, PAGE_LIMIT, PAGE_SIZE};
use crate::bytes::{copy_bytes, overwritten, write_bytes};
use crate::dirty::{covered, ByteRange};
use crate::traps::Trap;
use crate::wasm::Width;
use vstd::prelude::*;

verus! {

/// The one range that a write of `len` bytes at `off` covers.
pub open spec fn one_range(off: int, len: int) -> Seq<ByteRange> {
    seq![ByteRange { start: off as usize, end: (off + len) as usize }]
}

/// A memory in which `data` has been written at `off` and the slots of that range encoded anew;
/// where a byte beside the range, in a slot of it, is not what the slot holds, the shadow stays
/// as it was and the write is a trap.
pub open spec fn wrote(
    m: AnMemory,
    t: AnMemory,
    off: int,
    data: Seq<u8>,
    r: Result<(), Trap>,
) -> bool {
    let raw = overwritten(m.raw@, off, data);
    let ranges = one_range(off, data.len() as int);
    let ok = !m.an_encoding || resyncable(m.codec, raw, m.shadow@, ranges);
    &&& t.wf()
    &&& t.same_kind(m)
    &&& t.whole_dirty == m.whole_dirty
    &&& t.raw@ == raw
    &&& r == if ok {
        Ok::<(), Trap>(())
    } else {
        Err(Trap::AnMemoryMismatch)
    }
    &&& t.shadow@ == if ok && m.an_encoding {
        resynced(m.codec, raw, m.shadow@, ranges)
    } else {
        m.shadow@
    }
}

/// The decoded operands of an operation on a range, or the trap.
pub open spec fn operand(m: AnMemory, w: Width, x: int) -> Result<int, Trap> {
    if m.codec.is_codeword(x) {
        Ok(m.codec.dec(x))
    } else {
        Err(Trap::AnCodewordInvalid)
    }
}

/// The bytes that the range of a write covers are its own.
proof fn lemma_one_range(off: int, len: int, x: int)
    requires
        0 <= off,
        0 <= len,
        off + len <= usize::MAX,
    ensures
        covered(one_range(off, len), x) <==> off <= x < off + len,
{
    let s = one_range(off, len);
    if off <= x < off + len {
        assert(s[0].has(x));
    }
}

/// A write on a consistent memory succeeds and leaves it consistent.
pub proof fn lemma_write_consistent(
    m: AnMemory,
    t: AnMemory,
    off: int,
    data: Seq<u8>,
    r: Result<(), Trap>,
)
    requires
        m.wf(),
        m.consistent(),
        0 <= off,
        off + data.len() <= m.raw@.len(),
        m.raw@.len() <= usize::MAX,
        wrote(m, t, off, data, r),
    ensures
        r is Ok,
        t.consistent(),
{
    let raw = overwritten(m.raw@, off, data);
    let ranges = one_range(off, data.len() as int);
    let len = raw.len() as int;
    if m.an_encoding {
        assert forall|i: int| #[trigger] touched(ranges, len, i) implies crate::memory::resync::retained(
            m.codec,
            raw,
            m.shadow@,
            ranges,
            i,
        ) by {
            assert(0 <= i < m.shadow@.len());
            assert(m.slot_ok(i));
            assert forall|x: int| 4 * i <= x < 4 * i + 4 && !covered(ranges, x) implies raw[x]
                == m.raw@[x] by {
                lemma_one_range(off, data.len() as int, x);
            }
            lemma_retained(m.codec, m.raw@, raw, m.shadow@, ranges, i);
        }
        assert forall|i: int| 0 <= i < t.shadow@.len() implies #[trigger] t.slot_ok(i) by {
            assert(m.slot_ok(i));
            if !touched(ranges, len, i) {
                assert forall|x: int| 4 * i <= x < 4 * i + 4 implies raw[x] == m.raw@[x] by {
                    if off <= x < off + data.len() {
                        assert(crate::memory::resync::range_touches(ranges[0], len, i));
                    }
                }
                crate::bytes::lemma_le_same(raw, m.raw@, 4 * i, 4);
                assert(mirrors(m.codec, raw, m.shadow@, i));
            }
            lemma_resync_consistent(m.codec, raw, m.shadow@, ranges, i);
        }
    }
}

impl AnMemory {
    /// Writes `data` at `off` and encodes the slots of that range anew.
    pub fn write_range(&mut self, off: usize, data: &Vec<u8>) -> (r: Result<(), Trap>)
        requires
            old(self).wf(),
            off + data@.len() <= old(self).raw@.len(),
        ensures
            wrote(*old(self), *final(self), off as int, data@, r),
            old(self).consistent() ==> r is Ok && final(self).consistent(),
    {
        let ghost m0 = *self;
        let total: usize = self.raw.len();
        write_bytes(&mut self.raw, off, data);
        let mut ranges: Vec<ByteRange> = Vec::new();
        ranges.push(ByteRange { start: off, end: off + data.len() });
        assert(ranges@ =~= one_range(off as int, data@.len() as int));
        let ok: bool = self.resync_ranges(&ranges);
        let r: Result<(), Trap> = if ok {
            Ok(())
        } else {
            Err(Trap::AnMemoryMismatch)
        };
        proof {
            assert(wrote(m0, *self, off as int, data@, r));
            if m0.consistent() {
                lemma_write_consistent(m0, *self, off as int, data@, r);
            }
        }
        r
    }

    /// Checks and decodes an operand.
    fn operand_of(&self, w: Width, x: u128) -> (r: Result<u64, Trap>)
        requires
            self.wf(),
            self.codec.in_band(w, x as int),
        ensures
            match r {
                Ok(n) => operand(*self, w, x as int) == Ok::<int, Trap>(n as int) && w.has(
                    n as int,
                ),
                Err(t) => operand(*self, w, x as int) == Err::<int, Trap>(t),
            },
    {
        self.codec.decode(w, x)
    }

    /// Fills `len` bytes at `dst` with the low byte of `value`. The operands are encoded; each
    /// is checked.
    pub fn fill(&mut self, dst: u128, value: u128, len: u128) -> (r: Result<(), Trap>)
        requires
            old(self).wf(),
            old(self).codec.in_band(old(self).index, dst as int),
            old(self).codec.in_band(Width::W32, value as int),
            old(self).codec.in_band(old(self).index, len as int),
        ensures
            ({
                let c = old(self).codec;
                let (d, v, n) = (c.dec(dst as int), c.dec(value as int), c.dec(len as int));
                if !c.is_codeword(dst as int) || !c.is_codeword(value as int) || !c.is_codeword(
                    len as int,
                ) {
                    r == Err::<(), Trap>(Trap::AnCodewordInvalid) && *final(self) == *old(self)
                } else if d + n > old(self).raw@.len() {
                    r == Err::<(), Trap>(Trap::MemoryOutOfBounds) && *final(self) == *old(self)
                } else {
                    &&& wrote(
                        *old(self),
                        *final(self),
                        d,
                        Seq::new(n as nat, |i: int| (v % 0x100) as u8),
                        r,
                    )
                    &&& old(self).consistent() ==> r is Ok && final(self).consistent()
                }
            }),
    {
        let d: u64 = match self.operand_of(self.index, dst) {
            Ok(n) => n,
            Err(t) => {
                return Err(t);
            },
        };
        let v: u64 = match self.operand_of(Width::W32, value) {
            Ok(n) => n,
            Err(t) => {
                return Err(t);
            },
        };
        let n: u64 = match self.operand_of(self.index, len) {
            Ok(n) => n,
            Err(t) => {
                return Err(t);
            },
        };
        let total: usize = self.raw.len();
        if (d as u128) + (n as u128) > total as u128 {
            return Err(Trap::MemoryOutOfBounds);
        }
        let b: u8 = (v % 0x100) as u8;
        let count: usize = n as usize;
        let mut data: Vec<u8> = Vec::new();
        let mut k: usize = 0;
        while k < count
            invariant
                k <= count,
                data@ == Seq::new(k as nat, |i: int| b),
            decreases count - k,
        {
            data.push(b);
            k = k + 1;
            assert(data@ =~= Seq::new(k as nat, |i: int| b));
        }
        assert(data@ =~= Seq::new(n as nat, |i: int| (v as int % 0x100) as u8));
        self.write_range(d as usize, &data)
    }

    /// Copies `len` bytes at `src` of another memory to `dst` of this one. The operands are
    /// encoded, the length in the narrower of the two index types; each is checked. Before
    /// anything is written the slots of the source are compared, so that a fault in the source
    /// does not become a codeword of the destination.
    pub fn copy_from(&mut self, other: &AnMemory, dst: u128, src: u128, len: u128) -> (r: Result<
        (),
        Trap,
    >)
        requires
            old(self).wf(),
            other.wf(),
            other.codec == old(self).codec,
            other.an_encoding == old(self).an_encoding,
            old(self).codec.in_band(old(self).index, dst as int),
            old(self).codec.in_band(other.index, src as int),
            old(self).codec.in_band(
                if old(self).index == Width::W32 {
                    Width::W32
                } else {
                    other.index
                },
                len as int,
            ),
        ensures
            ({
                let c = old(self).codec;
                let (d, s, n) = (c.dec(dst as int), c.dec(src as int), c.dec(len as int));
                if !c.is_codeword(dst as int) || !c.is_codeword(src as int) || !c.is_codeword(
                    len as int,
                ) {
                    r == Err::<(), Trap>(Trap::AnCodewordInvalid) && *final(self) == *old(self)
                } else if d + n > old(self).raw@.len() || s + n > other.raw@.len() {
                    r == Err::<(), Trap>(Trap::MemoryOutOfBounds) && *final(self) == *old(self)
                } else if other.an_encoding && !other.range_ok(s, n) {
                    r == Err::<(), Trap>(Trap::AnMemoryMismatch) && *final(self) == *old(self)
                } else {
                    &&& wrote(*old(self), *final(self), d, other.raw@.subrange(s, s + n), r)
                    &&& old(self).consistent() ==> r is Ok && final(self).consistent()
                }
            }),
    {
        let narrow: Width = match self.index {
            Width::W32 => Width::W32,
            Width::W64 => other.index,
        };
        let d: u64 = match self.operand_of(self.index, dst) {
            Ok(n) => n,
            Err(t) => {
                return Err(t);
            },
        };
        let s: u64 = match self.operand_of(other.index, src) {
            Ok(n) => n,
            Err(t) => {
                return Err(t);
            },
        };
        let n: u64 = match self.operand_of(narrow, len) {
            Ok(n) => n,
            Err(t) => {
                return Err(t);
            },
        };
        let total: usize = self.raw.len();
        let source: usize = other.raw.len();
        if (d as u128) + (n as u128) > total as u128 || (s as u128) + (n as u128)
            > source as u128 {
            return Err(Trap::MemoryOutOfBounds);
        }
        if other.an_encoding && !other.range_consistent(s as usize, n as usize) {
            return Err(Trap::AnMemoryMismatch);
        }
        let data: Vec<u8> = copy_bytes(&other.raw, s as usize, n as usize);
        self.write_range(d as usize, &data)
    }

    /// Copies `len` bytes at `src` to `dst` of the same memory; the ranges may overlap.
    pub fn copy(&mut self, dst: u128, src: u128, len: u128) -> (r: Result<(), Trap>)
        requires
            old(self).wf(),
            old(self).codec.in_band(old(self).index, dst as int),
            old(self).codec.in_band(old(self).index, src as int),
            old(self).codec.in_band(old(self).index, len as int),
        ensures
            ({
                let c = old(self).codec;
                let (d, s, n) = (c.dec(dst as int), c.dec(src as int), c.dec(len as int));
                let size = old(self).raw@.len();
                if !c.is_codeword(dst as int) || !c.is_codeword(src as int) || !c.is_codeword(
                    len as int,
                ) {
                    r == Err::<(), Trap>(Trap::AnCodewordInvalid) && *final(self) == *old(self)
                } else if d + n > size || s + n > size {
                    r == Err::<(), Trap>(Trap::MemoryOutOfBounds) && *final(self) == *old(self)
                } else if old(self).an_encoding && !old(self).range_ok(s, n) {
                    r == Err::<(), Trap>(Trap::AnMemoryMismatch) && *final(self) == *old(self)
                } else {
                    &&& wrote(*old(self), *final(self), d, old(self).raw@.subrange(s, s + n), r)
                    &&& old(self).consistent() ==> r is Ok && final(self).consistent()
                }
            }),
    {
        let d: u64 = match self.operand_of(self.index, dst) {
            Ok(n) => n,
            Err(t) => {
                return Err(t);
            },
        };
        let s: u64 = match self.operand_of(self.index, src) {
            Ok(n) => n,
            Err(t) => {
                return Err(t);
            },
        };
        let n: u64 = match self.operand_of(self.index, len) {
            Ok(n) => n,
            Err(t) => {
                return Err(t);
            },
        };
        let total: usize = self.raw.len();
        if (d as u128) + (n as u128) > total as u128 || (s as u128) + (n as u128)
            > total as u128 {
            return Err(Trap::MemoryOutOfBounds);
        }
        if self.an_encoding && !self.range_consistent(s as usize, n as usize) {
            return Err(Trap::AnMemoryMismatch);
        }
        let data: Vec<u8> = copy_bytes(&self.raw, s as usize, n as usize);
        self.write_range(d as usize, &data)
    }

    /// Copies `len` bytes at `src` of a data segment to `dst`. The operands are encoded; each is
    /// checked.
    pub fn init(&mut self, segment: &Vec<u8>, dst: u128, src: u128, len: u128) -> (r: Result<
        (),
        Trap,
    >)
        requires
            old(self).wf(),
            old(self).codec.in_band(old(self).index, dst as int),
            old(self).codec.in_band(Width::W32, src as int),
            old(self).codec.in_band(Width::W32, len as int),
        ensures
            ({
                let c = old(self).codec;
                let (d, s, n) = (c.dec(dst as int), c.dec(src as int), c.dec(len as int));
                if !c.is_codeword(dst as int) || !c.is_codeword(src as int) || !c.is_codeword(
                    len as int,
                ) {
                    r == Err::<(), Trap>(Trap::AnCodewordInvalid) && *final(self) == *old(self)
                } else if d + n > old(self).raw@.len() || s + n > segment@.len() {
                    r == Err::<(), Trap>(Trap::MemoryOutOfBounds) && *final(self) == *old(self)
                } else {
                    &&& wrote(*old(self), *final(self), d, segment@.subrange(s, s + n), r)
                    &&& old(self).consistent() ==> r is Ok && final(self).consistent()
                }
            }),
    {
        let d: u64 = match self.operand_of(self.index, dst) {
            Ok(n) => n,
            Err(t) => {
                return Err(t);
            },
        };
        let s: u64 = match self.operand_of(Width::W32, src) {
            Ok(n) => n,
            Err(t) => {
                return Err(t);
            },
        };
        let n: u64 = match self.operand_of(Width::W32, len) {
            Ok(n) => n,
            Err(t) => {
                return Err(t);
            },
        };
        let total: usize = self.raw.len();
        let available: usize = segment.len();
        if (d as u128) + (n as u128) > total as u128 || (s as u128) + (n as u128)
            > available as u128 {
            return Err(Trap::MemoryOutOfBounds);
        }
        let data: Vec<u8> = copy_bytes(segment, s as usize, n as usize);
        self.write_range(d as usize, &data)
    }

    /// The number of pages.
    pub open spec fn pages(self) -> int {
        self.raw@.len() as int / PAGE_SIZE as int
    }

    /// Whether the memory can grow by so many pages.
    pub open spec fn can_grow(self, delta: int) -> bool {
        let n = self.pages() + delta;
        n <= self.max_pages && n <= PAGE_LIMIT && n * PAGE_SIZE <= usize::MAX
    }

    /// Grows the memory by `delta` pages of zeros, and returns how many it had. The bytes and
    /// the slots that were there stay as they were: a fault survives growth and can still be
    /// found.
    pub fn grow_pages(&mut self, delta: u64) -> (r: Option<usize>)
        requires
            old(self).wf(),
        ensures
            final(self).wf(),
            final(self).same_kind(*old(self)),
            final(self).whole_dirty == old(self).whole_dirty,
            r is Some <==> old(self).can_grow(delta as int),
            r matches Some(n) ==> {
                &&& n == old(self).pages()
                &&& final(self).pages() == n + delta
                &&& final(self).raw@ == old(self).raw@ + Seq::new(
                    (delta * PAGE_SIZE) as nat,
                    |i: int| 0u8,
                )
                &&& final(self).shadow@.take(old(self).shadow@.len() as int) == old(self).shadow@
                &&& final(self).shadow@ == old(self).shadow@ + Seq::new(
                    if old(self).an_encoding {
                        (delta * 0x4000) as nat
                    } else {
                        0
                    },
                    |i: int| 0u64,
                )
                &&& forall|i: int|
                    0 <= i < old(self).shadow@.len() ==> (final(self).slot_ok(i)
                        <==> #[trigger] old(self).slot_ok(i))
                &&& forall|i: int|
                    old(self).shadow@.len() <= i < final(self).shadow@.len()
                        ==> #[trigger] final(self).slot_ok(i)
            },
            r is None ==> *final(self) == *old(self),
    {
        let total: usize = self.raw.len();
        let pages: usize = total / PAGE_SIZE;
        let wanted: u128 = (pages as u128) + (delta as u128);
        if wanted > self.max_pages as u128 || wanted > PAGE_LIMIT as u128 {
            return None;
        }
        if wanted * 0x1_0000 > usize::MAX as u128 {
            return None;
        }
        let ghost m0 = *self;
        let n: usize = (delta as usize) * PAGE_SIZE;
        self.extend_zero(n);
        assert(self.shadow@.take(m0.shadow@.len() as int) =~= m0.shadow@);
        Some(pages)
    }

    /// Grows the memory by an encoded number of pages. The result is the encoded number of pages
    /// it had, or the encoding of minus one where it cannot grow so far.
    pub fn grow(&mut self, delta: u128) -> (r: Result<u128, Trap>)
        requires
            old(self).wf(),
            old(self).codec.in_band(old(self).index, delta as int),
        ensures
            final(self).wf(),
            final(self).same_kind(*old(self)),
            final(self).whole_dirty == old(self).whole_dirty,
            r is Ok <==> old(self).codec.is_codeword(delta as int),
            r matches Err(t) ==> t == Trap::AnCodewordInvalid && *final(self) == *old(self),
            r matches Ok(x) ==> {
                let d = old(self).codec.dec(delta as int);
                &&& old(self).can_grow(d) ==> {
                    &&& x == old(self).codec.enc(old(self).pages())
                    &&& final(self).raw@ == old(self).raw@ + Seq::new(
                        (d * PAGE_SIZE) as nat,
                        |i: int| 0u8,
                    )
                    &&& final(self).shadow@.take(old(self).shadow@.len() as int) == old(
                        self,
                    ).shadow@
                    &&& final(self).shadow@ == old(self).shadow@ + Seq::new(
                        if old(self).an_encoding {
                            (d * 0x4000) as nat
                        } else {
                            0
                        },
                        |i: int| 0u64,
                    )
                    &&& old(self).consistent() ==> final(self).consistent()
                }
                &&& !old(self).can_grow(d) ==> {
                    &&& x == old(self).codec.enc(old(self).index.modulus() - 1)
                    &&& *final(self) == *old(self)
                }
            },
    {
        let ghost m0 = *self;
        let d: u64 = match self.operand_of(self.index, delta) {
            Ok(n) => n,
            Err(t) => {
                return Err(t);
            },
        };
        match self.grow_pages(d) {
            Some(n) => {
                proof {
                    if m0.consistent() {
                        assert forall|i: int|
                            0 <= i < self.shadow@.len() implies #[trigger] self.slot_ok(i) by {
                            if i < m0.shadow@.len() {
                                assert(m0.slot_ok(i));
                            }
                        }
                    }
                }
                Ok(self.codec.encode(self.index, n as u64))
            },
            None => Ok(
                self.codec.encode(
                    self.index,
                    match self.index {
                        Width::W32 => 0xffff_ffff,
                        Width::W64 => 0xffff_ffff_ffff_ffff,
                    },
                ),
            ),
        }
    }

    /// The encoded number of pages.
    pub fn size(&self) -> (x: u128)
        requires
            self.wf(),
        ensures
            x == self.codec.enc(self.pages()),
    {
        let total: usize = self.raw.len();
        self.codec.encode(self.index, (total / PAGE_SIZE) as u64)
    }
}

} // verus!
