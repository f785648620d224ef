//! The state of a memory, and what makes it consistent.
use crate::bytes::{
    le, lemma_le_injective, lemma_le_range, lemma_le_same, lemma_sizes, read_le,
};
use crate::codec::Codec;
use crate::wasm::Width;
use vstd::prelude::*;

verus! {

/// The size of a page.
pub const PAGE_SIZE: usize = 0x1_0000;

/// The number of pages of the largest memory.
pub const PAGE_LIMIT: usize = 0x1_0000;

/// A memory. Without encoding there is no shadow, and nothing is compared.
pub struct AnMemory {
    pub an_encoding: bool,
    pub codec: Codec,
    /// The width of its addresses.
    pub index: Width,
    pub raw: Vec<u8>,
    pub shadow: Vec<u64>,
    /// The number of pages that it may grow to.
    pub max_pages: usize,
    /// The host holds, or has held, the whole memory for writing: the shadow is to be encoded
    /// anew before it is used.
    pub whole_dirty: bool,
}

/// The value of the four bytes that slot `i` mirrors.
pub open spec fn slot_word(raw: Seq<u8>, i: int) -> int {
    le(raw, 4 * i, 4)
}

/// Slot `i` of a shadow mirrors its four bytes.
pub open spec fn mirrors(c: Codec, raw: Seq<u8>, shadow: Seq<u64>, i: int) -> bool {
    shadow[i] == c.enc(slot_word(raw, i))
}

/// The slots that an access of `len` bytes at `off` touches.
pub open spec fn touches(off: int, len: int, i: int) -> bool {
    len > 0 && off / 4 <= i <= (off + len - 1) / 4
}

impl AnMemory {
    /// Whole pages, and with encoding one slot for every four bytes.
    pub open spec fn wf(self) -> bool {
        &&& self.codec.wf()
        &&& self.raw@.len() % PAGE_SIZE as nat == 0
        &&& self.raw@.len() <= PAGE_LIMIT * PAGE_SIZE
        &&& self.an_encoding ==> 4 * self.shadow@.len() == self.raw@.len()
        &&& !self.an_encoding ==> self.codec.a == 1 && self.shadow@.len() == 0
    }

    /// Everything but the bytes, the shadow and the mark is the same.
    pub open spec fn same_kind(self, other: AnMemory) -> bool {
        &&& self.an_encoding == other.an_encoding
        &&& self.codec == other.codec
        &&& self.index == other.index
        &&& self.max_pages == other.max_pages
    }

    /// Slot `i` mirrors its four bytes.
    pub open spec fn slot_ok(self, i: int) -> bool {
        mirrors(self.codec, self.raw@, self.shadow@, i)
    }

    /// Every slot that an access touches mirrors its bytes.
    pub open spec fn range_ok(self, off: int, len: int) -> bool {
        forall|i: int| #[trigger] touches(off, len, i) ==> self.slot_ok(i)
    }

    /// Every slot mirrors its bytes.
    pub open spec fn consistent(self) -> bool {
        forall|i: int| 0 <= i < self.shadow@.len() ==> #[trigger] self.slot_ok(i)
    }

    /// A slot holds a codeword of the canonical range where it mirrors its bytes.
    pub proof fn lemma_slot_valid(self, i: int)
        requires
            self.codec.wf(),
            self.slot_ok(i),
        ensures
            self.codec.valid(Width::W32, self.shadow@[i] as int),
            self.codec.dec(self.shadow@[i] as int) == slot_word(self.raw@, i),
    {
        lemma_le_range(self.raw@, 4 * i, 4);
        lemma_sizes();
        self.codec.lemma_round_trip(Width::W32, slot_word(self.raw@, i));
    }

    /// A fault in the bytes of a slot, or in the slot itself, is found by every access that
    /// touches the slot: a memory that differs from one in which the slot was right in either of
    /// them, and not in both, does not pass the comparison.
    pub proof fn lemma_fault_found(self, other: AnMemory, i: int, off: int, len: int)
        requires
            self.codec.wf(),
            other.codec == self.codec,
            self.slot_ok(i),
            touches(off, len, i),
            (other.shadow@[i] == self.shadow@[i]) != (forall|j: int|
                4 * i <= j < 4 * i + 4 ==> other.raw@[j] == self.raw@[j]),
        ensures
            !other.slot_ok(i),
            !other.range_ok(off, len),
    {
        let (a, m, n) = (self.codec.a as int, slot_word(self.raw@, i), slot_word(other.raw@, i));
        if other.shadow@[i] == self.shadow@[i] {
            if n == m {
                lemma_le_injective(other.raw@, self.raw@, 4 * i, 4);
            }
            assert(a * n != a * m) by (nonlinear_arith)
                requires
                    n != m,
                    a > 0,
            ;
        } else {
            lemma_le_same(other.raw@, self.raw@, 4 * i, 4);
        }
    }

    /// What a slot mirrors has 32 bits, and its encoding fits below the bound on the constant
    /// times so many.
    pub(crate) proof fn lemma_slot_range(self, i: int)
        requires
            self.codec.wf(),
        ensures
            0 <= slot_word(self.raw@, i) < 0x1_0000_0000,
            0 <= self.codec.enc(slot_word(self.raw@, i)) < 0x100_0000 * 0x1_0000_0000,
    {
        lemma_le_range(self.raw@, 4 * i, 4);
        lemma_sizes();
        let (a, w) = (self.codec.a as int, slot_word(self.raw@, i));
        assert(0 <= a * w < 0x100_0000 * 0x1_0000_0000) by (nonlinear_arith)
            requires
                0 < a < 0x100_0000,
                0 <= w < 0x1_0000_0000,
        ;
    }

    /// The encoding of the four bytes that slot `i` mirrors.
    pub(crate) fn encoded_slot(&self, i: usize) -> (r: u64)
        requires
            self.wf(),
            4 * i + 4 <= self.raw@.len(),
        ensures
            r == self.codec.enc(slot_word(self.raw@, i as int)),
    {
        let total: usize = self.raw.len();
        let w: u64 = read_le(&self.raw, 4 * i, 4);
        proof {
            self.lemma_slot_range(i as int);
        }
        self.codec.a * w
    }

    /// Whether every slot that an access touches mirrors its bytes.
    pub fn range_consistent(&self, off: usize, len: usize) -> (r: bool)
        requires
            self.wf(),
            self.an_encoding,
            off + len <= self.raw@.len(),
        ensures
            r == self.range_ok(off as int, len as int),
    {
        if len == 0 {
            return true;
        }
        let total: usize = self.raw.len();
        let first: usize = off / 4;
        let last: usize = (off + (len - 1)) / 4;
        let mut i: usize = first;
        while i <= last
            invariant
                self.wf(),
                self.an_encoding,
                len > 0,
                total == self.raw@.len(),
                off + len <= total,
                first == off / 4,
                last == (off + (len - 1)) / 4,
                first <= i <= last + 1,
                forall|j: int| first <= j < i ==> #[trigger] self.slot_ok(j),
            decreases last + 1 - i,
        {
            if self.shadow[i] != self.encoded_slot(i) {
                assert(touches(off as int, len as int, i as int));
                assert(!self.slot_ok(i as int));
                return false;
            }
            assert(self.slot_ok(i as int));
            i = i + 1;
        }
        assert forall|j: int| #[trigger] touches(off as int, len as int, j) implies self.slot_ok(
            j,
        ) by {}
        true
    }

    /// A new memory of zeros, whose shadow is zeros too. The constant matters with encoding only.
    pub fn new(
        an_encoding: bool,
        an_constant: u64,
        index: Width,
        min_pages: usize,
        max_pages: usize,
    ) -> (m: AnMemory)
        requires
            1 <= an_constant < crate::codec::AN_CONSTANT_LIMIT,
            min_pages <= PAGE_LIMIT,
            min_pages * PAGE_SIZE <= usize::MAX,
        ensures
            m.wf(),
            m.an_encoding == an_encoding,
            m.codec.a == if an_encoding {
                an_constant
            } else {
                1
            },
            m.index == index,
            m.max_pages == max_pages,
            !m.whole_dirty,
            m.raw@ == Seq::new((min_pages * PAGE_SIZE) as nat, |i: int| 0u8),
            m.consistent(),
    {
        let codec = Codec { a: if an_encoding {
            an_constant
        } else {
            1
        } };
        let len: usize = min_pages * PAGE_SIZE;
        let mut m = AnMemory {
            an_encoding,
            codec,
            index,
            raw: Vec::new(),
            shadow: Vec::new(),
            max_pages,
            whole_dirty: false,
        };
        m.extend_zero(len);
        assert(m.raw@ =~= Seq::new((min_pages * PAGE_SIZE) as nat, |i: int| 0u8));
        m
    }

    /// Adds zeros at the end, and the slots that mirror them. What was there stays.
    pub(crate) fn extend_zero(&mut self, n: usize)
        requires
            old(self).wf(),
            n % PAGE_SIZE == 0,
            old(self).raw@.len() + n <= PAGE_LIMIT * PAGE_SIZE,
            old(self).raw@.len() + n <= usize::MAX,
        ensures
            final(self).wf(),
            final(self).same_kind(*old(self)),
            final(self).whole_dirty == old(self).whole_dirty,
            final(self).raw@ == old(self).raw@ + Seq::new(n as nat, |i: int| 0u8),
            final(self).shadow@ == old(self).shadow@ + Seq::new(
                if old(self).an_encoding {
                    (n / 4) as nat
                } else {
                    0
                },
                |i: int| 0u64,
            ),
            forall|i: int|
                0 <= i < old(self).shadow@.len() ==> (final(self).slot_ok(i) <==> #[trigger] old(
                    self,
                ).slot_ok(i)),
            forall|i: int|
                old(self).shadow@.len() <= i < final(self).shadow@.len()
                    ==> #[trigger] final(self).slot_ok(i),
    {
        let ghost m0 = *self;
        let mut k: usize = 0;
        while k < n
            invariant
                k <= n,
                self.raw@ == m0.raw@ + Seq::new(k as nat, |i: int| 0u8),
                self.shadow == m0.shadow,
                self.same_kind(m0),
                self.whole_dirty == m0.whole_dirty,
            decreases n - k,
        {
            self.raw.push(0);
            k = k + 1;
            assert(self.raw@ =~= m0.raw@ + Seq::new(k as nat, |i: int| 0u8));
        }
        let slots: usize = if self.an_encoding {
            n / 4
        } else {
            0
        };
        let mut j: usize = 0;
        while j < slots
            invariant
                j <= slots,
                self.raw@ == m0.raw@ + Seq::new(n as nat, |i: int| 0u8),
                self.shadow@ == m0.shadow@ + Seq::new(j as nat, |i: int| 0u64),
                self.same_kind(m0),
                self.whole_dirty == m0.whole_dirty,
            decreases slots - j,
        {
            self.shadow.push(0);
            j = j + 1;
            assert(self.shadow@ =~= m0.shadow@ + Seq::new(j as nat, |i: int| 0u64));
        }
        assert(self.shadow@ =~= m0.shadow@ + Seq::new(slots as nat, |i: int| 0u64));
        proof {
            assert forall|i: int| 0 <= i < m0.shadow@.len() implies (self.slot_ok(i)
                <==> #[trigger] m0.slot_ok(i)) by {
                crate::bytes::lemma_le_same(self.raw@, m0.raw@, 4 * i, 4);
            }
            assert forall|i: int|
                m0.shadow@.len() <= i < self.shadow@.len() implies #[trigger] self.slot_ok(i) by {
                reveal_with_fuel(le, 5);
                assert(slot_word(self.raw@, i) == 0);
            }
        }
    }
}

} // verus!
