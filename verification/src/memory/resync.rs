//! Bringing the shadow along with bytes that the host has written.
use super::state::{mirrors, slot_word, touches, AnMemory};
use crate::bytes::{byte_at, le, lemma_le_range, lemma_sizes};
use crate::codec::Codec;
use crate::dirty::{covered, ByteRange};
use crate::wasm::Width;
use vstd::prelude::*;

verus! {

/// The end of a range, at most the length of the memory.
pub open spec fn clamped(r: ByteRange, len: int) -> int {
    if r.end > len {
        len
    } else {
        r.end as int
    }
}

/// Whether a range holds a byte of slot `i`.
pub open spec fn range_touches(r: ByteRange, len: int, i: int) -> bool {
    touches(r.start as int, clamped(r, len) - r.start, i)
}

/// Whether one of the ranges holds a byte of slot `i`.
pub open spec fn touched(ranges: Seq<ByteRange>, len: int, i: int) -> bool {
    exists|k: int| 0 <= k < ranges.len() && #[trigger] range_touches(ranges[k], len, i)
}

/// The bytes of slot `i` that no range covers are those that the slot holds: nothing but what the
/// host has written differs. A slot that is covered as a whole is not compared.
pub open spec fn retained(
    c: Codec,
    raw: Seq<u8>,
    shadow: Seq<u64>,
    ranges: Seq<ByteRange>,
    i: int,
) -> bool {
    let (a, x) = (c.a as int, shadow[i] as int);
    (forall|p: int| 0 <= p < 4 ==> #[trigger] covered(ranges, 4 * i + p)) || {
        &&& x % a == 0
        &&& x / a < 0x1_0000_0000
        &&& forall|p: int|
            0 <= p < 4 && !#[trigger] covered(ranges, 4 * i + p) ==> raw[4 * i + p] == byte_at(
                x / a,
                p as nat,
            )
    }
}

/// Whether the slots of the ranges may be encoded anew.
pub open spec fn resyncable(
    c: Codec,
    raw: Seq<u8>,
    shadow: Seq<u64>,
    ranges: Seq<ByteRange>,
) -> bool {
    forall|i: int| #[trigger]
        touched(ranges, raw.len() as int, i) ==> retained(c, raw, shadow, ranges, i)
}

/// The shadow with the slots of the ranges encoded anew.
pub open spec fn resynced(
    c: Codec,
    raw: Seq<u8>,
    shadow: Seq<u64>,
    ranges: Seq<ByteRange>,
) -> Seq<u64> {
    Seq::new(
        shadow.len(),
        |i: int|
            if touched(ranges, raw.len() as int, i) {
                c.enc(slot_word(raw, i)) as u64
            } else {
                shadow[i]
            },
    )
}

impl AnMemory {
    /// Whether one of the ranges holds the byte at `x`.
    fn is_covered(ranges: &Vec<ByteRange>, x: usize) -> (r: bool)
        ensures
            r == covered(ranges@, x as int),
    {
        let mut k: usize = 0;
        while k < ranges.len()
            invariant
                k <= ranges@.len(),
                forall|j: int| 0 <= j < k ==> !(#[trigger] ranges@[j]).has(x as int),
            decreases ranges@.len() - k,
        {
            if ranges[k].start <= x && x < ranges[k].end {
                assert(ranges@[k as int].has(x as int));
                return true;
            }
            k = k + 1;
        }
        false
    }

    /// Whether the bytes of slot `i` that no range covers are those that the slot holds.
    fn check_retained(&self, ranges: &Vec<ByteRange>, i: usize) -> (r: bool)
        requires
            self.wf(),
            self.an_encoding,
            i < self.shadow@.len(),
        ensures
            r == retained(self.codec, self.raw@, self.shadow@, ranges@, i as int),
    {
        let total: usize = self.raw.len();
        let a: u64 = self.codec.a;
        let x: u64 = self.shadow[i];
        let base: usize = 4 * i;
        let c0: bool = Self::is_covered(ranges, base);
        let c1: bool = Self::is_covered(ranges, base + 1);
        let c2: bool = Self::is_covered(ranges, base + 2);
        let c3: bool = Self::is_covered(ranges, base + 3);
        assert(covered(ranges@, 4 * i + 0) == c0);
        assert(covered(ranges@, 4 * i + 1) == c1);
        assert(covered(ranges@, 4 * i + 2) == c2);
        assert(covered(ranges@, 4 * i + 3) == c3);
        if c0 && c1 && c2 && c3 {
            return true;
        }
        if x % a != 0 {
            return false;
        }
        let w: u64 = x / a;
        if w >= 0x1_0000_0000 {
            return false;
        }
        proof {
            reveal_with_fuel(byte_at, 5);
            let v = w as int;
            assert(byte_at(v, 0) == v % 0x100);
            assert(byte_at(v, 1) == v / 0x100 % 0x100);
            assert(byte_at(v, 2) == v / 0x100 / 0x100 % 0x100);
            assert(byte_at(v, 3) == v / 0x100 / 0x100 / 0x100 % 0x100);
        }
        let ok0: bool = c0 || self.raw[base] as u64 == w % 0x100;
        let ok1: bool = c1 || self.raw[base + 1] as u64 == w / 0x100 % 0x100;
        let ok2: bool = c2 || self.raw[base + 2] as u64 == w / 0x100 / 0x100 % 0x100;
        let ok3: bool = c3 || self.raw[base + 3] as u64 == w / 0x100 / 0x100 / 0x100 % 0x100;
        let r: bool = ok0 && ok1 && ok2 && ok3;
        proof {
            if r {
                assert forall|p: int|
                    0 <= p < 4 && !#[trigger] covered(ranges@, 4 * i + p) implies self.raw@[4 * i
                    + p] == byte_at(w as int, p as nat) by {}
            }
        }
        r
    }

    /// The first and one past the last slot of a range; equal where it holds no byte of the
    /// memory.
    fn slots_of(&self, r: ByteRange) -> (s: (usize, usize))
        requires
            self.wf(),
            self.an_encoding,
        ensures
            s.0 <= s.1 <= self.shadow@.len(),
            forall|i: int| s.0 <= i < s.1 <==> #[trigger] range_touches(
                r,
                self.raw@.len() as int,
                i,
            ),
    {
        let total: usize = self.raw.len();
        let end: usize = if r.end > total {
            total
        } else {
            r.end
        };
        if r.start >= end {
            return (0, 0);
        }
        (r.start / 4, (end - 1) / 4 + 1)
    }

    /// Encodes the slots of the ranges anew from the raw bytes. First every slot that the ranges
    /// cover in part is compared: where a byte that they leave out differs from what the slot
    /// holds, nothing is changed and `false` returned, so that no fault is taken for a write.
    /// Without encoding there is nothing to do.
    pub fn resync_ranges(&mut self, ranges: &Vec<ByteRange>) -> (ok: bool)
        requires
            old(self).wf(),
        ensures
            final(self).wf(),
            final(self).same_kind(*old(self)),
            final(self).whole_dirty == old(self).whole_dirty,
            final(self).raw == old(self).raw,
            final(self).shadow@.len() == old(self).shadow@.len(),
            !old(self).an_encoding ==> ok && *final(self) == *old(self),
            old(self).an_encoding ==> ok == resyncable(
                old(self).codec,
                old(self).raw@,
                old(self).shadow@,
                ranges@,
            ),
            !ok ==> *final(self) == *old(self),
            old(self).an_encoding && ok ==> final(self).shadow@ == resynced(
                old(self).codec,
                old(self).raw@,
                old(self).shadow@,
                ranges@,
            ),
    {
        if !self.an_encoding {
            return true;
        }
        let ghost len = self.raw@.len() as int;
        let mut k: usize = 0;
        while k < ranges.len()
            invariant
                *self == *old(self),
                self.wf(),
                self.an_encoding,
                len == self.raw@.len(),
                k <= ranges@.len(),
                forall|j: int, i: int|
                    0 <= j < k && #[trigger] range_touches(ranges@[j], len, i)
                        ==> retained(self.codec, self.raw@, self.shadow@, ranges@, i),
            decreases ranges@.len() - k,
        {
            let (first, past) = self.slots_of(ranges[k]);
            let mut i: usize = first;
            while i < past
                invariant
                    *self == *old(self),
                    self.wf(),
                    self.an_encoding,
                    len == self.raw@.len(),
                    k < ranges@.len(),
                    first <= i <= past <= self.shadow@.len(),
                    forall|j: int|
                        first <= j < past <==> #[trigger] range_touches(
                            ranges@[k as int],
                            len,
                            j,
                        ),
                    forall|j: int|
                        first <= j < i ==> #[trigger] retained(
                            self.codec,
                            self.raw@,
                            self.shadow@,
                            ranges@,
                            j,
                        ),
                decreases past - i,
            {
                if !self.check_retained(ranges, i) {
                    assert(range_touches(ranges@[k as int], len, i as int));
                    assert(touched(ranges@, len, i as int));
                    return false;
                }
                i = i + 1;
            }
            assert forall|j: int, s: int|
                0 <= j < k + 1 && #[trigger] range_touches(
                    ranges@[j],
                    len,
                    s,
                ) implies retained(self.codec, self.raw@, self.shadow@, ranges@, s) by {}
            k = k + 1;
        }
        proof {
            assert forall|i: int| #[trigger] touched(ranges@, len, i) implies retained(
                self.codec,
                self.raw@,
                self.shadow@,
                ranges@,
                i,
            ) by {
                let j = choose|j: int|
                    0 <= j < ranges@.len() && #[trigger] range_touches(ranges@[j], len, i);
                assert(range_touches(ranges@[j], len, i));
            }
        }
        let ghost m0 = *old(self);
        let mut k: usize = 0;
        while k < ranges.len()
            invariant
                self.wf(),
                self.an_encoding,
                self.same_kind(m0),
                self.whole_dirty == m0.whole_dirty,
                self.raw == m0.raw,
                self.shadow@.len() == m0.shadow@.len(),
                len == m0.raw@.len(),
                m0.an_encoding,
                k <= ranges@.len(),
                forall|i: int|
                    0 <= i < m0.shadow@.len() ==> #[trigger] self.shadow@[i] == if touched(
                        ranges@.take(k as int),
                        len,
                        i,
                    ) {
                        m0.codec.enc(slot_word(m0.raw@, i))
                    } else {
                        m0.shadow@[i] as int
                    },
            decreases ranges@.len() - k,
        {
            let ghost m1 = *self;
            let (first, past) = self.slots_of(ranges[k]);
            if first < past {
                self.encode_slots(first, past - 1);
            }
            proof {
                assert forall|i: int|
                    0 <= i < m0.shadow@.len() implies #[trigger] self.shadow@[i] == if touched(
                    ranges@.take(k + 1),
                    len,
                    i,
                ) {
                    m0.codec.enc(slot_word(m0.raw@, i))
                } else {
                    m0.shadow@[i] as int
                } by {
                    lemma_touched_step(ranges@, len, k as int, i);
                    assert(m1.shadow@[i] == m1.shadow@[i]);
                }
            }
            k = k + 1;
        }
        assert(ranges@.take(k as int) =~= ranges@);
        proof {
            assert forall|i: int| 0 <= i < m0.shadow@.len() implies #[trigger] self.shadow@[i]
                == resynced(m0.codec, m0.raw@, m0.shadow@, ranges@)[i] by {
                m0.lemma_slot_range(i);
            }
            assert(self.shadow@ =~= resynced(m0.codec, m0.raw@, m0.shadow@, ranges@));
        }
        true
    }

    /// Encodes every slot anew from the raw bytes, where the host has held the whole memory for
    /// writing, and takes the mark off. This runs whenever control enters or re-enters the guest.
    pub fn heal(&mut self)
        requires
            old(self).wf(),
        ensures
            final(self).wf(),
            final(self).same_kind(*old(self)),
            !final(self).whole_dirty,
            final(self).raw == old(self).raw,
            !old(self).whole_dirty ==> *final(self) == *old(self),
            old(self).whole_dirty ==> final(self).consistent(),
    {
        if !self.whole_dirty {
            return ;
        }
        self.whole_dirty = false;
        let slots: usize = self.shadow.len();
        if self.an_encoding && slots > 0 {
            self.encode_slots(0, slots - 1);
            proof {
                assert forall|i: int| 0 <= i < self.shadow@.len() implies #[trigger] self.slot_ok(
                    i,
                ) by {
                    assert(self.shadow@[i] == self.codec.enc(slot_word(self.raw@, i)));
                }
            }
        }
    }
}

/// One more range touches its own slots.
proof fn lemma_touched_step(ranges: Seq<ByteRange>, len: int, k: int, i: int)
    requires
        0 <= k < ranges.len(),
    ensures
        touched(ranges.take(k + 1), len, i) <==> touched(ranges.take(k), len, i) || range_touches(
            ranges[k],
            len,
            i,
        ),
{
    let (a, b) = (ranges.take(k), ranges.take(k + 1));
    if touched(a, len, i) {
        let j = choose|j: int| 0 <= j < a.len() && #[trigger] range_touches(a[j], len, i);
        assert(range_touches(b[j], len, i));
    }
    if range_touches(ranges[k], len, i) {
        assert(range_touches(b[k], len, i));
    }
    if touched(b, len, i) {
        let j = choose|j: int| 0 <= j < b.len() && #[trigger] range_touches(b[j], len, i);
        if j < k {
            assert(range_touches(a[j], len, i));
        }
    }
}

/// After a resync every slot of the ranges mirrors its bytes, and every other slot that did
/// still does.
pub proof fn lemma_resync_consistent(
    c: Codec,
    raw: Seq<u8>,
    shadow: Seq<u64>,
    ranges: Seq<ByteRange>,
    i: int,
)
    requires
        c.wf(),
        0 <= i < shadow.len(),
        touched(ranges, raw.len() as int, i) || mirrors(c, raw, shadow, i),
    ensures
        mirrors(c, raw, resynced(c, raw, shadow, ranges), i),
{
    lemma_le_range(raw, 4 * i, 4);
    lemma_sizes();
    let (a, w) = (c.a as int, slot_word(raw, i));
    assert(0 <= a * w < 0x100_0000 * 0x1_0000_0000) by (nonlinear_arith)
        requires
            0 < a < 0x100_0000,
            0 <= w < 0x1_0000_0000,
    ;
}

/// A byte that the ranges leave out, in a slot that they touch, is not taken for written: where
/// it differs from what the slot holds, the resync is refused.
pub proof fn lemma_resync_detects(
    c: Codec,
    raw: Seq<u8>,
    shadow: Seq<u64>,
    ranges: Seq<ByteRange>,
    i: int,
    p: int,
)
    requires
        touched(ranges, raw.len() as int, i),
        0 <= p < 4,
        !covered(ranges, 4 * i + p),
        raw[4 * i + p] != byte_at(shadow[i] as int / c.a as int, p as nat),
    ensures
        !resyncable(c, raw, shadow, ranges),
{
    assert(!retained(c, raw, shadow, ranges, i));
}

/// What the host has written never stands in its own way: where a slot mirrored its bytes and
/// only bytes of the ranges have changed since, it may be encoded anew.
pub proof fn lemma_retained(
    c: Codec,
    before: Seq<u8>,
    raw: Seq<u8>,
    shadow: Seq<u64>,
    ranges: Seq<ByteRange>,
    i: int,
)
    requires
        c.wf(),
        mirrors(c, before, shadow, i),
        forall|x: int| 4 * i <= x < 4 * i + 4 && !covered(ranges, x) ==> raw[x] == before[x],
    ensures
        retained(c, raw, shadow, ranges, i),
{
    lemma_le_range(before, 4 * i, 4);
    lemma_sizes();
    c.lemma_round_trip(Width::W32, slot_word(before, i));
    reveal_with_fuel(le, 5);
    reveal_with_fuel(byte_at, 5);
    let (b0, b1, b2, b3) = (
        before[4 * i],
        before[4 * i + 1],
        before[4 * i + 2],
        before[4 * i + 3],
    );
    let w = slot_word(before, i);
    assert(w == b0 + 0x100 * b1 + 0x1_0000 * b2 + 0x100_0000 * b3);
    assert(w / 0x100 == b1 + 0x100 * b2 + 0x1_0000 * b3);
    assert(w / 0x100 / 0x100 == b2 + 0x100 * b3);
    assert(w / 0x100 / 0x100 / 0x100 == b3);
    assert(byte_at(w, 0) == b0);
    assert(byte_at(w, 1) == b1);
    assert(byte_at(w, 2) == b2);
    assert(byte_at(w, 3) == b3);
    assert forall|p: int| 0 <= p < 4 && !#[trigger] covered(ranges, 4 * i + p) implies raw[4 * i
        + p] == byte_at(w, p as nat) by {}
}

/// Ranges that cover everything that has changed since every slot mirrored its bytes are
/// accepted, whichever slots they share, and afterwards every slot mirrors its bytes again.
pub proof fn lemma_resync_accepts(
    c: Codec,
    before: Seq<u8>,
    raw: Seq<u8>,
    shadow: Seq<u64>,
    ranges: Seq<ByteRange>,
)
    requires
        c.wf(),
        raw.len() == before.len() == 4 * shadow.len(),
        forall|i: int| 0 <= i < shadow.len() ==> #[trigger] mirrors(c, before, shadow, i),
        forall|x: int| 0 <= x < raw.len() && !covered(ranges, x) ==> raw[x] == before[x],
    ensures
        resyncable(c, raw, shadow, ranges),
        forall|i: int|
            0 <= i < shadow.len() ==> #[trigger] mirrors(
                c,
                raw,
                resynced(c, raw, shadow, ranges),
                i,
            ),
{
    let len = raw.len() as int;
    assert forall|i: int| #[trigger] touched(ranges, len, i) implies retained(
        c,
        raw,
        shadow,
        ranges,
        i,
    ) by {
        let k = choose|k: int|
            0 <= k < ranges.len() && #[trigger] range_touches(ranges[k], len, i);
        assert(mirrors(c, before, shadow, i));
        lemma_retained(c, before, raw, shadow, ranges, i);
    }
    assert forall|i: int| 0 <= i < shadow.len() implies #[trigger] mirrors(
        c,
        raw,
        resynced(c, raw, shadow, ranges),
        i,
    ) by {
        assert(mirrors(c, before, shadow, i));
        if !touched(ranges, len, i) {
            assert forall|x: int| 4 * i <= x < 4 * i + 4 implies raw[x] == before[x] by {
                if covered(ranges, x) {
                    let k = choose|k: int| 0 <= k < ranges.len() && (#[trigger] ranges[k]).has(x);
                    assert(range_touches(ranges[k], len, i));
                }
            }
            crate::bytes::lemma_le_same(raw, before, 4 * i, 4);
            assert(mirrors(c, raw, shadow, i));
        }
        lemma_resync_consistent(c, raw, shadow, ranges, i);
    }
}

} // verus!
