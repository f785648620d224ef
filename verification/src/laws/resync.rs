//! Bringing the shadow along.
use super::bytes::{digit256, holds, lemma_byte_at, lemma_four};
use crate::bytes::byte_at;
use crate::codec::Codec;
use crate::dirty::{covered, ByteRange};
use crate::memory::resync::{
    lemma_resync_consistent, range_touches, resyncable, resynced, retained, touched,
};
use crate::memory::state::AnMemory;
use vstd::prelude::*;

verus! {

/// One of the ranges holds the byte at `x`.
pub open spec fn within(ranges: Seq<ByteRange>, x: int) -> bool {
    exists|k: int| 0 <= k < ranges.len() && (#[trigger] ranges[k]).start <= x < ranges[k].end
}

/// Some byte of slot `i` is in the ranges.
pub open spec fn reached(ranges: Seq<ByteRange>, i: int) -> bool {
    within(ranges, 4 * i) || within(ranges, 4 * i + 1) || within(ranges, 4 * i + 2) || within(
        ranges,
        4 * i + 3,
    )
}

/// Every byte of slot `i` is in the ranges.
pub open spec fn filled(ranges: Seq<ByteRange>, i: int) -> bool {
    within(ranges, 4 * i) && within(ranges, 4 * i + 1) && within(ranges, 4 * i + 2) && within(
        ranges,
        4 * i + 3,
    )
}

/// The slot is the constant times a 32-bit number, and the bytes at `4 * i` and following that
/// the ranges leave out are those of the number.
pub open spec fn accounts_for(
    a: int,
    slot: int,
    raw: Seq<u8>,
    ranges: Seq<ByteRange>,
    i: int,
) -> bool {
    &&& slot % a == 0
    &&& slot / a < 0x1_0000_0000
    &&& within(ranges, 4 * i) || raw[4 * i] == digit256(slot / a, 0)
    &&& within(ranges, 4 * i + 1) || raw[4 * i + 1] == digit256(slot / a, 1)
    &&& within(ranges, 4 * i + 2) || raw[4 * i + 2] == digit256(slot / a, 2)
    &&& within(ranges, 4 * i + 3) || raw[4 * i + 3] == digit256(slot / a, 3)
}

/// The shadow was brought along with what was written in the ranges: unless a slot that they
/// reach in part does not account for its other bytes, every slot that they reach holds its
/// bytes, and no other slot has changed. Where one does not, nothing has.
pub open spec fn refreshed(
    a: int,
    raw: Seq<u8>,
    before: Seq<u64>,
    after: Seq<u64>,
    ranges: Seq<ByteRange>,
    ok: bool,
) -> bool {
    &&& after.len() == before.len()
    &&& ok <==> forall|i: int|
        0 <= i < before.len() && reached(ranges, i) && !filled(ranges, i) ==> accounts_for(
            a,
            #[trigger] before[i] as int,
            raw,
            ranges,
            i,
        )
    &&& !ok ==> after == before
    &&& ok ==> forall|i: int|
        0 <= i < before.len() ==> if reached(ranges, i) {
            holds(a, #[trigger] after[i] as int, raw, i)
        } else {
            after[i] == before[i]
        }
}

/// A range touches the slots that it reaches.
proof fn lemma_reached(ranges: Seq<ByteRange>, len: int, i: int)
    requires
        0 <= i,
        4 * i + 4 <= len,
    ensures
        touched(ranges, len, i) <==> reached(ranges, i),
        forall|x: int| covered(ranges, x) <==> within(ranges, x),
{
    assert forall|x: int| covered(ranges, x) <==> within(ranges, x) by {
        if covered(ranges, x) {
            let k = choose|k: int| 0 <= k < ranges.len() && (#[trigger] ranges[k]).has(x);
            assert(ranges[k].start <= x < ranges[k].end);
        }
        if within(ranges, x) {
            let k = choose|k: int|
                0 <= k < ranges.len() && (#[trigger] ranges[k]).start <= x < ranges[k].end;
            assert(ranges[k].has(x));
        }
    }
    if touched(ranges, len, i) {
        let k = choose|k: int|
            0 <= k < ranges.len() && #[trigger] range_touches(ranges[k], len, i);
        let r = ranges[k];
        let x = if r.start > 4 * i {
            r.start as int
        } else {
            4 * i
        };
        assert(r.start <= x < r.end);
        assert(x == 4 * i || x == 4 * i + 1 || x == 4 * i + 2 || x == 4 * i + 3);
        assert(within(ranges, x));
    }
    if reached(ranges, i) {
        let x = if within(ranges, 4 * i) {
            4 * i
        } else if within(ranges, 4 * i + 1) {
            4 * i + 1
        } else if within(ranges, 4 * i + 2) {
            4 * i + 2
        } else {
            4 * i + 3
        };
        let k = choose|k: int|
            0 <= k < ranges.len() && (#[trigger] ranges[k]).start <= x < ranges[k].end;
        assert(range_touches(ranges[k], len, i));
    }
}

/// What a resync comes to.
pub proof fn lemma_refreshed(c: Codec, raw: Seq<u8>, shadow: Seq<u64>, ranges: Seq<ByteRange>)
    requires
        c.wf(),
        raw.len() == 4 * shadow.len(),
    ensures
        ({
            let ok = resyncable(c, raw, shadow, ranges);
            let after = if ok {
                resynced(c, raw, shadow, ranges)
            } else {
                shadow
            };
            refreshed(c.a as int, raw, shadow, after, ranges, ok)
        }),
{
    let (a, len) = (c.a as int, raw.len() as int);
    let ok = resyncable(c, raw, shadow, ranges);
    assert forall|i: int| 0 <= i < shadow.len() implies (reached(ranges, i) <==> touched(
        ranges,
        len,
        i,
    )) && (reached(ranges, i) ==> (retained(c, raw, shadow, ranges, i) <==> filled(ranges, i)
        || accounts_for(a, #[trigger] shadow[i] as int, raw, ranges, i))) by {
        lemma_reached(ranges, len, i);
        let w = shadow[i] as int / a;
        assert(0 <= w) by (nonlinear_arith)
            requires
                w == shadow[i] as int / a,
                a > 0,
        ;
        lemma_byte_at(w, 0);
        lemma_byte_at(w, 1);
        lemma_byte_at(w, 2);
        lemma_byte_at(w, 3);
        assert(covered(ranges, 4 * i + 0) == within(ranges, 4 * i));
        assert(covered(ranges, 4 * i + 1) == within(ranges, 4 * i + 1));
        assert(covered(ranges, 4 * i + 2) == within(ranges, 4 * i + 2));
        assert(covered(ranges, 4 * i + 3) == within(ranges, 4 * i + 3));
        if filled(ranges, i) {
            assert forall|p: int| 0 <= p < 4 implies #[trigger] covered(ranges, 4 * i + p) by {}
        }
        if accounts_for(a, shadow[i] as int, raw, ranges, i) {
            assert forall|p: int| 0 <= p < 4 && !#[trigger] covered(
                ranges,
                4 * i + p,
            ) implies raw[4 * i + p] == byte_at(w, p as nat) by {}
        }
    }
    assert(ok <==> forall|i: int|
        0 <= i < shadow.len() && reached(ranges, i) && !filled(ranges, i) ==> accounts_for(
            a,
            #[trigger] shadow[i] as int,
            raw,
            ranges,
            i,
        )) by {
        if ok {
            assert forall|i: int|
                0 <= i < shadow.len() && reached(ranges, i) && !filled(
                    ranges,
                    i,
                ) implies accounts_for(a, #[trigger] shadow[i] as int, raw, ranges, i) by {
                lemma_reached(ranges, len, i);
            }
        } else {
            let i = choose|i: int|
                #[trigger] touched(ranges, len, i) && !retained(c, raw, shadow, ranges, i);
            let k = choose|k: int|
                0 <= k < ranges.len() && #[trigger] range_touches(ranges[k], len, i);
            assert(0 <= i < shadow.len());
            lemma_reached(ranges, len, i);
        }
    }
    if ok {
        let after = resynced(c, raw, shadow, ranges);
        assert forall|i: int| 0 <= i < shadow.len() implies if reached(ranges, i) {
            holds(a, #[trigger] after[i] as int, raw, i)
        } else {
            after[i] == shadow[i]
        } by {
            lemma_reached(ranges, len, i);
            if reached(ranges, i) {
                lemma_resync_consistent(c, raw, shadow, ranges, i);
                lemma_four(raw, i);
            }
        }
    }
}

/// Encoding the slots of some ranges anew brings the shadow along with the bytes of the ranges.
pub proof fn law_resync_ranges(m: &mut AnMemory, ranges: Vec<ByteRange>, ok: bool)
    requires
        old(m).wf(),
        call_ensures(AnMemory::resync_ranges, (m, &ranges), ok),
    ensures
        final(m).raw@ == old(m).raw@,
        final(m).codec == old(m).codec,
        final(m).an_encoding == old(m).an_encoding,
        final(m).index == old(m).index,
        final(m).max_pages == old(m).max_pages,
        final(m).whole_dirty == old(m).whole_dirty,
        !old(m).an_encoding ==> ok && final(m).shadow@ == old(m).shadow@,
        old(m).an_encoding ==> refreshed(
            old(m).codec.a as int,
            old(m).raw@,
            old(m).shadow@,
            final(m).shadow@,
            ranges@,
            ok,
        ),
{
    let m0 = *old(m);
    if m0.an_encoding {
        lemma_refreshed(m0.codec, m0.raw@, m0.shadow@, ranges@);
    }
}

/// Where the host has held the whole memory, every slot then holds its bytes, and the mark is
/// gone; else nothing changes. The bytes never do.
pub proof fn law_heal(m: &mut AnMemory)
    requires
        old(m).wf(),
        call_ensures(AnMemory::heal, (m,), ()),
    ensures
        !final(m).whole_dirty,
        final(m).raw@ == old(m).raw@,
        final(m).shadow@.len() == old(m).shadow@.len(),
        final(m).codec == old(m).codec,
        final(m).an_encoding == old(m).an_encoding,
        !old(m).whole_dirty ==> final(m).shadow@ == old(m).shadow@,
        old(m).whole_dirty ==> forall|i: int|
            0 <= i < final(m).shadow@.len() ==> holds(
                old(m).codec.a as int,
                #[trigger] final(m).shadow@[i] as int,
                final(m).raw@,
                i,
            ),
{
    let (m0, t) = (*old(m), *final(m));
    if m0.whole_dirty {
        assert forall|i: int| 0 <= i < t.shadow@.len() implies holds(
            m0.codec.a as int,
            #[trigger] t.shadow@[i] as int,
            t.raw@,
            i,
        ) by {
            assert(t.slot_ok(i));
            lemma_four(t.raw@, i);
        }
    }
}

} // verus!
