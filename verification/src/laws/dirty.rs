//! The record of what the host has written.
use super::resync::within;
use crate::dirty::{
    bounding, covered, lemma_recorded_covers, lemma_recorded_exact, saturated, ByteRange,
    DirtyRanges,
};
use vstd::prelude::*;

verus! {

/// Two ways to say that the ranges hold a byte.
pub proof fn lemma_within(ranges: Seq<ByteRange>, x: int)
    ensures
        covered(ranges, x) <==> within(ranges, x),
{
    if covered(ranges, x) {
        let k = choose|k: int| 0 <= k < ranges.len() && (#[trigger] ranges[k]).has(x);
        assert(ranges[k].start <= x < ranges[k].end);
    }
    if within(ranges, x) {
        let k = choose|k: int|
            0 <= k < ranges.len() && (#[trigger] ranges[k]).start <= x < ranges[k].end;
        assert(ranges[k].has(x));
    }
}

/// The bounding range ends at ends that are there.
proof fn lemma_bounding_tight(ranges: Seq<ByteRange>, r: ByteRange)
    ensures
        ({
            let b = bounding(ranges, r);
            &&& b.start <= r.start && b.end >= r.end
            &&& forall|k: int|
                0 <= k < ranges.len() ==> b.start <= (#[trigger] ranges[k]).start && b.end
                    >= ranges[k].end
            &&& b.start == r.start || exists|k: int|
                0 <= k < ranges.len() && b.start == (#[trigger] ranges[k]).start
            &&& b.end == r.end || exists|k: int|
                0 <= k < ranges.len() && b.end == (#[trigger] ranges[k]).end
        }),
    decreases ranges.len(),
{
    if ranges.len() > 0 {
        let part = ranges.drop_last();
        let (b, c) = (bounding(ranges, r), bounding(part, r));
        lemma_bounding_tight(part, r);
        let last = ranges[ranges.len() - 1];
        assert forall|k: int| 0 <= k < ranges.len() implies b.start <= (
        #[trigger] ranges[k]).start && b.end >= ranges[k].end by {
            if k < part.len() {
                assert(part[k] == ranges[k]);
            }
        }
        if b.start != r.start {
            if b.start == last.start {
                assert(ranges[ranges.len() - 1].start == b.start);
            } else {
                let k = choose|k: int|
                    0 <= k < part.len() && c.start == (#[trigger] part[k]).start;
                assert(ranges[k].start == b.start);
            }
        }
        if b.end != r.end {
            if b.end == last.end {
                assert(ranges[ranges.len() - 1].end == b.end);
            } else {
                let k = choose|k: int| 0 <= k < part.len() && c.end == (#[trigger] part[k]).end;
                assert(ranges[k].end == b.end);
            }
        }
    }
}

/// The record of a write: nothing that is in the record or in the write is lost, and the record
/// never holds more than 128 ranges. A write that touches the range recorded last extends that
/// range by no more than it takes; any other is recorded as it is, unless the record is full,
/// which then becomes one range that reaches from the least start to the greatest end.
pub proof fn law_record(d: &mut DirtyRanges, offset: usize, len: usize)
    requires
        old(d).ranges@.len() <= 128,
        call_ensures(DirtyRanges::record, (d, offset, len), ()),
    ensures
        ({
            let (before, after) = (old(d).ranges@, final(d).ranges@);
            let end = if offset + len > usize::MAX {
                usize::MAX as int
            } else {
                offset + len
            };
            let n = before.len() as int;
            let touching = n > 0 && offset <= before[n - 1].end && end >= before[n - 1].start;
            &&& after.len() <= 128
            &&& len == 0 ==> after == before
            &&& forall|x: int|
                within(before, x) || offset <= x < end ==> #[trigger] within(after, x)
            &&& len > 0 && touching ==> {
                &&& after.len() == n
                &&& forall|k: int| 0 <= k < n - 1 ==> #[trigger] after[k] == before[k]
                &&& after[n - 1].start == if offset < before[n - 1].start {
                    offset
                } else {
                    before[n - 1].start
                }
                &&& after[n - 1].end == if end > before[n - 1].end {
                    end
                } else {
                    before[n - 1].end as int
                }
            }
            &&& len > 0 && !touching && n < 128 ==> {
                &&& after.len() == n + 1
                &&& forall|k: int| 0 <= k < n ==> #[trigger] after[k] == before[k]
                &&& after[n].start == offset
                &&& after[n].end == end
            }
            &&& len > 0 && !touching && n == 128 ==> {
                &&& after.len() == 1
                &&& after[0].start <= offset && after[0].end >= end
                &&& forall|k: int|
                    0 <= k < n ==> after[0].start <= (#[trigger] before[k]).start && after[0].end
                        >= before[k].end
                &&& after[0].start == offset || exists|k: int|
                    0 <= k < n && after[0].start == (#[trigger] before[k]).start
                &&& after[0].end == end || exists|k: int|
                    0 <= k < n && after[0].end == (#[trigger] before[k]).end
            }
        }),
{
    let (before, after) = (old(d).ranges@, final(d).ranges@);
    let end = saturated(offset as int, len as int);
    assert forall|x: int| within(before, x) || offset <= x < end implies #[trigger] within(
        after,
        x,
    ) by {
        lemma_within(before, x);
        lemma_within(after, x);
        lemma_recorded_covers(before, offset, len, x);
    }
    lemma_bounding_tight(before, ByteRange { start: offset, end: end as usize });
}

/// A record that is not full, or whose last range the write touches, holds no byte that was
/// neither written before nor by this write.
pub proof fn law_record_exact(d: &mut DirtyRanges, offset: usize, len: usize, x: int)
    requires
        old(d).ranges@.len() < 128,
        forall|i: int|
            0 <= i < old(d).ranges@.len() ==> (#[trigger] old(d).ranges@[i]).start <= old(
                d).ranges@[i].end,
        call_ensures(DirtyRanges::record, (d, offset, len), ()),
        within(final(d).ranges@, x),
    ensures
        within(old(d).ranges@, x) || offset <= x < offset + len,
{
    lemma_within(old(d).ranges@, x);
    lemma_within(final(d).ranges@, x);
    lemma_recorded_exact(old(d).ranges@, offset, len, x);
}

/// Taking the record gives all of it and leaves nothing; a new record is empty.
pub proof fn law_take(d: &mut DirtyRanges, r: Vec<ByteRange>, empty: bool, fresh: DirtyRanges)
    requires
        call_ensures(DirtyRanges::take, (d,), r),
        call_ensures(DirtyRanges::is_empty, (&*old(d),), empty),
        call_ensures(DirtyRanges::new, (), fresh),
    ensures
        r@ == old(d).ranges@,
        final(d).ranges@.len() == 0,
        empty <==> old(d).ranges@.len() == 0,
        fresh.ranges@.len() == 0,
{
}

} // verus!
