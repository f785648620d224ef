//! The record of byte ranges that the host has written.
use vstd::prelude::*;

verus! {

/// The bytes from `start` up to, not including, `end`.
#[derive(Clone, Copy, Debug, PartialEq, Eq, Structural)]
pub struct ByteRange {
    pub start: usize,
    pub end: usize,
}

impl ByteRange {
    /// Whether the byte at `x` is in the range.
    pub open spec fn has(self, x: int) -> bool {
        self.start <= x < self.end
    }
}

/// Whether the byte at `x` is in one of the ranges.
pub open spec fn covered(ranges: Seq<ByteRange>, x: int) -> bool {
    exists|i: int| 0 <= i < ranges.len() && (#[trigger] ranges[i]).has(x)
}

/// The number of ranges beyond which the record collapses into one.
pub const MAX_DIRTY_RANGES: usize = 128;

/// The sum of two addresses, at most the largest one.
pub open spec fn saturated(offset: int, len: int) -> int {
    if offset + len > usize::MAX {
        usize::MAX as int
    } else {
        offset + len
    }
}

/// The lesser of two addresses.
pub open spec fn least(a: usize, b: usize) -> usize {
    if a <= b {
        a
    } else {
        b
    }
}

/// The greater of two addresses.
pub open spec fn greatest(a: usize, b: usize) -> usize {
    if a >= b {
        a
    } else {
        b
    }
}

/// The least range that holds all of these and one more.
pub open spec fn bounding(ranges: Seq<ByteRange>, r: ByteRange) -> ByteRange
    decreases ranges.len(),
{
    if ranges.len() == 0 {
        r
    } else {
        let b = bounding(ranges.drop_last(), r);
        ByteRange {
            start: least(b.start, ranges.last().start),
            end: greatest(b.end, ranges.last().end),
        }
    }
}

/// Whether a write touches the range recorded last, which it then extends.
pub open spec fn joins(ranges: Seq<ByteRange>, offset: usize, len: usize) -> bool {
    &&& ranges.len() > 0
    &&& offset <= ranges.last().end
    &&& saturated(offset as int, len as int) >= ranges.last().start
}

/// The record after the write of `len` bytes at `offset`: a write that touches the range
/// recorded last extends it, and a record that is full collapses into its bounding range.
pub open spec fn recorded(ranges: Seq<ByteRange>, offset: usize, len: usize) -> Seq<ByteRange> {
    let r = ByteRange { start: offset, end: saturated(offset as int, len as int) as usize };
    if len == 0 {
        ranges
    } else if joins(ranges, offset, len) {
        ranges.drop_last().push(
            ByteRange {
                start: least(ranges.last().start, r.start),
                end: greatest(ranges.last().end, r.end),
            },
        )
    } else if ranges.len() >= MAX_DIRTY_RANGES {
        seq![bounding(ranges, r)]
    } else {
        ranges.push(r)
    }
}

/// The byte ranges that the host has written since the record was last taken.
pub struct DirtyRanges {
    pub ranges: Vec<ByteRange>,
}

impl View for DirtyRanges {
    type V = Seq<ByteRange>;

    open spec fn view(&self) -> Seq<ByteRange> {
        self.ranges@
    }
}

impl DirtyRanges {
    /// The record never holds more than a fixed number of ranges.
    pub open spec fn wf(self) -> bool {
        self@.len() <= MAX_DIRTY_RANGES
    }

    /// An empty record.
    pub fn new() -> (r: DirtyRanges)
        ensures
            r.wf(),
            r@ == Seq::<ByteRange>::empty(),
    {
        DirtyRanges { ranges: Vec::new() }
    }

    /// Records the write of `len` bytes at `offset`.
    pub fn record(&mut self, offset: usize, len: usize)
        requires
            old(self).wf(),
        ensures
            final(self).wf(),
            final(self)@ == recorded(old(self)@, offset, len),
    {
        if len == 0 {
            return ;
        }
        let end: usize = if len > usize::MAX - offset {
            usize::MAX
        } else {
            offset + len
        };
        let n: usize = self.ranges.len();
        if n > 0 {
            let last: ByteRange = self.ranges[n - 1];
            if offset <= last.end && end >= last.start {
                let joined = ByteRange {
                    start: if last.start <= offset {
                        last.start
                    } else {
                        offset
                    },
                    end: if last.end >= end {
                        last.end
                    } else {
                        end
                    },
                };
                self.ranges.set(n - 1, joined);
                assert(self@ =~= old(self)@.drop_last().push(joined));
                return ;
            }
        }
        if n >= MAX_DIRTY_RANGES {
            let mut start: usize = offset;
            let mut max_end: usize = end;
            let mut i: usize = 0;
            while i < n
                invariant
                    n == self@.len(),
                    i <= n,
                    (ByteRange { start, end: max_end }) == bounding(
                        self@.take(i as int),
                        ByteRange { start: offset, end },
                    ),
                decreases n - i,
            {
                let r: ByteRange = self.ranges[i];
                if r.start < start {
                    start = r.start;
                }
                if r.end > max_end {
                    max_end = r.end;
                }
                i = i + 1;
                assert(self@.take(i as int).drop_last() =~= self@.take(i - 1));
            }
            assert(self@.take(n as int) =~= self@);
            let all = ByteRange { start, end: max_end };
            self.ranges.clear();
            self.ranges.push(all);
            assert(self@ =~= seq![all]);
            return ;
        }
        self.ranges.push(ByteRange { start: offset, end });
    }

    /// Takes the recorded ranges and leaves the record empty.
    pub fn take(&mut self) -> (r: Vec<ByteRange>)
        ensures
            r@ == old(self)@,
            final(self).wf(),
            final(self)@ == Seq::<ByteRange>::empty(),
    {
        let mut out: Vec<ByteRange> = Vec::new();
        std::mem::swap(&mut out, &mut self.ranges);
        out
    }

    /// Whether nothing is recorded.
    pub fn is_empty(&self) -> (r: bool)
        ensures
            r <==> self@.len() == 0,
    {
        self.ranges.len() == 0
    }
}

/// The bounding range holds every byte of the ranges.
proof fn lemma_bounding(ranges: Seq<ByteRange>, r: ByteRange, x: int)
    ensures
        r.has(x) || covered(ranges, x) ==> bounding(ranges, r).has(x),
        bounding(ranges, r).start <= r.start,
        bounding(ranges, r).end >= r.end,
    decreases ranges.len(),
{
    if ranges.len() > 0 {
        lemma_bounding(ranges.drop_last(), r, x);
        if covered(ranges, x) {
            let i = choose|i: int| 0 <= i < ranges.len() && (#[trigger] ranges[i]).has(x);
            if i < ranges.len() - 1 {
                assert(ranges.drop_last()[i].has(x));
            }
        }
    }
}

/// Nothing that was written is lost: what was covered before stays covered, and so is every
/// byte of the write.
pub proof fn lemma_recorded_covers(ranges: Seq<ByteRange>, offset: usize, len: usize, x: int)
    requires
        covered(ranges, x) || offset <= x < saturated(offset as int, len as int),
    ensures
        covered(recorded(ranges, offset, len), x),
{
    let r = ByteRange { start: offset, end: saturated(offset as int, len as int) as usize };
    let after = recorded(ranges, offset, len);
    if len == 0 {
    } else if joins(ranges, offset, len) {
        if covered(ranges, x) {
            let i = choose|i: int| 0 <= i < ranges.len() && (#[trigger] ranges[i]).has(x);
            assert(after[i].has(x));
        } else {
            assert(after[ranges.len() - 1].has(x));
        }
    } else if ranges.len() >= MAX_DIRTY_RANGES {
        lemma_bounding(ranges, r, x);
        assert(after[0].has(x));
    } else {
        if covered(ranges, x) {
            let i = choose|i: int| 0 <= i < ranges.len() && (#[trigger] ranges[i]).has(x);
            assert(after[i].has(x));
        } else {
            assert(after[ranges.len() as int].has(x));
        }
    }
}

/// As long as the record is not full, or the write touches the range recorded last, it is exact:
/// a byte that is neither covered before nor written is not covered.
pub proof fn lemma_recorded_exact(ranges: Seq<ByteRange>, offset: usize, len: usize, x: int)
    requires
        ranges.len() < MAX_DIRTY_RANGES || joins(ranges, offset, len),
        forall|i: int| 0 <= i < ranges.len() ==> (#[trigger] ranges[i]).start <= ranges[i].end,
        covered(recorded(ranges, offset, len), x),
    ensures
        covered(ranges, x) || offset <= x < saturated(offset as int, len as int),
{
    let r = ByteRange { start: offset, end: saturated(offset as int, len as int) as usize };
    let after = recorded(ranges, offset, len);
    let i = choose|i: int| 0 <= i < after.len() && (#[trigger] after[i]).has(x);
    if len == 0 {
    } else if i < ranges.len() - 1 {
        assert(ranges[i].has(x));
    } else if joins(ranges, offset, len) {
        if !r.has(x) {
            assert(ranges[ranges.len() - 1].has(x));
        }
    } else if i < ranges.len() {
        assert(ranges[i].has(x));
    }
}

/// Whether every range holds a byte.
pub open spec fn nonempty(ranges: Seq<ByteRange>) -> bool {
    forall|i: int| 0 <= i < ranges.len() ==> (#[trigger] ranges[i]).start < ranges[i].end
}

/// Every recorded range holds a byte, as long as no write starts at the largest address.
pub proof fn lemma_recorded_nonempty(ranges: Seq<ByteRange>, offset: usize, len: usize)
    requires
        nonempty(ranges),
        offset < usize::MAX,
    ensures
        nonempty(recorded(ranges, offset, len)),
{
    let r = ByteRange { start: offset, end: saturated(offset as int, len as int) as usize };
    let after = recorded(ranges, offset, len);
    assert forall|i: int| 0 <= i < after.len() implies (#[trigger] after[i]).start
        < after[i].end by {
        if i < ranges.len() {
            assert(ranges[i].start < ranges[i].end);
        }
        if len > 0 && !joins(ranges, offset, len) && ranges.len() >= MAX_DIRTY_RANGES {
            lemma_bounding(ranges, r, offset as int);
        }
    }
}

/// The record after a sequence of writes, each an offset and a length, that starts empty.
pub open spec fn recorded_all(writes: Seq<(usize, usize)>) -> Seq<ByteRange>
    decreases writes.len(),
{
    if writes.len() == 0 {
        Seq::empty()
    } else {
        recorded(recorded_all(writes.drop_last()), writes.last().0, writes.last().1)
    }
}

/// Whatever is written to an empty record, the record stays bounded, every range of it holds a
/// byte, and every byte of every write is covered, also after a collapse.
pub proof fn lemma_recorded_all(writes: Seq<(usize, usize)>)
    requires
        forall|k: int| 0 <= k < writes.len() ==> (#[trigger] writes[k]).0 < usize::MAX,
    ensures
        recorded_all(writes).len() <= MAX_DIRTY_RANGES,
        nonempty(recorded_all(writes)),
        forall|k: int, x: int|
            0 <= k < writes.len() && (#[trigger] writes[k]).0 <= x < saturated(
                writes[k].0 as int,
                writes[k].1 as int,
            ) ==> #[trigger] covered(recorded_all(writes), x),
    decreases writes.len(),
{
    if writes.len() > 0 {
        let (before, w) = (writes.drop_last(), writes.last());
        assert forall|k: int| 0 <= k < before.len() implies (#[trigger] before[k]).0
            < usize::MAX by {
            assert(before[k] == writes[k]);
        }
        lemma_recorded_all(before);
        assert(writes[writes.len() - 1] == w);
        lemma_recorded_nonempty(recorded_all(before), w.0, w.1);
        assert forall|k: int, x: int|
            0 <= k < writes.len() && (#[trigger] writes[k]).0 <= x < saturated(
                writes[k].0 as int,
                writes[k].1 as int,
            ) implies #[trigger] covered(recorded_all(writes), x) by {
            if k < before.len() {
                assert(before[k] == writes[k]);
                assert(covered(recorded_all(before), x));
            }
            lemma_recorded_covers(recorded_all(before), w.0, w.1, x);
        }
    }
}

} // verus!
