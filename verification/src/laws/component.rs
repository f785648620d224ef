//! Lowering, lifting and host calls.
use super::bulk::{lemma_sound, sound};
use super::bytes::{lemma_spells, spells};
use super::dirty::lemma_within;
use super::resync::{lemma_refreshed, refreshed, within};
use crate::component::{
    BorrowLowering, HostcallFuelExhausted, LiftContext, LowerContext, LowerError, ReallocCall,
};
use crate::dirty::{lemma_recorded_covers, saturated};
use crate::guest_memory::GuestMemory;
use crate::hostcall::{begin_hostcall, end_hostcall, HostcallError};
use crate::memory::state::AnMemory;
use crate::traps::Trap;
use vstd::prelude::*;

verus! {

/// The context lent `len` bytes at `start`: `after` is in their place, everything from `start`
/// up to `end` is in the record with what was there before, and nothing else has changed.
pub open spec fn lent_out(
    cx: LowerContext,
    t: LowerContext,
    start: int,
    len: int,
    after: Seq<u8>,
    end: int,
) -> bool {
    let (m, n) = (cx.memory->0, t.memory->0);
    &&& t.memory is Some
    &&& t.allow_realloc == cx.allow_realloc
    &&& n.codec == m.codec
    &&& n.an_encoding == m.an_encoding
    &&& n.whole_dirty == m.whole_dirty
    &&& n.shadow@ == m.shadow@
    &&& after.len() == len ==> n.raw@.len() == m.raw@.len() && forall|j: int|
        0 <= j < m.raw@.len() ==> #[trigger] n.raw@[j] == if start <= j < start + len {
            after[j - start]
        } else {
            m.raw@[j]
        }
    &&& forall|x: int|
        within(cx.an_dirty.ranges@, x) || start <= x < end ==> #[trigger] within(
            t.an_dirty.ranges@,
            x,
        )
}

/// The record of a loan.
proof fn lemma_lent(cx: LowerContext, t: LowerContext, raw: Seq<u8>, start: usize, len: usize)
    requires
        cx.lent(t, raw, start, len),
    ensures
        forall|x: int|
            within(cx.an_dirty.ranges@, x) || start <= x < saturated(start as int, len as int)
                ==> #[trigger] within(t.an_dirty.ranges@, x),
{
    assert forall|x: int|
        within(cx.an_dirty.ranges@, x) || start <= x < saturated(
            start as int,
            len as int,
        ) implies #[trigger] within(t.an_dirty.ranges@, x) by {
        lemma_within(cx.an_dirty.ranges@, x);
        lemma_within(t.an_dirty.ranges@, x);
        lemma_recorded_covers(cx.an_dirty@, start, len, x);
    }
}

/// A borrow of a range shows its bytes; what is written through it stands in their place, and the
/// range is recorded.
pub proof fn law_slice_mut(cx: &mut LowerContext, offset: usize, len: usize, r: &mut [u8])
    requires
        old(cx).memory is Some,
        offset + len <= old(cx).memory->0.raw@.len(),
        call_ensures(LowerContext::slice_mut, (cx, offset, len), r),
    ensures
        old(r)@.len() == len,
        forall|k: int| 0 <= k < len ==> #[trigger] old(r)@[k] == old(cx).memory->0.raw@[offset + k],
        lent_out(*old(cx), *final(cx), offset as int, len as int, final(r)@, offset + len),
{
    let (c0, t) = (*old(cx), *final(cx));
    vstd::std_specs::vec::axiom_spec_len(&c0.memory->0.raw);
    lemma_lent(c0, t, t.memory->0.raw@, offset, len);
}

/// A borrow of an array shows its bytes; what is written through it stands in their place, and
/// the range is recorded.
pub proof fn law_get<const N: usize>(cx: &mut LowerContext, offset: usize, r: &mut [u8; N])
    requires
        old(cx).memory is Some,
        offset + N <= old(cx).memory->0.raw@.len(),
        call_ensures(LowerContext::get::<N>, (cx, offset), r),
    ensures
        forall|k: int| 0 <= k < N ==> #[trigger] old(r)@[k] == old(cx).memory->0.raw@[offset + k],
        lent_out(*old(cx), *final(cx), offset as int, N as int, final(r)@, offset + N),
{
    let (c0, t) = (*old(cx), *final(cx));
    vstd::std_specs::vec::axiom_spec_len(&c0.memory->0.raw);
    lemma_lent(c0, t, t.memory->0.raw@, offset, N);
}

/// A borrow of the whole memory shows its bytes and records every address. It is given only
/// where every slot holds its bytes, or nothing is compared.
pub proof fn law_try_as_slice_mut(cx: &mut LowerContext, r: Result<&mut [u8], Trap>)
    requires
        old(cx).wf(),
        old(cx).memory is Some,
        call_ensures(LowerContext::try_as_slice_mut, (cx,), r),
    ensures
        ({
            let m = old(cx).memory->0;
            &&& r is Ok <==> !m.an_encoding || m.whole_dirty || m.raw@.len() == 0 || sound(
                m,
                0,
                m.raw@.len() as int,
            )
            &&& match r {
                Ok(data) => data@ == m.raw@ && lent_out(
                    *old(cx),
                    *final(cx),
                    0,
                    m.raw@.len() as int,
                    final(data)@,
                    usize::MAX as int,
                ),
                Err(t) => t == Trap::AnMemoryMismatch && *final(cx) == *old(cx),
            }
        }),
{
    let (c0, t) = (*old(cx), *final(cx));
    lemma_sound(c0.memory->0, 0, c0.memory->0.raw@.len() as int);
    if r is Ok {
        lemma_lent(c0, t, t.memory->0.raw@, 0, usize::MAX);
    }
}

/// A borrow of the whole memory shows its bytes and records every address; it is not for a memory
/// with a slot that does not hold its bytes.
pub proof fn law_as_slice_mut(cx: &mut LowerContext, r: &mut [u8])
    requires
        old(cx).wf(),
        old(cx).memory is Some,
        call_ensures(LowerContext::as_slice_mut, (cx,), r),
    ensures
        old(r)@ == old(cx).memory->0.raw@,
        lent_out(
            *old(cx),
            *final(cx),
            0,
            old(cx).memory->0.raw@.len() as int,
            final(r)@,
            usize::MAX as int,
        ),
{
    let (c0, t) = (*old(cx), *final(cx));
    lemma_lent(c0, t, t.memory->0.raw@, 0, usize::MAX);
}

/// The shadow was brought along with the record, which is empty afterwards.
pub open spec fn brought_along(cx: LowerContext, t: LowerContext, ok: bool) -> bool {
    &&& t.allow_realloc == cx.allow_realloc
    &&& t.an_dirty.ranges@.len() == 0
    &&& match cx.memory {
        None => ok && t.memory is None,
        Some(m) => {
            &&& t.memory is Some
            &&& t.memory->0.raw@ == m.raw@
            &&& t.memory->0.codec == m.codec
            &&& t.memory->0.an_encoding == m.an_encoding
            &&& t.memory->0.whole_dirty == m.whole_dirty
            &&& !m.an_encoding ==> ok && t.memory->0.shadow@ == m.shadow@
            &&& m.an_encoding ==> refreshed(
                m.codec.a as int,
                m.raw@,
                m.shadow@,
                t.memory->0.shadow@,
                cx.an_dirty.ranges@,
                ok,
            )
        },
    }
}

/// What a flush comes to.
proof fn lemma_flushed(cx: LowerContext, t: LowerContext, r: Result<(), Trap>)
    requires
        cx.wf(),
        cx.flushed(t, r),
    ensures
        brought_along(cx, t, r is Ok),
        r matches Err(e) ==> e == Trap::AnMemoryMismatch,
{
    if let Some(m) = cx.memory {
        if m.an_encoding {
            lemma_refreshed(m.codec, m.raw@, m.shadow@, cx.an_dirty.ranges@);
        }
    }
}

/// A flush brings the shadow along with everything that was recorded.
pub proof fn law_flush(cx: &mut LowerContext, r: Result<(), Trap>)
    requires
        old(cx).wf(),
        call_ensures(LowerContext::an_flush_dirty, (cx,), r),
    ensures
        brought_along(*old(cx), *final(cx), r is Ok),
        r matches Err(e) ==> e == Trap::AnMemoryMismatch,
{
    lemma_flushed(*old(cx), *final(cx), r);
}

/// An allocation brings the shadow along before the guest runs, and hands the guest the four
/// numbers as they are, where the first, second and fourth fit in 32 bits.
pub proof fn law_realloc(
    cx: &mut LowerContext,
    old_ptr: usize,
    old_size: usize,
    old_align: u32,
    new_size: usize,
    r: Result<ReallocCall, LowerError>,
)
    requires
        old(cx).wf(),
        call_ensures(LowerContext::realloc, (cx, old_ptr, old_size, old_align, new_size), r),
    ensures
        brought_along(*old(cx), *final(cx), !(r matches Err(LowerError::Trap(_)))),
        r matches Err(LowerError::Trap(t)) ==> t == Trap::AnMemoryMismatch,
        r matches Ok(call) ==> call.old == old_ptr && call.old_size == old_size && call.old_align
            == old_align && call.new_size == new_size,
        !(r matches Err(LowerError::Trap(_))) ==> (r is Ok <==> old_ptr <= 0xffff_ffff && old_size
            <= 0xffff_ffff && new_size <= 0xffff_ffff),
        r matches Err(e) ==> e is Trap || e is IntConversion,
{
    let (c0, t) = (*old(cx), *final(cx));
    let f = choose|f: Result<(), Trap>|
        #![trigger c0.flushed(t, f)]
        c0.flushed(t, f) && r == match f {
            Err(t) => Err::<ReallocCall, LowerError>(LowerError::Trap(t)),
            Ok(_) => if old_ptr > u32::MAX || old_size > u32::MAX || new_size > u32::MAX {
                Err(LowerError::IntConversion)
            } else {
                Ok(
                    ReallocCall {
                        old: old_ptr as u32,
                        old_size: old_size as u32,
                        old_align,
                        new_size: new_size as u32,
                    },
                )
            },
        };
    lemma_flushed(c0, t, f);
}

/// What the guest returned is the result where it is aligned and the allocation lies within the
/// memory.
pub proof fn law_realloc_result(
    cx: LowerContext,
    result: u32,
    align: u32,
    size: usize,
    r: Result<usize, LowerError>,
)
    requires
        cx.memory is Some,
        align > 0,
        call_ensures(LowerContext::realloc_result, (&cx, result, align, size), r),
    ensures
        r matches Ok(p) ==> p == result,
        r is Ok <==> result as int % align as int == 0 && result + size
            <= cx.memory->0.raw@.len(),
        result as int % align as int != 0 ==> r == Err::<usize, LowerError>(
            LowerError::ReallocNotAligned,
        ),
        result as int % align as int == 0 && result + size > cx.memory->0.raw@.len() ==> r
            == Err::<usize, LowerError>(LowerError::ReallocBeyondMemory),
{
}

/// A borrow of one's own resource is its representation, any other an entry.
pub proof fn law_lower_borrow(cx: LowerContext, own: bool, rep: u32, r: BorrowLowering)
    requires
        call_ensures(LowerContext::guest_resource_lower_borrow, (&cx, own, rep), r),
    ensures
        own ==> r == BorrowLowering::Raw(rep),
        !own ==> r is Entry,
{
}

/// Lifting gives the bytes of a range within the memory whose slots hold them.
pub proof fn law_memory_checked(
    cx: LiftContext<'_>,
    offset: usize,
    len: usize,
    r: Result<Vec<u8>, Trap>,
)
    requires
        call_ensures(LiftContext::memory_checked, (&cx, offset, len), r),
    ensures
        offset + len > cx.memory.raw@.len() ==> r == Err::<Vec<u8>, Trap>(Trap::MemoryOutOfBounds),
        offset + len <= cx.memory.raw@.len() ==> {
            let ok = !cx.memory.an_encoding || len == 0 || sound(
                *cx.memory,
                offset as int,
                len as int,
            );
            &&& ok ==> r is Ok && r->Ok_0@.len() == len && forall|k: int|
                0 <= k < len ==> #[trigger] r->Ok_0@[k] == cx.memory.raw@[offset + k]
            &&& !ok ==> r == Err::<Vec<u8>, Trap>(Trap::AnMemoryMismatch)
        },
{
    lemma_sound(*cx.memory, offset as int, len as int);
}

/// Two amounts can be taken from the budget exactly if their sum can, and what is left is what
/// is left of the sum; an amount that is too large leaves the budget as it was.
pub proof fn law_fuel(
    cx: &mut LiftContext<'_>,
    a: usize,
    r: Result<(), HostcallFuelExhausted>,
)
    requires
        call_ensures(LiftContext::consume_fuel, (cx, a), r),
    ensures
        r is Ok ==> final(cx).hostcall_fuel + a == old(cx).hostcall_fuel,
        r is Err ==> final(cx).hostcall_fuel == old(cx).hostcall_fuel && a
            > old(cx).hostcall_fuel,
        final(cx).memory == old(cx).memory,
{
}

/// Taking an array from the budget is taking its number of bytes, as a number of any size.
pub proof fn law_fuel_array(
    cx: &mut LiftContext<'_>,
    n: usize,
    size: usize,
    r: Result<(), HostcallFuelExhausted>,
)
    requires
        call_ensures(LiftContext::consume_fuel_array, (cx, n, size), r),
    ensures
        r is Ok ==> final(cx).hostcall_fuel + n * size == old(cx).hostcall_fuel,
        r is Err ==> final(cx).hostcall_fuel == old(cx).hostcall_fuel && n * size
            > old(cx).hostcall_fuel,
        final(cx).memory == old(cx).memory,
{
}

/// Contexts start with the memory and the budget that they are given, and with nothing recorded.
pub proof fn law_contexts(
    memory: Option<AnMemory>,
    with: LowerContext,
    without: LowerContext,
    lifted: &AnMemory,
    fuel: usize,
    lift: LiftContext<'_>,
    bytes: &Vec<u8>,
)
    requires
        call_ensures(LowerContext::new, (memory,), with),
        call_ensures(LowerContext::new_without_realloc, (memory,), without),
        call_ensures(LiftContext::new, (lifted, fuel), lift),
        call_ensures(LiftContext::memory, (&lift,), bytes),
    ensures
        with.memory == memory && without.memory == memory,
        with.allow_realloc && !without.allow_realloc,
        with.an_dirty.ranges@.len() == 0 && without.an_dirty.ranges@.len() == 0,
        lift.hostcall_fuel == fuel,
        bytes@ == lifted.raw@,
{
}

/// The view of a call shows the bytes of the memory, and with encoding the constant and the slots,
/// each spelled by eight bytes.
pub proof fn law_begin_hostcall(m: &mut AnMemory, view: GuestMemory)
    requires
        call_ensures(begin_hostcall, (m,), view),
    ensures
        view.bytes@ == old(m).raw@,
        view.dirty.ranges@.len() == 0,
        view.recording == old(m).an_encoding,
        view.shadow is Some == old(m).an_encoding,
        view.shadow matches Some(s) ==> {
            &&& s.a == old(m).codec.a
            &&& s.bytes@.len() == 8 * old(m).shadow@.len()
            &&& forall|i: int|
                0 <= i < old(m).shadow@.len() ==> spells(
                    s.bytes@,
                    8 * i,
                    8,
                    #[trigger] old(m).shadow@[i] as int,
                )
        },
        final(m).shadow@ == old(m).shadow@,
        final(m).codec == old(m).codec,
        final(m).an_encoding == old(m).an_encoding,
        final(m).whole_dirty == old(m).whole_dirty,
{
    let m0 = *old(m);
    if let Some(s) = view.shadow {
        assert forall|i: int| 0 <= i < m0.shadow@.len() implies spells(
            s.bytes@,
            8 * i,
            8,
            #[trigger] m0.shadow@[i] as int,
        ) by {
            lemma_spells(s.bytes@, 8 * i, 8, m0.shadow@[i] as int);
        }
    }
}

/// After a call the memory has the bytes of the view, and its shadow was brought along with what
/// the view noted.
pub proof fn law_end_hostcall(m: &mut AnMemory, view: GuestMemory, r: Result<(), HostcallError>)
    requires
        old(m).codec.wf(),
        old(m).an_encoding ==> 4 * old(m).shadow@.len() == view.bytes@.len(),
        call_ensures(end_hostcall, (m, view), r),
    ensures
        final(m).raw@ == view.bytes@,
        final(m).codec == old(m).codec,
        final(m).an_encoding == old(m).an_encoding,
        final(m).whole_dirty == old(m).whole_dirty,
        r matches Err(e) ==> e == HostcallError::AnMismatch,
        !old(m).an_encoding ==> r is Ok && final(m).shadow@ == old(m).shadow@,
        old(m).an_encoding ==> refreshed(
            old(m).codec.a as int,
            view.bytes@,
            old(m).shadow@,
            final(m).shadow@,
            view.dirty.ranges@,
            r is Ok,
        ),
{
    let m0 = *old(m);
    if m0.an_encoding {
        lemma_refreshed(m0.codec, view.bytes@, m0.shadow@, view.dirty.ranges@);
    }
}

} // verus!
