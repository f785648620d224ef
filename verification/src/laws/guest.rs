//! The view that a host call has of guest memory.
use super::bytes::{digit256, lemma_byte_at, lemma_four, lemma_spells, spells};
use super::dirty::lemma_within;
use super::resync::within;
use crate::bytes::le;
use crate::dirty::{lemma_recorded_covers, ByteRange};
use crate::guest_memory::{GuestError, GuestMemory};
use vstd::arithmetic::div_mod::{lemma_div_multiples_vanish, lemma_mod_multiples_basic};
use vstd::prelude::*;

verus! {

/// The host may read the byte at `x`: there is no shadow, or it has written the byte, or the
/// eight bytes of the slot spell the constant times a 32-bit number whose byte it is.
pub open spec fn agrees(m: GuestMemory, x: int) -> bool {
    m.shadow matches Some(s) ==> within(m.dirty.ranges@, x) || exists|w: int|
        0 <= w < 0x1_0000_0000 && #[trigger] spells(s.bytes@, 8 * (x / 4), 8, s.a * w)
            && m.bytes@[x] == digit256(w, (x % 4) as nat)
}

/// What is compared of a byte.
proof fn lemma_agrees(m: GuestMemory, x: int)
    requires
        m.shadow matches Some(s) ==> s.a > 0,
    ensures
        m.byte_ok(x) <==> agrees(m, x),
{
    if let Some(s) = m.shadow {
        lemma_within(m.dirty.ranges@, x);
        let a = s.a as int;
        let e = le(s.bytes@, 8 * (x / 4), 8);
        let q = e / a;
        crate::bytes::lemma_le_range(s.bytes@, 8 * (x / 4), 8);
        assert(0 <= q) by (nonlinear_arith)
            requires
                q == e / a,
                0 <= e,
                a > 0,
        ;
        lemma_byte_at(q, (x % 4) as nat);
        if m.byte_ok(x) && !within(m.dirty.ranges@, x) {
            vstd::arithmetic::div_mod::lemma_fundamental_div_mod(e, a);
            lemma_spells(s.bytes@, 8 * (x / 4), 8, a * q);
            assert(spells(s.bytes@, 8 * (x / 4), 8, s.a * q));
        }
        if agrees(m, x) && !within(m.dirty.ranges@, x) {
            let w = choose|w: int|
                0 <= w < 0x1_0000_0000 && #[trigger] spells(s.bytes@, 8 * (x / 4), 8, s.a * w)
                    && m.bytes@[x] == digit256(w, (x % 4) as nat);
            lemma_spells(s.bytes@, 8 * (x / 4), 8, s.a * w);
            assert(a * w == w * a) by (nonlinear_arith);
            lemma_mod_multiples_basic(w, a);
            lemma_div_multiples_vanish(w, a);
        }
    }
}

/// What a read comes to.
proof fn lemma_outcome(m: GuestMemory, off: int, len: int)
    requires
        m.wf(),
    ensures
        m.read_outcome(off, len) == if off + len > m.bytes@.len() {
            Some(GuestError::PtrOutOfBounds)
        } else if forall|x: int| off <= x < off + len ==> #[trigger] agrees(m, x) {
            None
        } else {
            Some(GuestError::AnMemoryMismatch)
        },
{
    if off + len <= m.bytes@.len() {
        if forall|x: int| off <= x < off + len ==> #[trigger] agrees(m, x) {
            assert forall|x: int| off <= x < off + len implies #[trigger] m.byte_ok(x) by {
                lemma_agrees(m, x);
                assert(agrees(m, x));
            }
        } else {
            let x = choose|x: int| off <= x < off + len && !#[trigger] agrees(m, x);
            lemma_agrees(m, x);
            assert(!m.byte_ok(x));
        }
    }
}

/// The host reads the bytes of a range where it lies within the memory and every byte of it may
/// be read, and learns of a fault where one may not.
pub proof fn law_as_slice(
    m: GuestMemory,
    off: u32,
    len: u32,
    r: Result<Vec<u8>, GuestError>,
    r2: Result<Vec<u8>, GuestError>,
)
    requires
        m.wf(),
        call_ensures(GuestMemory::as_slice, (&m, off, len), r),
        call_ensures(GuestMemory::to_vec, (&m, off, len), r2),
    ensures
        off + len > m.bytes@.len() ==> r == Err::<Vec<u8>, GuestError>(GuestError::PtrOutOfBounds)
            && r2 == Err::<Vec<u8>, GuestError>(GuestError::PtrOutOfBounds),
        off + len <= m.bytes@.len() ==> {
            let fine = forall|x: int| off <= x < off + len ==> #[trigger] agrees(m, x);
            &&& fine ==> r is Ok && r->Ok_0@.len() == len && forall|k: int|
                0 <= k < len ==> #[trigger] r->Ok_0@[k] == m.bytes@[off + k]
            &&& fine ==> r2 is Ok && r2->Ok_0@ == r->Ok_0@
            &&& !fine ==> r == Err::<Vec<u8>, GuestError>(GuestError::AnMemoryMismatch) && r2
                == Err::<Vec<u8>, GuestError>(GuestError::AnMemoryMismatch)
        },
{
    lemma_outcome(m, off as int, len as int);
}

/// The eight bytes of a slot spell the constant times the word of its four bytes.
pub open spec fn slot_spells(shadow: Seq<u8>, a: int, raw: Seq<u8>, i: int) -> bool {
    spells(
        shadow,
        8 * i,
        8,
        a * (raw[4 * i] + 0x100 * raw[4 * i + 1] + 0x1_0000 * raw[4 * i + 2] + 0x100_0000 * raw[4
            * i + 3]),
    )
}

/// Where every slot that a range reaches spells the constant times the little-endian value of
/// its four bytes, the range can be read.
pub proof fn law_sound_reads(
    m: GuestMemory,
    off: u32,
    len: u32,
    r: Result<Vec<u8>, GuestError>,
)
    requires
        m.wf(),
        off + len <= m.bytes@.len(),
        m.shadow matches Some(s) ==> forall|i: int|
            off < 4 * i + 4 && 4 * i < off + len ==> #[trigger] slot_spells(
                s.bytes@,
                s.a as int,
                m.bytes@,
                i,
            ),
        call_ensures(GuestMemory::as_slice, (&m, off, len), r),
    ensures
        r is Ok,
        r->Ok_0@ == m.bytes@.subrange(off as int, off + len),
{
    lemma_outcome(m, off as int, len as int);
    if let Some(s) = m.shadow {
        assert forall|x: int| off <= x < off + len implies #[trigger] agrees(m, x) by {
            let i = x / 4;
            let w = le(m.bytes@, 4 * i, 4);
            lemma_four(m.bytes@, i);
            assert(slot_spells(s.bytes@, s.a as int, m.bytes@, i));
            lemma_spells(m.bytes@, 4 * i, 4, w);
            vstd::arithmetic::power2::lemma2_to64();
            let p = (x % 4) as nat;
            assert(m.bytes@[4 * i + p] == digit256(w, p));
            assert(spells(s.bytes@, 8 * (x / 4), 8, s.a * w));
        }
    }
}

/// The host reads the number that the bytes spell, under the same conditions.
pub proof fn law_read_number(m: GuestMemory, off: u32, n: u32, r: Result<u64, GuestError>)
    requires
        m.wf(),
        call_ensures(GuestMemory::read, (&m, off, n), r),
    ensures
        off + n > m.bytes@.len() ==> r == Err::<u64, GuestError>(GuestError::PtrOutOfBounds),
        off + n <= m.bytes@.len() ==> {
            let fine = forall|x: int| off <= x < off + n ==> #[trigger] agrees(m, x);
            &&& fine ==> r is Ok && spells(m.bytes@, off as int, n as nat, r->Ok_0 as int)
            &&& !fine ==> r == Err::<u64, GuestError>(GuestError::AnMemoryMismatch)
        },
{
    lemma_outcome(m, off as int, n as int);
    if r is Ok {
        lemma_spells(m.bytes@, off as int, n as nat, r->Ok_0 as int);
    }
}

/// What was written is in the record of a view that keeps one, with all that was there before.
pub open spec fn noted(m: GuestMemory, t: GuestMemory, off: int, len: int) -> bool {
    &&& t.recording == m.recording
    &&& t.shadow == m.shadow
    &&& !m.recording ==> t.dirty.ranges@ == m.dirty.ranges@
    &&& m.recording ==> forall|x: int|
        within(m.dirty.ranges@, x) || off <= x < off + len ==> #[trigger] within(
            t.dirty.ranges@,
            x,
        )
}

/// The record of a write.
proof fn lemma_noted(m: GuestMemory, t: GuestMemory, off: int, len: int)
    requires
        t.recording == m.recording,
        t.shadow == m.shadow,
        t.dirty@ == m.record_after(off, len),
        0 <= off,
        0 <= len,
        off + len <= m.bytes@.len(),
    ensures
        noted(m, t, off, len),
{
    vstd::std_specs::vec::axiom_spec_len(&m.bytes);
    if m.recording {
        assert forall|x: int|
            within(m.dirty.ranges@, x) || off <= x < off + len implies #[trigger] within(
            t.dirty.ranges@,
            x,
        ) by {
            lemma_within(m.dirty.ranges@, x);
            lemma_within(t.dirty.ranges@, x);
            lemma_recorded_covers(m.dirty@, off as usize, len as usize, x);
        }
    }
}

/// The host's write of a number puts its bytes in their place and notes them.
pub proof fn law_write_number(
    m: &mut GuestMemory,
    off: u32,
    v: u64,
    n: u32,
    r: Result<(), GuestError>,
)
    requires
        old(m).wf(),
        call_ensures(GuestMemory::write, (m, off, v, n), r),
    ensures
        off + n > old(m).bytes@.len() ==> r == Err::<(), GuestError>(GuestError::PtrOutOfBounds)
            && *final(m) == *old(m),
        off + n <= old(m).bytes@.len() ==> {
            &&& r is Ok
            &&& final(m).bytes@.len() == old(m).bytes@.len()
            &&& forall|j: int|
                0 <= j < old(m).bytes@.len() ==> #[trigger] final(m).bytes@[j] == if off <= j < off
                    + n {
                    digit256(v as int, (j - off) as nat)
                } else {
                    old(m).bytes@[j] as int
                }
            &&& noted(*old(m), *final(m), off as int, n as int)
        },
{
    let (m0, t) = (*old(m), *final(m));
    if off + n <= m0.bytes@.len() {
        lemma_noted(m0, t, off as int, n as int);
        assert forall|j: int| 0 <= j < m0.bytes@.len() implies #[trigger] t.bytes@[j] == if off
            <= j < off + n {
            digit256(v as int, (j - off) as nat)
        } else {
            m0.bytes@[j] as int
        } by {
            if off <= j < off + n {
                lemma_byte_at(v as int, (j - off) as nat);
            }
        }
    }
}

/// The host's write of bytes puts them in their place and notes them.
pub proof fn law_copy_from_slice(
    m: &mut GuestMemory,
    data: Vec<u8>,
    off: u32,
    r: Result<(), GuestError>,
)
    requires
        old(m).wf(),
        call_ensures(GuestMemory::copy_from_slice, (m, &data, off), r),
    ensures
        off + data@.len() > old(m).bytes@.len() ==> r == Err::<(), GuestError>(
            GuestError::PtrOutOfBounds,
        ) && *final(m) == *old(m),
        off + data@.len() <= old(m).bytes@.len() ==> {
            &&& r is Ok
            &&& final(m).bytes@.len() == old(m).bytes@.len()
            &&& forall|j: int|
                0 <= j < old(m).bytes@.len() ==> #[trigger] final(m).bytes@[j] == if off <= j < off
                    + data@.len() {
                    data@[j - off]
                } else {
                    old(m).bytes@[j]
                }
            &&& noted(*old(m), *final(m), off as int, data@.len() as int)
        },
{
    let (m0, t) = (*old(m), *final(m));
    if off + data@.len() <= m0.bytes@.len() {
        lemma_noted(m0, t, off as int, data@.len() as int);
    }
}

/// A borrow of a range shows its bytes, and what is written through it is in its place
/// afterwards; the whole range is noted.
pub proof fn law_as_slice_mut(
    m: &mut GuestMemory,
    off: u32,
    len: u32,
    r: Result<&mut [u8], GuestError>,
)
    requires
        old(m).wf(),
        call_ensures(GuestMemory::as_slice_mut, (m, off, len), r),
    ensures
        off + len > old(m).bytes@.len() ==> r is Err && r->Err_0 == GuestError::PtrOutOfBounds
            && *final(m) == *old(m),
        off + len <= old(m).bytes@.len() ==> r is Ok,
        r matches Ok(data) ==> {
            &&& data@.len() == len
            &&& forall|k: int| 0 <= k < len ==> #[trigger] data@[k] == old(m).bytes@[off + k]
            &&& final(data)@.len() == len ==> {
                &&& final(m).bytes@.len() == old(m).bytes@.len()
                &&& forall|j: int|
                    0 <= j < old(m).bytes@.len() ==> #[trigger] final(m).bytes@[j] == if off <= j
                        < off + len {
                        final(data)@[j - off]
                    } else {
                        old(m).bytes@[j]
                    }
            }
            &&& noted(*old(m), *final(m), off as int, len as int)
        },
{
    let (m0, t) = (*old(m), *final(m));
    if off + len <= m0.bytes@.len() {
        lemma_noted(m0, t, off as int, len as int);
    }
}

/// What the host has written it may read, and the number reads back.
pub proof fn law_read_own_write(
    m: &mut GuestMemory,
    off: u32,
    v: u64,
    n: u32,
    w: Result<(), GuestError>,
    r: Result<u64, GuestError>,
)
    requires
        old(m).wf(),
        old(m).recording,
        n == 1 || n == 2 || n == 4 || n == 8,
        off + n <= old(m).bytes@.len(),
        call_ensures(GuestMemory::write, (m, off, v, n), w),
        call_ensures(GuestMemory::read, (&*final(m), off, n), r),
    ensures
        w is Ok,
        r is Ok,
        r->Ok_0 == v as int % vstd::arithmetic::power2::pow2(8 * n as nat) as int,
{
    super::bytes::lemma_size(n as nat);
    crate::guest_memory::lemma_read_own_write(*old(m), *final(m), off, v, n as nat);
}

/// Views start with the bytes that they are given and with nothing noted; taking the notes gives
/// all of them and leaves none.
pub proof fn law_views(
    bytes: Vec<u8>,
    shadow: Vec<u8>,
    a: u64,
    plain: GuestMemory,
    noting: GuestMemory,
    checking: GuestMemory,
    m: &mut GuestMemory,
    r: Vec<ByteRange>,
)
    requires
        call_ensures(GuestMemory::unshared, (bytes,), plain),
        call_ensures(GuestMemory::unshared_an_tracked, (bytes,), noting),
        call_ensures(GuestMemory::unshared_an_verified, (bytes, shadow, a), checking),
        call_ensures(GuestMemory::an_take_dirty, (m,), r),
    ensures
        plain.bytes@ == bytes@ && noting.bytes@ == bytes@ && checking.bytes@ == bytes@,
        !plain.recording && noting.recording && checking.recording,
        plain.shadow is None && noting.shadow is None,
        checking.shadow matches Some(s) && s.bytes@ == shadow@ && s.a == a,
        plain.dirty.ranges@.len() == 0 && noting.dirty.ranges@.len() == 0
            && checking.dirty.ranges@.len() == 0,
        r@ == old(m).dirty.ranges@,
        final(m).dirty.ranges@.len() == 0,
        final(m).bytes@ == old(m).bytes@,
        final(m).recording == old(m).recording,
        final(m).shadow == old(m).shadow,
{
}

} // verus!
