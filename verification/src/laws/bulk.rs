//! Writes of ranges, the host's access, and growth.
use super::bytes::{holds, lemma_four};
use super::memory::lemma_multiple;
use super::resync::{lemma_refreshed, refreshed};
use crate::dirty::ByteRange;
use crate::memory::bulk::{one_range, wrote};
use crate::memory::host::MemoryAccessError;
use crate::memory::state::{touches, AnMemory};
use crate::traps::Trap;
use crate::wasm::Width;
use vstd::prelude::*;

verus! {

/// Nothing but the bytes and the shadow differs.
pub open spec fn alike(m: AnMemory, t: AnMemory) -> bool {
    &&& t.codec == m.codec
    &&& t.an_encoding == m.an_encoding
    &&& t.index == m.index
    &&& t.max_pages == m.max_pages
    &&& t.whole_dirty == m.whole_dirty
    &&& t.raw@.len() == m.raw@.len()
    &&& t.shadow@.len() == m.shadow@.len()
}

/// The bytes of `t` are those of `m` with `data` in their place from `off` on.
pub open spec fn bytes_put(m: AnMemory, t: AnMemory, off: int, data: Seq<u8>) -> bool {
    forall|j: int|
        0 <= j < m.raw@.len() ==> #[trigger] t.raw@[j] == if off <= j < off + data.len() {
            data[j - off]
        } else {
            m.raw@[j]
        }
}

/// The bytes of `data` were put in their place, and the shadow was brought along; `ok` says
/// whether no fault stood beside them.
pub open spec fn written(m: AnMemory, t: AnMemory, off: int, data: Seq<u8>, ok: bool) -> bool {
    &&& alike(m, t)
    &&& bytes_put(m, t, off, data)
    &&& !m.an_encoding ==> ok && t.shadow@ == m.shadow@
    &&& m.an_encoding ==> refreshed(
        m.codec.a as int,
        t.raw@,
        m.shadow@,
        t.shadow@,
        seq![ByteRange { start: off as usize, end: (off + data.len()) as usize }],
        ok,
    )
}

/// Every slot that a range of bytes reaches holds the constant times its bytes.
pub open spec fn sound(m: AnMemory, off: int, len: int) -> bool {
    forall|i: int|
        off < 4 * i + 4 && 4 * i < off + len ==> holds(
            m.codec.a as int,
            #[trigger] m.shadow@[i] as int,
            m.raw@,
            i,
        )
}

/// The comparison of a range is over the slots that it reaches.
pub proof fn lemma_sound(m: AnMemory, off: int, len: int)
    requires
        0 <= off,
        0 <= len,
    ensures
        len > 0 ==> (m.range_ok(off, len) <==> sound(m, off, len)),
        len == 0 ==> m.range_ok(off, len),
{
    if len > 0 {
        assert forall|i: int| #[trigger] touches(off, len, i) <==> off < 4 * i + 4 && 4 * i < off
            + len by {}
        if m.range_ok(off, len) {
            assert forall|i: int| off < 4 * i + 4 && 4 * i < off + len implies holds(
                m.codec.a as int,
                #[trigger] m.shadow@[i] as int,
                m.raw@,
                i,
            ) by {
                assert(touches(off, len, i));
                lemma_four(m.raw@, i);
            }
        }
        if sound(m, off, len) {
            assert forall|i: int| #[trigger] touches(off, len, i) implies m.slot_ok(i) by {
                assert(holds(m.codec.a as int, m.shadow@[i] as int, m.raw@, i));
                lemma_four(m.raw@, i);
            }
        }
    }
}

/// What a write of a range comes to.
pub proof fn lemma_written(
    m: AnMemory,
    t: AnMemory,
    off: int,
    data: Seq<u8>,
    r: Result<(), Trap>,
)
    requires
        m.wf(),
        0 <= off,
        off + data.len() <= m.raw@.len(),
        wrote(m, t, off, data, r),
    ensures
        written(m, t, off, data, r is Ok),
        r matches Err(e) ==> e == Trap::AnMemoryMismatch,
{
    vstd::std_specs::vec::axiom_spec_len(&m.raw);
    if m.an_encoding {
        lemma_refreshed(m.codec, t.raw@, m.shadow@, one_range(off, data.len() as int));
    }
}

/// A write of a range puts every byte of the data in its place and leaves the others.
pub proof fn law_write_range(m: &mut AnMemory, off: usize, data: Vec<u8>, r: Result<(), Trap>)
    requires
        old(m).wf(),
        off + data@.len() <= old(m).raw@.len(),
        call_ensures(AnMemory::write_range, (m, off, &data), r),
    ensures
        written(*old(m), *final(m), off as int, data@, r is Ok),
        r matches Err(e) ==> e == Trap::AnMemoryMismatch,
{
    lemma_written(*old(m), *final(m), off as int, data@, r);
}

/// A fill sets each of the bytes to the low byte of the value. An operand that is no multiple of
/// the constant is a trap, and so is a range that reaches beyond the memory; nothing changes
/// then.
pub proof fn law_fill(
    m: &mut AnMemory,
    dst: u128,
    value: u128,
    len: u128,
    d: int,
    v: int,
    n: int,
    r: Result<(), Trap>,
)
    requires
        old(m).wf(),
        0 <= d,
        0 <= v,
        0 <= n,
        call_ensures(AnMemory::fill, (m, dst, value, len), r),
    ensures
        dst as int % old(m).codec.a as int != 0 || value as int % old(m).codec.a as int != 0
            || len as int % old(m).codec.a as int != 0 ==> r == Err::<(), Trap>(
            Trap::AnCodewordInvalid,
        ) && *final(m) == *old(m),
        dst == old(m).codec.a * d && value == old(m).codec.a * v && len == old(m).codec.a * n ==> {
            &&& d + n > old(m).raw@.len() ==> r == Err::<(), Trap>(Trap::MemoryOutOfBounds)
                && *final(m) == *old(m)
            &&& d + n <= old(m).raw@.len() ==> {
                &&& forall|j: int|
                    d <= j < d + n ==> #[trigger] final(m).raw@[j] == v % 0x100
                &&& written(
                    *old(m),
                    *final(m),
                    d,
                    Seq::new(n as nat, |i: int| (v % 0x100) as u8),
                    r is Ok,
                )
                &&& r matches Err(e) ==> e == Trap::AnMemoryMismatch
            }
        },
{
    let (m0, t) = (*old(m), *final(m));
    lemma_multiple(m0, d);
    lemma_multiple(m0, v);
    lemma_multiple(m0, n);
    let a = m0.codec.a;
    if dst == a * d && value == a * v && len == a * n && d + n <= m0.raw@.len() {
        let data = Seq::new(n as nat, |i: int| (v % 0x100) as u8);
        lemma_written(m0, t, d, data, r);
        assert forall|j: int| d <= j < d + n implies #[trigger] t.raw@[j] == v % 0x100 by {
            assert(data[j - d] == v % 0x100);
        }
    }
}

/// A copy within a memory gives the destination the bytes that the source had before, also where
/// they overlap. The source is compared first.
pub proof fn law_copy(
    m: &mut AnMemory,
    dst: u128,
    src: u128,
    len: u128,
    d: int,
    s: int,
    n: int,
    r: Result<(), Trap>,
)
    requires
        old(m).wf(),
        0 <= d,
        0 <= s,
        0 <= n,
        call_ensures(AnMemory::copy, (m, dst, src, len), r),
    ensures
        dst as int % old(m).codec.a as int != 0 || src as int % old(m).codec.a as int != 0
            || len as int % old(m).codec.a as int != 0 ==> r == Err::<(), Trap>(
            Trap::AnCodewordInvalid,
        ) && *final(m) == *old(m),
        dst == old(m).codec.a * d && src == old(m).codec.a * s && len == old(m).codec.a * n ==> {
            let size = old(m).raw@.len();
            let bad = old(m).an_encoding && n > 0 && !sound(*old(m), s, n);
            &&& d + n > size || s + n > size ==> r == Err::<(), Trap>(Trap::MemoryOutOfBounds)
                && *final(m) == *old(m)
            &&& d + n <= size && s + n <= size && bad ==> r == Err::<(), Trap>(
                Trap::AnMemoryMismatch,
            ) && *final(m) == *old(m)
            &&& d + n <= size && s + n <= size && !bad ==> {
                &&& forall|k: int|
                    0 <= k < n ==> final(m).raw@[d + k] == #[trigger] old(m).raw@[s + k]
                &&& written(*old(m), *final(m), d, old(m).raw@.subrange(s, s + n), r is Ok)
                &&& r matches Err(e) ==> e == Trap::AnMemoryMismatch
            }
        },
{
    let (m0, t) = (*old(m), *final(m));
    lemma_multiple(m0, d);
    lemma_multiple(m0, s);
    lemma_multiple(m0, n);
    lemma_sound(m0, s, n);
    let a = m0.codec.a;
    let size = m0.raw@.len();
    let bad = m0.an_encoding && n > 0 && !sound(m0, s, n);
    if dst == a * d && src == a * s && len == a * n && d + n <= size && s + n <= size && !bad {
        let data = m0.raw@.subrange(s, s + n);
        lemma_written(m0, t, d, data, r);
        assert forall|k: int| 0 <= k < n implies t.raw@[d + k] == #[trigger] m0.raw@[s + k] by {
            assert(t.raw@[d + k] == data[d + k - d]);
        }
    }
}

/// A copy from another memory gives the destination the bytes of the source, which is compared
/// first.
pub proof fn law_copy_from(
    m: &mut AnMemory,
    other: AnMemory,
    dst: u128,
    src: u128,
    len: u128,
    d: int,
    s: int,
    n: int,
    r: Result<(), Trap>,
)
    requires
        old(m).wf(),
        other.wf(),
        other.codec == old(m).codec,
        other.an_encoding == old(m).an_encoding,
        0 <= d,
        0 <= s,
        0 <= n,
        call_ensures(AnMemory::copy_from, (m, &other, dst, src, len), r),
    ensures
        dst as int % old(m).codec.a as int != 0 || src as int % old(m).codec.a as int != 0
            || len as int % old(m).codec.a as int != 0 ==> r == Err::<(), Trap>(
            Trap::AnCodewordInvalid,
        ) && *final(m) == *old(m),
        dst == old(m).codec.a * d && src == old(m).codec.a * s && len == old(m).codec.a * n ==> {
            let out = d + n > old(m).raw@.len() || s + n > other.raw@.len();
            let bad = other.an_encoding && n > 0 && !sound(other, s, n);
            &&& out ==> r == Err::<(), Trap>(Trap::MemoryOutOfBounds) && *final(m) == *old(m)
            &&& !out && bad ==> r == Err::<(), Trap>(Trap::AnMemoryMismatch) && *final(m) == *old(
                m)
            &&& !out && !bad ==> {
                &&& forall|k: int|
                    0 <= k < n ==> final(m).raw@[d + k] == #[trigger] other.raw@[s + k]
                &&& written(*old(m), *final(m), d, other.raw@.subrange(s, s + n), r is Ok)
                &&& r matches Err(e) ==> e == Trap::AnMemoryMismatch
            }
        },
{
    let (m0, t) = (*old(m), *final(m));
    lemma_multiple(m0, d);
    lemma_multiple(m0, s);
    lemma_multiple(m0, n);
    lemma_sound(other, s, n);
    let a = m0.codec.a;
    let out = d + n > m0.raw@.len() || s + n > other.raw@.len();
    let bad = other.an_encoding && n > 0 && !sound(other, s, n);
    if dst == a * d && src == a * s && len == a * n && !out && !bad {
        let data = other.raw@.subrange(s, s + n);
        lemma_written(m0, t, d, data, r);
        assert forall|k: int| 0 <= k < n implies t.raw@[d + k] == #[trigger] other.raw@[s
            + k] by {
            assert(t.raw@[d + k] == data[d + k - d]);
        }
    }
}

/// Initialization gives the destination the bytes of a part of the segment.
pub proof fn law_init(
    m: &mut AnMemory,
    segment: Vec<u8>,
    dst: u128,
    src: u128,
    len: u128,
    d: int,
    s: int,
    n: int,
    r: Result<(), Trap>,
)
    requires
        old(m).wf(),
        0 <= d,
        0 <= s,
        0 <= n,
        call_ensures(AnMemory::init, (m, &segment, dst, src, len), r),
    ensures
        dst as int % old(m).codec.a as int != 0 || src as int % old(m).codec.a as int != 0
            || len as int % old(m).codec.a as int != 0 ==> r == Err::<(), Trap>(
            Trap::AnCodewordInvalid,
        ) && *final(m) == *old(m),
        dst == old(m).codec.a * d && src == old(m).codec.a * s && len == old(m).codec.a * n ==> {
            let out = d + n > old(m).raw@.len() || s + n > segment@.len();
            &&& out ==> r == Err::<(), Trap>(Trap::MemoryOutOfBounds) && *final(m) == *old(m)
            &&& !out ==> {
                &&& forall|k: int|
                    0 <= k < n ==> final(m).raw@[d + k] == #[trigger] segment@[s + k]
                &&& written(*old(m), *final(m), d, segment@.subrange(s, s + n), r is Ok)
                &&& r matches Err(e) ==> e == Trap::AnMemoryMismatch
            }
        },
{
    let (m0, t) = (*old(m), *final(m));
    lemma_multiple(m0, d);
    lemma_multiple(m0, s);
    lemma_multiple(m0, n);
    let a = m0.codec.a;
    let out = d + n > m0.raw@.len() || s + n > segment@.len();
    if dst == a * d && src == a * s && len == a * n && !out {
        let data = segment@.subrange(s, s + n);
        lemma_written(m0, t, d, data, r);
        assert forall|k: int| 0 <= k < n implies t.raw@[d + k] == #[trigger] segment@[s + k] by {
            assert(t.raw@[d + k] == data[d + k - d]);
        }
    }
}

/// The host reads exactly the bytes of the range, where it lies within the memory and its slots
/// hold them, or the host itself holds the whole memory.
pub proof fn law_host_read(
    m: AnMemory,
    off: usize,
    len: usize,
    r: Result<Vec<u8>, MemoryAccessError>,
)
    requires
        call_ensures(AnMemory::read, (&m, off, len), r),
    ensures
        off + len > m.raw@.len() ==> r == Err::<Vec<u8>, MemoryAccessError>(
            MemoryAccessError::OutOfBounds,
        ),
        off + len <= m.raw@.len() ==> {
            let ok = !m.an_encoding || m.whole_dirty || len == 0 || sound(
                m,
                off as int,
                len as int,
            );
            &&& ok ==> r is Ok && r->Ok_0@.len() == len && forall|k: int|
                0 <= k < len ==> #[trigger] r->Ok_0@[k] == m.raw@[off + k]
            &&& !ok ==> r == Err::<Vec<u8>, MemoryAccessError>(MemoryAccessError::AnMismatch)
        },
{
    lemma_sound(m, off as int, len as int);
}

/// The host's write puts its bytes in their place. The shadow is brought along at once, unless
/// the host holds the whole memory.
pub proof fn law_host_write(
    m: &mut AnMemory,
    off: usize,
    data: Vec<u8>,
    r: Result<(), MemoryAccessError>,
)
    requires
        old(m).wf(),
        call_ensures(AnMemory::write, (m, off, &data), r),
    ensures
        off + data@.len() > old(m).raw@.len() ==> r == Err::<(), MemoryAccessError>(
            MemoryAccessError::OutOfBounds,
        ) && *final(m) == *old(m),
        off + data@.len() <= old(m).raw@.len() && !old(m).whole_dirty ==> {
            &&& written(*old(m), *final(m), off as int, data@, r is Ok)
            &&& r matches Err(e) ==> e == MemoryAccessError::AnMismatch
        },
        off + data@.len() <= old(m).raw@.len() && old(m).whole_dirty ==> {
            &&& r is Ok
            &&& alike(*old(m), *final(m))
            &&& bytes_put(*old(m), *final(m), off as int, data@)
            &&& final(m).shadow@ == old(m).shadow@
        },
{
    let (m0, t) = (*old(m), *final(m));
    if off + data@.len() <= m0.raw@.len() && !m0.whole_dirty {
        let e: Result<(), Trap> = if r is Ok {
            Ok(())
        } else {
            Err(Trap::AnMemoryMismatch)
        };
        lemma_written(m0, t, off as int, data@, e);
    }
}

/// The whole memory is handed out for reading exactly where every slot holds its bytes, or the
/// host holds it already; what is handed out are the bytes.
pub proof fn law_try_data(m: AnMemory, r: Result<&Vec<u8>, Trap>)
    requires
        m.wf(),
        call_ensures(AnMemory::try_data, (&m,), r),
    ensures
        r is Ok <==> !m.an_encoding || m.whole_dirty || m.raw@.len() == 0 || sound(
            m,
            0,
            m.raw@.len() as int,
        ),
        r matches Ok(data) ==> data@ == m.raw@,
        r matches Err(t) ==> t == Trap::AnMemoryMismatch,
{
    lemma_sound(m, 0, m.raw@.len() as int);
}

/// The whole memory is handed out for writing on the same terms; it is then marked, and what is
/// written through the borrow is what the memory holds afterwards.
pub proof fn law_try_data_mut(m: &mut AnMemory, r: Result<&mut [u8], Trap>)
    requires
        old(m).wf(),
        call_ensures(AnMemory::try_data_mut, (m,), r),
    ensures
        r is Ok <==> !old(m).an_encoding || old(m).whole_dirty || old(m).raw@.len() == 0 || sound(
            *old(m),
            0,
            old(m).raw@.len() as int,
        ),
        match r {
            Ok(data) => {
                &&& data@ == old(m).raw@
                &&& final(m).raw@ == final(data)@
                &&& final(m).whole_dirty
                &&& final(m).shadow@ == old(m).shadow@
                &&& final(m).codec == old(m).codec
                &&& final(m).an_encoding == old(m).an_encoding
            },
            Err(t) => t == Trap::AnMemoryMismatch && *final(m) == *old(m),
        },
{
    lemma_sound(*old(m), 0, old(m).raw@.len() as int);
}

/// A memory grows by whole pages of zeros, whose slots are zero, up to its limits; the result is
/// the number of pages that it had, or that of the largest value where it does not grow. What was
/// there stays.
pub proof fn law_grow(m: &mut AnMemory, delta: u128, d: int, r: Result<u128, Trap>)
    requires
        old(m).wf(),
        0 <= d,
        call_ensures(AnMemory::grow, (m, delta), r),
    ensures
        delta as int % old(m).codec.a as int != 0 ==> r == Err::<u128, Trap>(
            Trap::AnCodewordInvalid,
        ) && *final(m) == *old(m),
        delta == old(m).codec.a * d ==> {
            let (n, k) = (old(m).raw@.len(), old(m).shadow@.len());
            let fits = n / 0x1_0000 + d <= old(m).max_pages && n / 0x1_0000 + d <= 0x1_0000 && n + d
                * 0x1_0000 <= usize::MAX;
            &&& r is Ok
            &&& final(m).whole_dirty == old(m).whole_dirty
            &&& final(m).codec == old(m).codec
            &&& fits ==> {
                &&& r->Ok_0 == old(m).codec.a * (n / 0x1_0000)
                &&& final(m).raw@.len() == n + d * 0x1_0000
                &&& forall|j: int| 0 <= j < n ==> #[trigger] final(m).raw@[j] == old(m).raw@[j]
                &&& forall|j: int| n <= j < n + d * 0x1_0000 ==> #[trigger] final(m).raw@[j] == 0
                &&& old(m).an_encoding ==> final(m).shadow@.len() == k + d * 0x4000
                &&& forall|i: int|
                    0 <= i < final(m).shadow@.len() ==> #[trigger] final(m).shadow@[i] == if i < k {
                        old(m).shadow@[i]
                    } else {
                        0
                    }
            }
            &&& !fits ==> {
                &&& r->Ok_0 == old(m).codec.a * match old(m).index {
                    Width::W32 => 0xffff_ffffint,
                    Width::W64 => 0xffff_ffff_ffff_ffffint,
                }
                &&& *final(m) == *old(m)
            }
        },
{
    let (m0, t) = (*old(m), *final(m));
    lemma_multiple(m0, d);
    let n = m0.raw@.len();
    assert(n == n / 0x1_0000 * 0x1_0000);
}

/// The size of a memory is the constant times its number of pages.
pub proof fn law_size(m: AnMemory, x: u128)
    requires
        call_ensures(AnMemory::size, (&m,), x),
    ensures
        x == m.codec.a * (m.raw@.len() as int / 0x1_0000),
{
}

/// A new memory holds zeros, in bytes and in slots.
pub proof fn law_new(an: bool, a: u64, index: Width, min: usize, max: usize, m: AnMemory)
    requires
        call_ensures(AnMemory::new, (an, a, index, min, max), m),
    ensures
        m.an_encoding == an,
        m.codec.a == if an {
            a
        } else {
            1
        },
        m.index == index,
        m.max_pages == max,
        !m.whole_dirty,
        m.raw@.len() == min * 0x1_0000,
        m.shadow@.len() == if an {
            m.raw@.len() / 4
        } else {
            0
        },
        forall|j: int| 0 <= j < m.raw@.len() ==> #[trigger] m.raw@[j] == 0,
        forall|i: int| 0 <= i < m.shadow@.len() ==> #[trigger] m.shadow@[i] == 0,
{
    assert forall|i: int| 0 <= i < m.shadow@.len() implies #[trigger] m.shadow@[i] == 0 by {
        assert(m.slot_ok(i));
        lemma_four(m.raw@, i);
        let (a, w) = (m.codec.a as int, crate::memory::state::slot_word(m.raw@, i));
        assert(m.raw@[4 * i] == 0 && m.raw@[4 * i + 1] == 0 && m.raw@[4 * i + 2] == 0 && m.raw@[4
            * i + 3] == 0);
        assert(a * w == 0) by (nonlinear_arith)
            requires
                w == 0,
        ;
    }
}

/// A range is consistent exactly where every slot that it reaches holds the constant times its
/// bytes.
pub proof fn law_range_consistent(m: AnMemory, off: usize, len: usize, r: bool)
    requires
        call_ensures(AnMemory::range_consistent, (&m, off, len), r),
    ensures
        r <==> len == 0 || sound(m, off as int, len as int),
{
    lemma_sound(m, off as int, len as int);
}

/// Growth by a number of pages gives how many there were, and leaves what was there.
pub proof fn law_grow_pages(m: &mut AnMemory, delta: u64, r: Option<usize>)
    requires
        old(m).wf(),
        call_ensures(AnMemory::grow_pages, (m, delta), r),
    ensures
        ({
            let (n, k) = (old(m).raw@.len(), old(m).shadow@.len());
            let fits = n / 0x1_0000 + delta <= old(m).max_pages && n / 0x1_0000 + delta <= 0x1_0000
                && n + delta * 0x1_0000 <= usize::MAX;
            &&& r is Some <==> fits
            &&& r is None ==> *final(m) == *old(m)
            &&& r matches Some(pages) ==> {
                &&& pages == n / 0x1_0000
                &&& final(m).raw@.len() == n + delta * 0x1_0000
                &&& forall|j: int| 0 <= j < n ==> #[trigger] final(m).raw@[j] == old(m).raw@[j]
                &&& forall|j: int|
                    n <= j < n + delta * 0x1_0000 ==> #[trigger] final(m).raw@[j] == 0
                &&& forall|i: int|
                    0 <= i < final(m).shadow@.len() ==> #[trigger] final(m).shadow@[i] == if i < k {
                        old(m).shadow@[i]
                    } else {
                        0
                    }
            }
        }),
{
    let n = old(m).raw@.len();
    assert(n == n / 0x1_0000 * 0x1_0000);
}

} // verus!
