//! Tables of functions.
use super::ops::lemma_encoded;
use crate::codec::Codec;
use crate::table::AnTable;
use crate::traps::Trap;
use crate::wasm::Width;
use vstd::prelude::*;

verus! {

/// Nothing but the elements from `d` up to `d + n` differs, and there stands what `f` says.
pub open spec fn elements_put(
    t: AnTable,
    u: AnTable,
    d: int,
    n: int,
    f: spec_fn(int) -> Option<u32>,
) -> bool {
    &&& u.codec == t.codec
    &&& u.max == t.max
    &&& u.elems@.len() == t.elems@.len()
    &&& forall|j: int|
        0 <= j < t.elems@.len() ==> #[trigger] u.elems@[j] == if d <= j < d + n {
            f(j - d)
        } else {
            t.elems@[j]
        }
}

/// A fill sets exactly the elements of its range.
pub proof fn law_fill(
    t: &mut AnTable,
    dst: u128,
    elem: Option<u32>,
    len: u128,
    d: int,
    n: int,
    r: Result<(), Trap>,
)
    requires
        old(t).codec.wf(),
        call_ensures(AnTable::fill, (t, dst, elem, len), r),
    ensures
        dst as int % old(t).codec.a as int != 0 || len as int % old(t).codec.a as int != 0 ==> r
            == Err::<(), Trap>(Trap::AnCodewordInvalid) && *final(t) == *old(t),
        0 <= d < 0x1_0000_0000 && 0 <= n < 0x1_0000_0000 && dst == old(t).codec.a * d && len == old(
            t).codec.a * n ==> {
            &&& d + n > old(t).elems@.len() ==> r == Err::<(), Trap>(Trap::TableOutOfBounds)
                && *final(t) == *old(t)
            &&& d + n <= old(t).elems@.len() ==> r is Ok && elements_put(
                *old(t),
                *final(t),
                d,
                n,
                |k: int| elem,
            )
        },
{
    if 0 <= d < 0x1_0000_0000 && 0 <= n < 0x1_0000_0000 {
        lemma_encoded(old(t).codec, Width::W32, d);
        lemma_encoded(old(t).codec, Width::W32, n);
    }
}

/// A copy gives the destination the elements that the source had before, also where they
/// overlap.
pub proof fn law_copy(
    t: &mut AnTable,
    dst: u128,
    src: u128,
    len: u128,
    d: int,
    s: int,
    n: int,
    r: Result<(), Trap>,
)
    requires
        old(t).codec.wf(),
        call_ensures(AnTable::copy, (t, dst, src, len), r),
    ensures
        dst as int % old(t).codec.a as int != 0 || src as int % old(t).codec.a as int != 0
            || len as int % old(t).codec.a as int != 0 ==> r == Err::<(), Trap>(
            Trap::AnCodewordInvalid,
        ) && *final(t) == *old(t),
        0 <= d < 0x1_0000_0000 && 0 <= s < 0x1_0000_0000 && 0 <= n < 0x1_0000_0000 && dst == old(
            t).codec.a * d && src == old(t).codec.a * s && len == old(t).codec.a * n ==> {
            let size = old(t).elems@.len();
            &&& d + n > size || s + n > size ==> r == Err::<(), Trap>(Trap::TableOutOfBounds)
                && *final(t) == *old(t)
            &&& d + n <= size && s + n <= size ==> r is Ok && elements_put(
                *old(t),
                *final(t),
                d,
                n,
                |k: int| old(t).elems@[s + k],
            )
        },
{
    if 0 <= d < 0x1_0000_0000 && 0 <= s < 0x1_0000_0000 && 0 <= n < 0x1_0000_0000 {
        lemma_encoded(old(t).codec, Width::W32, d);
        lemma_encoded(old(t).codec, Width::W32, s);
        lemma_encoded(old(t).codec, Width::W32, n);
    }
}

/// Initialization gives the destination elements of the segment.
pub proof fn law_init(
    t: &mut AnTable,
    segment: Vec<Option<u32>>,
    dst: u128,
    src: u128,
    len: u128,
    d: int,
    s: int,
    n: int,
    r: Result<(), Trap>,
)
    requires
        old(t).codec.wf(),
        call_ensures(AnTable::init, (t, &segment, dst, src, len), r),
    ensures
        dst as int % old(t).codec.a as int != 0 || src as int % old(t).codec.a as int != 0
            || len as int % old(t).codec.a as int != 0 ==> r == Err::<(), Trap>(
            Trap::AnCodewordInvalid,
        ) && *final(t) == *old(t),
        0 <= d < 0x1_0000_0000 && 0 <= s < 0x1_0000_0000 && 0 <= n < 0x1_0000_0000 && dst == old(
            t).codec.a * d && src == old(t).codec.a * s && len == old(t).codec.a * n ==> {
            let out = d + n > old(t).elems@.len() || s + n > segment@.len();
            &&& out ==> r == Err::<(), Trap>(Trap::TableOutOfBounds) && *final(t) == *old(t)
            &&& !out ==> r is Ok && elements_put(
                *old(t),
                *final(t),
                d,
                n,
                |k: int| segment@[s + k],
            )
        },
{
    if 0 <= d < 0x1_0000_0000 && 0 <= s < 0x1_0000_0000 && 0 <= n < 0x1_0000_0000 {
        lemma_encoded(old(t).codec, Width::W32, d);
        lemma_encoded(old(t).codec, Width::W32, s);
        lemma_encoded(old(t).codec, Width::W32, n);
    }
}

/// A table grows by so many copies of the element, up to its limit, and gives the size that it
/// had; else it stays and gives the largest value.
pub proof fn law_grow(
    t: &mut AnTable,
    elem: Option<u32>,
    delta: u128,
    d: int,
    r: Result<u128, Trap>,
)
    requires
        old(t).codec.wf(),
        call_ensures(AnTable::grow, (t, elem, delta), r),
    ensures
        delta as int % old(t).codec.a as int != 0 ==> r == Err::<u128, Trap>(
            Trap::AnCodewordInvalid,
        ) && *final(t) == *old(t),
        0 <= d < 0x1_0000_0000 && delta == old(t).codec.a * d ==> {
            let n = old(t).elems@.len();
            &&& r is Ok
            &&& n + d <= old(t).max ==> {
                &&& r->Ok_0 == old(t).codec.a * n
                &&& final(t).elems@.len() == n + d
                &&& forall|j: int|
                    0 <= j < n + d ==> #[trigger] final(t).elems@[j] == if j < n {
                        old(t).elems@[j]
                    } else {
                        elem
                    }
                &&& final(t).max == old(t).max && final(t).codec == old(t).codec
            }
            &&& n + d > old(t).max ==> r->Ok_0 == old(t).codec.a * 0xffff_ffff && *final(t)
                == *old(t)
        },
{
    if 0 <= d < 0x1_0000_0000 {
        lemma_encoded(old(t).codec, Width::W32, d);
    }
}

/// An indirect call reaches the function at the index; there is none beyond the table or at a
/// null reference.
pub proof fn law_call_indirect(t: AnTable, index: u128, i: int, r: Result<u32, Trap>, x: u128)
    requires
        t.codec.wf(),
        call_ensures(AnTable::call_indirect, (&t, index), r),
        call_ensures(AnTable::size, (&t,), x),
    ensures
        x == t.codec.a * t.elems@.len(),
        index as int % t.codec.a as int != 0 ==> r == Err::<u32, Trap>(Trap::AnCodewordInvalid),
        0 <= i < 0x1_0000_0000 && index == t.codec.a * i ==> {
            &&& i >= t.elems@.len() ==> r == Err::<u32, Trap>(Trap::TableOutOfBounds)
            &&& i < t.elems@.len() && t.elems@[i] is None ==> r == Err::<u32, Trap>(
                Trap::IndirectCallToNull,
            )
            &&& i < t.elems@.len() && t.elems@[i] is Some ==> r is Ok && Some(r->Ok_0)
                == t.elems@[i]
        },
{
    if 0 <= i < 0x1_0000_0000 {
        lemma_encoded(t.codec, Width::W32, i);
    }
}

/// A new table holds null references.
pub proof fn law_new(c: Codec, n: u32, max: u32, t: AnTable)
    requires
        call_ensures(AnTable::new, (c, n, max), t),
    ensures
        t.elems@.len() == n,
        forall|j: int| 0 <= j < n ==> #[trigger] t.elems@[j] is None,
        t.codec == c,
        t.max == max,
{
}

} // verus!
