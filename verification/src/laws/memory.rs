//! Loads, stores, writes of ranges and growth.
use super::bytes::{digit256, holds, lemma_byte_at, lemma_four, lemma_size, lemma_spells, spells};
use crate::bytes::byte_at;
use crate::emit::memory::{byte_weight, lemma_replaced, replace_byte};
use crate::memory::access::{mirror_byte, mirror_bytes};
use crate::memory::state::{touches, AnMemory};
use crate::traps::Trap;
use crate::wasm::Width;
use vstd::arithmetic::div_mod::{lemma_div_multiples_vanish, lemma_mod_multiples_basic};
use vstd::arithmetic::power2::{lemma2_to64, pow2};
use vstd::prelude::*;

verus! {

/// A multiple of the constant is a codeword and decodes to the other factor.
pub proof fn lemma_multiple(m: AnMemory, n: int)
    requires
        m.codec.a > 0,
    ensures
        m.codec.is_codeword(m.codec.a * n),
        m.codec.dec(m.codec.a * n) == n,
{
    let a = m.codec.a as int;
    assert(a * n == n * a) by (nonlinear_arith);
    lemma_mod_multiples_basic(n, a);
    lemma_div_multiples_vanish(n, a);
}

/// A load through an address and an offset is the load through the address that is their sum.
pub proof fn law_load_offset(
    m: AnMemory,
    w: Width,
    addr: u128,
    sum: u128,
    n: int,
    offset: u64,
    size: usize,
    signed: bool,
    r: Result<u128, Trap>,
    r0: Result<u128, Trap>,
)
    requires
        m.codec.a > 0,
        addr == m.codec.a * n,
        sum == m.codec.a * (n + offset),
        call_ensures(AnMemory::load, (&m, w, addr, offset, size, signed), r),
        call_ensures(AnMemory::load, (&m, w, sum, 0u64, size, signed), r0),
    ensures
        r == r0,
{
    lemma_multiple(m, n);
    lemma_multiple(m, n + offset);
}

/// A load within the memory, whose slots hold the constant times their bytes, gives the constant
/// times the number that the bytes at the sum of address and offset spell; a signed load extends
/// the sign of that number. A load that reaches beyond the memory is a trap.
pub proof fn law_load_value(
    m: AnMemory,
    w: Width,
    addr: u128,
    n: int,
    offset: u64,
    size: usize,
    signed: bool,
    u: int,
    r: Result<u128, Trap>,
)
    requires
        m.wf(),
        addr == m.codec.a * n,
        0 <= n,
        size == 1 || size == 2 || size == 4 || (size == 8 && w == Width::W64),
        m.an_encoding ==> forall|i: int|
            n + offset < 4 * i + 4 && 4 * i < n + offset + size ==> holds(
                m.codec.a as int,
                #[trigger] m.shadow@[i] as int,
                m.raw@,
                i,
            ),
        spells(m.raw@, n + offset, size as nat, u),
        call_ensures(AnMemory::load, (&m, w, addr, offset, size, signed), r),
    ensures
        n + offset + size > m.raw@.len() ==> r == Err::<u128, Trap>(Trap::MemoryOutOfBounds),
        n + offset + size <= m.raw@.len() ==> r is Ok && r->Ok_0 == m.codec.a * if signed && u
            >= pow2((8 * size - 1) as nat) {
            u + (match w {
                Width::W32 => 0x1_0000_0000int,
                Width::W64 => 0x1_0000_0000_0000_0000int,
            }) - pow2(8 * size as nat)
        } else {
            u
        },
{
    lemma_multiple(m, n);
    let e = n + offset;
    lemma_spells(m.raw@, e, size as nat, u);
    lemma2_to64();
    vstd::arithmetic::power2::lemma2_to64_rest();
    if e + size <= m.raw@.len() {
        assert forall|i: int|
            m.an_encoding && #[trigger] touches(e, size as int, i) implies m.slot_ok(i) by {
            assert(holds(m.codec.a as int, m.shadow@[i] as int, m.raw@, i));
            lemma_four(m.raw@, i);
        }
        crate::memory::access::lemma_load_consistent(m, w, e, size as nat, signed);
        vstd::arithmetic::div_mod::lemma_small_mod(u as nat, pow2(8 * size as nat));
    }
}

/// A load through a word that is no multiple of the constant is a trap, and so is one that
/// touches a slot which does not hold the constant times its bytes, but for an aligned load of a
/// whole slot: that gives the slot itself, where it is a multiple of the constant.
pub proof fn law_load_fault(
    m: AnMemory,
    w: Width,
    addr: u128,
    n: int,
    offset: u64,
    size: usize,
    signed: bool,
    i: int,
    r: Result<u128, Trap>,
)
    requires
        m.wf(),
        m.an_encoding,
        0 <= n,
        size > 0,
        call_ensures(AnMemory::load, (&m, w, addr, offset, size, signed), r),
    ensures
        addr as int % m.codec.a as int != 0 ==> r == Err::<u128, Trap>(Trap::AnCodewordInvalid),
        addr == m.codec.a * n && n + offset + size <= m.raw@.len() ==> {
            let whole = w == Width::W32 && size == 4 && (n + offset) % 4 == 0;
            &&& whole && i == (n + offset) / 4 ==> r == if m.shadow@[i] as int % m.codec.a as int
                == 0 {
                Ok::<u128, Trap>(m.shadow@[i] as u128)
            } else {
                Err(Trap::AnCodewordInvalid)
            }
            &&& !whole && n + offset < 4 * i + 4 && 4 * i < n + offset + size && !holds(
                m.codec.a as int,
                m.shadow@[i] as int,
                m.raw@,
                i,
            ) ==> r == Err::<u128, Trap>(Trap::AnMemoryMismatch)
        },
{
    lemma_multiple(m, n);
    let e = n + offset;
    if n + offset < 4 * i + 4 && 4 * i < n + offset + size {
        assert(touches(e, size as int, i));
        lemma_four(m.raw@, i);
    }
}

/// A store within the memory writes the bytes of the value from the sum of address and offset
/// on, and no others.
pub proof fn law_store_bytes(
    m: &mut AnMemory,
    w: Width,
    addr: u128,
    n: int,
    offset: u64,
    size: usize,
    x: u128,
    v: int,
    r: Result<(), Trap>,
)
    requires
        old(m).wf(),
        0 <= n,
        0 <= v,
        addr == old(m).codec.a * n,
        x == old(m).codec.a * v,
        call_ensures(AnMemory::store, (m, w, addr, offset, size, x), r),
    ensures
        final(m).raw@.len() == old(m).raw@.len(),
        final(m).codec.a == old(m).codec.a,
        final(m).an_encoding == old(m).an_encoding,
        final(m).index == old(m).index,
        final(m).max_pages == old(m).max_pages,
        final(m).whole_dirty == old(m).whole_dirty,
        n + offset + size > old(m).raw@.len() ==> r == Err::<(), Trap>(Trap::MemoryOutOfBounds)
            && *final(m) == *old(m),
        n + offset + size <= old(m).raw@.len() ==> forall|j: int|
            0 <= j < old(m).raw@.len() ==> #[trigger] final(m).raw@[j] == if n + offset <= j < n
                + offset + size {
                digit256(v, (j - (n + offset)) as nat)
            } else {
                old(m).raw@[j] as int
            },
{
    let (m0, t) = (*old(m), *final(m));
    lemma_multiple(m0, n);
    lemma_multiple(m0, v);
    let e = n + offset;
    assert forall|j: int|
        e + size <= m0.raw@.len() && 0 <= j < m0.raw@.len() implies #[trigger] t.raw@[j] == if e
        <= j < e + size {
        digit256(v, (j - e) as nat)
    } else {
        m0.raw@[j] as int
    } by {
        if e <= j < e + size {
            lemma_byte_at(v, (j - e) as nat);
        }
    }
}

/// The byte that a slot has for the address `y`.
pub open spec fn slot_digit(shadow: Seq<u64>, a: int, y: int) -> int {
    digit256(shadow[y / 4] as int / a, (y % 4) as nat)
}

/// Whether an access reaches the slot.
pub open spec fn reaches(e: int, n: int, i: int) -> bool {
    n > 0 && e < 4 * i + 4 && 4 * i < e + n
}

/// The weight of a byte of a word.
proof fn lemma_weight(k: int)
    requires
        0 <= k < 4,
    ensures
        pow2(8 * (k as nat)) == byte_weight(k),
{
    lemma2_to64();
    if k == 0 {
        assert(pow2(8 * 0nat) == 1);
    } else if k == 1 {
        assert(pow2(8 * 1nat) == 0x100);
    } else if k == 2 {
        assert(pow2(8 * 2nat) == 0x1_0000);
    } else {
        assert(pow2(8 * 3nat) == 0x100_0000);
    }
}

/// The low bytes of a number are those of its low word.
proof fn lemma_low_word(w: int, k: int)
    requires
        0 <= w,
        0 <= k < 4,
    ensures
        (w % 0x1_0000_0000) / byte_weight(k) % 0x100 == w / byte_weight(k) % 0x100,
{
    let (v, h) = (w % 0x1_0000_0000, w / 0x1_0000_0000);
    assert(w == 0x1_0000_0000 * h + v);
    if k == 0 {
        assert(w / 1 == w && v / 1 == v);
        assert(w % 0x100 == v % 0x100);
    } else if k == 1 {
        assert(w / 0x100 == 0x100_0000 * h + v / 0x100);
    } else if k == 2 {
        assert(w / 0x1_0000 == 0x1_0000 * h + v / 0x1_0000);
    } else {
        assert(w / 0x100_0000 == 0x100 * h + v / 0x100_0000);
    }
}

/// The four bytes of a word.
proof fn lemma_digits(w: int, k: int)
    requires
        0 <= w,
        0 <= k < 4,
    ensures
        digit256(w, k as nat) == w / byte_weight(k) % 0x100,
        digit256(w % 0x1_0000_0000, k as nat) == digit256(w, k as nat),
{
    lemma_weight(k);
    lemma_low_word(w, k);
}

/// What mirroring a byte does to its slot.
proof fn lemma_mirrored_byte(shadow: Seq<u64>, a: int, x: int, b: u8)
    requires
        0 < a < 0x100_0000,
        0 <= x < 4 * shadow.len(),
        shadow[x / 4] as int % a == 0,
    ensures
        ({
            let (after, ok) = mirror_byte(shadow, a, x, b);
            &&& ok
            &&& after.len() == shadow.len()
            &&& forall|i: int| 0 <= i < shadow.len() && i != x / 4 ==> after[i] == shadow[i]
            &&& after[x / 4] as int % a == 0
            &&& after[x / 4] as int / a < 0x1_0000_0000
            &&& forall|y: int|
                y / 4 == x / 4 ==> #[trigger] slot_digit(after, a, y) == if y == x {
                    b as int
                } else {
                    slot_digit(shadow, a, y)
                }
        }),
{
    let i = x / 4;
    let (after, ok) = mirror_byte(shadow, a, x, b);
    let q = shadow[i] as int / a;
    assert(0 <= q) by (nonlinear_arith)
        requires
            q == shadow[i] as int / a,
            a > 0,
    ;
    let w = q % 0x1_0000_0000;
    let v = replace_byte(w, x % 4, b as int);
    crate::memory::access::lemma_replace_range(w, x % 4, b as int);
    assert(0 <= a * v < 0x100_0000 * 0x1_0000_0000 && a * v == v * a) by (nonlinear_arith)
        requires
            0 < a < 0x100_0000,
            0 <= v < 0x1_0000_0000,
    ;
    lemma_mod_multiples_basic(v, a);
    lemma_div_multiples_vanish(v, a);
    assert forall|y: int| y / 4 == i implies #[trigger] slot_digit(after, a, y) == if y == x {
        b as int
    } else {
        slot_digit(shadow, a, y)
    } by {
        lemma_replaced(w, x % 4, b as int, y % 4);
        lemma_digits(v, y % 4);
        lemma_digits(q, y % 4);
        lemma_digits(w, y % 4);
    }
}

/// Bytes of a value were brought into the slots that hold them, one by one: this goes through
/// exactly where these slots are multiples of the constant, replaces the bytes that are written
/// and keeps the others.
pub open spec fn parts_brought(
    before: Seq<u64>,
    after: Seq<u64>,
    a: int,
    e: int,
    v: int,
    n: int,
    ok: bool,
) -> bool {
    &&& after.len() == before.len()
    &&& ok <==> forall|i: int| reaches(e, n, i) ==> #[trigger] before[i] as int % a == 0
    &&& forall|i: int|
        0 <= i < before.len() && !reaches(e, n, i) ==> #[trigger] after[i] == before[i]
    &&& ok ==> forall|i: int|
        reaches(e, n, i) ==> #[trigger] after[i] as int % a == 0 && after[i] as int / a
            < 0x1_0000_0000
    &&& ok ==> forall|y: int|
        0 <= y < 4 * before.len() ==> #[trigger] slot_digit(after, a, y) == if e <= y < e + n {
            digit256(v, (y - e) as nat)
        } else {
            slot_digit(before, a, y)
        }
}

/// What mirroring some bytes does to the slots.
proof fn lemma_mirrored(shadow: Seq<u64>, a: int, e: int, v: int, n: nat)
    requires
        0 < a < 0x100_0000,
        0 <= e,
        0 <= v,
        e + n <= 4 * shadow.len(),
    ensures
        parts_brought(
            shadow,
            mirror_bytes(shadow, a, e, v, n).0,
            a,
            e,
            v,
            n as int,
            mirror_bytes(shadow, a, e, v, n).1,
        ),
    decreases n,
{
    let (after, ok) = mirror_bytes(shadow, a, e, v, n);
    if n > 0 {
        let k = (n - 1) as nat;
        let x = e + k;
        let (mid, ok0) = mirror_bytes(shadow, a, e, v, k);
        lemma_mirrored(shadow, a, e, v, k);
        lemma_byte_at(v, k);
        assert forall|i: int| reaches(e, n as int, i) implies reaches(e, k as int, i) || i == x
            / 4 by {}
        assert(ok <==> forall|i: int|
            reaches(e, n as int, i) ==> #[trigger] shadow[i] as int % a == 0) by {
            if ok {
                assert forall|i: int| reaches(e, n as int, i) implies #[trigger] shadow[i] as int
                    % a == 0 by {
                    if !reaches(e, k as int, i) {
                        assert(mid[i] == shadow[i]);
                    }
                }
            } else if ok0 {
                let i = x / 4;
                assert(mid[i] as int % a != 0);
                assert(reaches(e, n as int, i));
                if reaches(e, k as int, i) {
                    assert(mid[i] as int % a == 0);
                }
                assert(shadow[i] as int % a != 0);
            }
        }
        if ok {
            lemma_mirrored_byte(mid, a, x, byte_at(v, k));
            assert forall|y: int| 0 <= y < 4 * shadow.len() implies #[trigger] slot_digit(
                after,
                a,
                y,
            ) == if e <= y < e + n {
                digit256(v, (y - e) as nat)
            } else {
                slot_digit(shadow, a, y)
            } by {
                assert(slot_digit(mid, a, y) == if e <= y < e + k {
                    digit256(v, (y - e) as nat)
                } else {
                    slot_digit(shadow, a, y)
                });
            }
            assert forall|i: int|
                0 <= i < shadow.len() && !reaches(e, n as int, i) implies #[trigger] after[i]
                == shadow[i] by {
                assert(mid[i] == shadow[i]);
            }
            assert forall|i: int| reaches(e, n as int, i) implies #[trigger] after[i] as int % a
                == 0 && after[i] as int / a < 0x1_0000_0000 by {
                if i != x / 4 {
                    assert(reaches(e, k as int, i));
                    assert(mid[i] as int % a == 0);
                }
            }
        } else {
            assert forall|i: int|
                0 <= i < shadow.len() && !reaches(e, n as int, i) implies #[trigger] after[i]
                == shadow[i] by {
                assert(mid[i] == shadow[i]);
            }
        }
    }
}

/// A store of whole slots makes them hold their bytes, and leaves the others. Without encoding
/// there are none.
pub proof fn law_store_whole(
    m: &mut AnMemory,
    w: Width,
    addr: u128,
    n: int,
    offset: u64,
    size: usize,
    x: u128,
    v: int,
    r: Result<(), Trap>,
)
    requires
        old(m).wf(),
        0 <= n,
        0 <= v,
        addr == old(m).codec.a * n,
        x == old(m).codec.a * v,
        n + offset + size <= old(m).raw@.len(),
        !old(m).an_encoding || (n + offset) % 4 == 0 && size >= 4,
        call_ensures(AnMemory::store, (m, w, addr, offset, size, x), r),
    ensures
        r is Ok,
        final(m).shadow@.len() == old(m).shadow@.len(),
        forall|i: int|
            0 <= i < old(m).shadow@.len() && !reaches(n + offset, size as int, i)
                ==> #[trigger] final(m).shadow@[i] == old(m).shadow@[i],
        old(m).an_encoding ==> forall|i: int|
            reaches(n + offset, size as int, i) ==> holds(
                old(m).codec.a as int,
                #[trigger] final(m).shadow@[i] as int,
                final(m).raw@,
                i,
            ),
{
    let (m0, t) = (*old(m), *final(m));
    lemma_multiple(m0, n);
    lemma_multiple(m0, v);
    let e = n + offset;
    if m0.an_encoding {
        assert(t.range_ok(e, size as int));
        assert forall|i: int| reaches(e, size as int, i) implies holds(
            m0.codec.a as int,
            #[trigger] t.shadow@[i] as int,
            t.raw@,
            i,
        ) by {
            assert(touches(e, size as int, i));
            assert(t.slot_ok(i));
            lemma_four(t.raw@, i);
        }
        assert forall|i: int|
            0 <= i < m0.shadow@.len() && !reaches(e, size as int, i) implies #[trigger] t.shadow@[i]
            == m0.shadow@[i] by {
            assert(!touches(e, size as int, i));
        }
    }
}

/// A store of less than whole slots brings its bytes into the slots that hold them; a slot that
/// is no multiple of the constant is a trap.
pub proof fn law_store_parts(
    m: &mut AnMemory,
    w: Width,
    addr: u128,
    n: int,
    offset: u64,
    size: usize,
    x: u128,
    v: int,
    r: Result<(), Trap>,
)
    requires
        old(m).wf(),
        0 <= n,
        0 <= v,
        addr == old(m).codec.a * n,
        x == old(m).codec.a * v,
        n + offset + size <= old(m).raw@.len(),
        old(m).an_encoding && !((n + offset) % 4 == 0 && size >= 4),
        call_ensures(AnMemory::store, (m, w, addr, offset, size, x), r),
    ensures
        parts_brought(
            old(m).shadow@,
            final(m).shadow@,
            old(m).codec.a as int,
            n + offset,
            v,
            size as int,
            r is Ok,
        ),
        r matches Err(t) ==> t == Trap::AnCodewordInvalid,
{
    let m0 = *old(m);
    lemma_multiple(m0, n);
    lemma_multiple(m0, v);
    lemma_mirrored(m0.shadow@, m0.codec.a as int, n + offset, v, size as nat);
}

/// A store through a word, or of a word, that is no multiple of the constant changes nothing.
pub proof fn law_store_fault(
    m: &mut AnMemory,
    w: Width,
    addr: u128,
    n: int,
    offset: u64,
    size: usize,
    x: u128,
    r: Result<(), Trap>,
)
    requires
        old(m).wf(),
        0 <= n,
        call_ensures(AnMemory::store, (m, w, addr, offset, size, x), r),
    ensures
        addr as int % old(m).codec.a as int != 0 ==> r == Err::<(), Trap>(Trap::AnCodewordInvalid)
            && *final(m) == *old(m),
        addr == old(m).codec.a * n && n + offset + size <= old(m).raw@.len() && x as int % old(
            m).codec.a as int != 0 ==> r == Err::<(), Trap>(Trap::AnCodewordInvalid) && *final(m)
            == *old(m),
{
    lemma_multiple(*old(m), n);
}

/// What a store wrote through an address and an offset, a load through their sum gives back,
/// reduced to the bytes of the access, where the slots held their bytes before.
pub proof fn law_load_after_store(
    m: &mut AnMemory,
    w: Width,
    addr: u128,
    sum: u128,
    n: int,
    offset: u64,
    size: usize,
    x: u128,
    v: int,
    r: Result<(), Trap>,
    y: Result<u128, Trap>,
)
    requires
        old(m).wf(),
        0 <= n,
        0 <= v < match w {
            Width::W32 => 0x1_0000_0000int,
            Width::W64 => 0x1_0000_0000_0000_0000int,
        },
        size == 1 || size == 2 || size == 4 || (size == 8 && w == Width::W64),
        addr == old(m).codec.a * n,
        sum == old(m).codec.a * (n + offset),
        x == old(m).codec.a * v,
        n + offset + size <= old(m).raw@.len(),
        old(m).an_encoding ==> forall|i: int|
            n + offset < 4 * i + 4 && 4 * i < n + offset + size ==> holds(
                old(m).codec.a as int,
                #[trigger] old(m).shadow@[i] as int,
                old(m).raw@,
                i,
            ),
        call_ensures(AnMemory::store, (m, w, addr, offset, size, x), r),
        call_ensures(AnMemory::load, (&*final(m), w, sum, 0u64, size, false), y),
    ensures
        r is Ok,
        y is Ok,
        y->Ok_0 == old(m).codec.a * (v % pow2(8 * size as nat) as int),
{
    let (m0, t) = (*old(m), *final(m));
    lemma_multiple(m0, n);
    lemma_multiple(m0, v);
    lemma_multiple(m0, n + offset);
    let e = n + offset;
    assert forall|i: int|
        m0.an_encoding && #[trigger] touches(e, size as int, i) implies m0.slot_ok(i) by {
        assert(holds(m0.codec.a as int, m0.shadow@[i] as int, m0.raw@, i));
        lemma_four(m0.raw@, i);
    }
    lemma_size(size as nat);
    crate::memory::access::lemma_load_after_store(m0, t, w, e, v, size as nat);
}

/// An access through the constant times an address and an offset goes to their sum.
pub proof fn law_effective(
    m: AnMemory,
    addr: u128,
    n: int,
    offset: u64,
    size: usize,
    r: Result<usize, Trap>,
)
    requires
        m.codec.a > 0,
        call_ensures(AnMemory::effective, (&m, addr, offset, size), r),
    ensures
        addr as int % m.codec.a as int != 0 ==> r == Err::<usize, Trap>(Trap::AnCodewordInvalid),
        0 <= n && addr == m.codec.a * n ==> {
            &&& n + offset + size > m.raw@.len() ==> r == Err::<usize, Trap>(
                Trap::MemoryOutOfBounds,
            )
            &&& n + offset + size <= m.raw@.len() ==> r is Ok && r->Ok_0 == n + offset
        },
{
    lemma_multiple(m, n);
}

} // verus!
