//! The guest's loads and stores.
use super::state::{mirrors, slot_word, touches, AnMemory};
use crate::bytes::{
    byte_at, le, lemma_le_range, lemma_le_same, lemma_read_back, lemma_sizes, read_le,
    size_of_bytes, stored, write_le,
};
use crate::codec::Codec;
use crate::emit::memory::{byte_weight, replace_byte};
use crate::traps::Trap;
use crate::wasm::{extend_s, Width};
use vstd::prelude::*;

verus! {

/// The loaded bytes as a value of the width.
pub open spec fn extended(w: Width, n: nat, signed: bool, v: int) -> int {
    if signed && 8 * n < w.bits() {
        extend_s(w, 8 * n, v)
    } else {
        v
    }
}

/// The shadow after one byte was mirrored, and whether the slot held a codeword before.
pub open spec fn mirror_byte(shadow: Seq<u64>, a: int, x: int, b: u8) -> (Seq<u64>, bool) {
    let i = x / 4;
    if shadow[i] as int % a == 0 {
        let w = replace_byte((shadow[i] as int / a) % 0x1_0000_0000, x % 4, b as int);
        (shadow.update(i, (a * w) as u64), true)
    } else {
        (shadow, false)
    }
}

/// The shadow after `n` bytes of a value were mirrored one by one, up to the first slot that
/// held no codeword, and whether there was none.
pub open spec fn mirror_bytes(shadow: Seq<u64>, a: int, off: int, v: int, n: nat) -> (
    Seq<u64>,
    bool,
)
    decreases n,
{
    if n == 0 {
        (shadow, true)
    } else {
        let k = (n - 1) as nat;
        let (before, ok) = mirror_bytes(shadow, a, off, v, k);
        if ok {
            mirror_byte(before, a, off + k, byte_at(v, k))
        } else {
            (before, false)
        }
    }
}

/// The value of a slot, byte by byte.
proof fn lemma_slot_bytes(raw: Seq<u8>, i: int)
    ensures
        slot_word(raw, i) == raw[4 * i] + 0x100 * raw[4 * i + 1] + 0x1_0000 * raw[4 * i + 2]
            + 0x100_0000 * raw[4 * i + 3],
{
    reveal_with_fuel(le, 5);
}

/// Replacing one of four bytes.
proof fn lemma_replace_bytes(b0: u8, b1: u8, b2: u8, b3: u8, pos: int, b: u8)
    requires
        0 <= pos < 4,
    ensures
        replace_byte(b0 + 0x100 * b1 + 0x1_0000 * b2 + 0x100_0000 * b3, pos, b as int) == (if pos
            == 0 {
            b
        } else {
            b0
        }) + 0x100 * (if pos == 1 {
            b
        } else {
            b1
        }) + 0x1_0000 * (if pos == 2 {
            b
        } else {
            b2
        }) + 0x100_0000 * (if pos == 3 {
            b
        } else {
            b3
        }),
{
    let w = b0 + 0x100 * b1 + 0x1_0000 * b2 + 0x100_0000 * b3;
    assert(w / 1 == w && w / 0x100 == b1 + 0x100 * b2 + 0x1_0000 * b3 && w / 0x1_0000 == b2 + 0x100
        * b3 && w / 0x100_0000 == b3);
    assert(w % 0x100 == b0 && (b1 + 0x100 * b2 + 0x1_0000 * b3) % 0x100 == b1 && (b2 + 0x100 * b3)
        % 0x100 == b2 && b3 as int % 0x100 == b3);
}

/// A byte in place of another changes the value of its slot by that byte.
pub proof fn lemma_slot_update(raw: Seq<u8>, x: int, b: u8)
    requires
        0 <= x < raw.len(),
        raw.len() % 4 == 0,
    ensures
        slot_word(raw.update(x, b), x / 4) == replace_byte(
            slot_word(raw, x / 4),
            x % 4,
            b as int,
        ),
        forall|i: int|
            0 <= i < raw.len() / 4 && i != x / 4 ==> #[trigger] slot_word(raw.update(x, b), i)
                == slot_word(raw, i),
{
    let i = x / 4;
    lemma_slot_bytes(raw, i);
    lemma_slot_bytes(raw.update(x, b), i);
    lemma_replace_bytes(raw[4 * i], raw[4 * i + 1], raw[4 * i + 2], raw[4 * i + 3], x % 4, b);
    assert forall|j: int| 0 <= j < raw.len() / 4 && j != x / 4 implies #[trigger] slot_word(
        raw.update(x, b),
        j,
    ) == slot_word(raw, j) by {
        lemma_le_same(raw.update(x, b), raw, 4 * j, 4);
    }
}

/// The value of a slot is 32 bits wide, and its encoding decodes to it.
proof fn lemma_mirrored_slot(c: Codec, raw: Seq<u8>, shadow: Seq<u64>, i: int)
    requires
        c.wf(),
    ensures
        0 <= slot_word(raw, i) < 0x1_0000_0000,
        0 <= c.enc(slot_word(raw, i)) <= u64::MAX,
        mirrors(c, raw, shadow, i) ==> shadow[i] as int % c.a as int == 0 && shadow[i] as int
            / c.a as int == slot_word(raw, i),
{
    lemma_le_range(raw, 4 * i, 4);
    lemma_sizes();
    c.lemma_round_trip(Width::W32, slot_word(raw, i));
    c.lemma_band(Width::W32);
    let a = c.a as int;
    assert(a * 0x1_0000_0000 <= 0x100_0000 * 0x1_0000_0000);
}

/// Mirroring a byte keeps the slots that mirror their bytes, while the byte itself is written.
proof fn lemma_mirror_byte(c: Codec, raw: Seq<u8>, shadow: Seq<u64>, x: int, b: u8)
    requires
        c.wf(),
        4 * shadow.len() == raw.len(),
        0 <= x < raw.len(),
    ensures
        ({
            let (after, ok) = mirror_byte(shadow, c.a as int, x, b);
            &&& after.len() == shadow.len()
            &&& mirrors(c, raw, shadow, x / 4) ==> ok
            &&& forall|i: int|
                0 <= i < shadow.len() && #[trigger] mirrors(c, raw, shadow, i) ==> mirrors(
                    c,
                    raw.update(x, b),
                    after,
                    i,
                )
        }),
{
    let (after, ok) = mirror_byte(shadow, c.a as int, x, b);
    lemma_slot_update(raw, x, b);
    assert forall|i: int| 0 <= i < shadow.len() && #[trigger] mirrors(
        c,
        raw,
        shadow,
        i,
    ) implies mirrors(c, raw.update(x, b), after, i) by {
        lemma_mirrored_slot(c, raw, shadow, i);
        lemma_mirrored_slot(c, raw.update(x, b), after, i);
        if i == x / 4 {
            vstd::arithmetic::div_mod::lemma_small_mod(slot_word(raw, i) as nat, 0x1_0000_0000);
        } else {
            assert(slot_word(raw.update(x, b), i) == slot_word(raw, i));
        }
    }
    lemma_mirrored_slot(c, raw, shadow, x / 4);
}

/// Mirroring what is written keeps every slot that mirrors its bytes, and does not stop where
/// the slots it touches do.
proof fn lemma_mirror_bytes(c: Codec, raw: Seq<u8>, shadow: Seq<u64>, e: int, v: int, n: nat)
    requires
        c.wf(),
        4 * shadow.len() == raw.len(),
        0 <= e,
        e + n <= raw.len(),
    ensures
        ({
            let (after, ok) = mirror_bytes(shadow, c.a as int, e, v, n);
            &&& after.len() == shadow.len()
            &&& ok ==> forall|i: int|
                0 <= i < shadow.len() && #[trigger] mirrors(c, raw, shadow, i) ==> mirrors(
                    c,
                    stored(raw, e, v, n),
                    after,
                    i,
                )
            &&& (forall|i: int| #[trigger]
                touches(e, n as int, i) ==> mirrors(c, raw, shadow, i)) ==> ok
        }),
    decreases n,
{
    let a = c.a as int;
    let (after, ok) = mirror_bytes(shadow, a, e, v, n);
    if n == 0 {
        assert(stored(raw, e, v, n) =~= raw);
    } else {
        let k = (n - 1) as nat;
        let (mid, ok0) = mirror_bytes(shadow, a, e, v, k);
        let mid_raw = stored(raw, e, v, k);
        let b = byte_at(v, k);
        lemma_mirror_bytes(c, raw, shadow, e, v, k);
        assert(stored(raw, e, v, n) =~= mid_raw.update(e + k, b));
        lemma_mirror_byte(c, mid_raw, mid, e + k, b);
        if ok {
            assert forall|i: int| 0 <= i < shadow.len() && #[trigger] mirrors(
                c,
                raw,
                shadow,
                i,
            ) implies mirrors(c, stored(raw, e, v, n), after, i) by {
                assert(mirrors(c, mid_raw, mid, i));
            }
        }
        if forall|i: int| #[trigger] touches(e, n as int, i) ==> mirrors(c, raw, shadow, i) {
            assert forall|i: int| #[trigger] touches(e, k as int, i) implies mirrors(
                c,
                raw,
                shadow,
                i,
            ) by {
                assert(touches(e, n as int, i));
            }
            let i = (e + k) / 4;
            assert(touches(e, n as int, i));
            assert(mirrors(c, mid_raw, mid, i));
        }
    }
}

impl AnMemory {
    /// The byte address of an access through an encoded address and a constant offset: the
    /// address is checked, and the access must be within the memory.
    pub open spec fn address(self, addr: int, offset: int, n: int) -> Result<int, Trap> {
        if !self.codec.is_codeword(addr) {
            Err(Trap::AnCodewordInvalid)
        } else if self.codec.dec(addr) + offset + n > self.raw@.len() {
            Err(Trap::MemoryOutOfBounds)
        } else {
            Ok(self.codec.dec(addr) + offset)
        }
    }

    /// What a load of `n` bytes at a byte address gives. An aligned 32-bit load takes its
    /// codeword from the shadow; every other load compares the slots that it touches.
    pub open spec fn loaded(self, w: Width, e: int, n: nat, signed: bool) -> Result<int, Trap> {
        if self.an_encoding && w == Width::W32 && n == 4 && e % 4 == 0 {
            if self.codec.is_codeword(self.shadow@[e / 4] as int) {
                Ok(self.shadow@[e / 4] as int)
            } else {
                Err(Trap::AnCodewordInvalid)
            }
        } else if self.an_encoding && !self.range_ok(e, n as int) {
            Err(Trap::AnMemoryMismatch)
        } else {
            Ok(self.codec.enc(extended(w, n, signed, le(self.raw@, e, n))))
        }
    }

    /// The byte address of an access.
    pub fn effective(&self, addr: u128, offset: u64, n: usize) -> (r: Result<usize, Trap>)
        requires
            self.wf(),
            self.codec.in_band(self.index, addr as int),
            n <= 8,
        ensures
            match r {
                Ok(e) => self.address(addr as int, offset as int, n as int) == Ok::<int, Trap>(
                    e as int,
                ) && e + n <= self.raw@.len(),
                Err(t) => self.address(addr as int, offset as int, n as int) == Err::<int, Trap>(
                    t,
                ),
            },
    {
        match self.codec.decode(self.index, addr) {
            Err(t) => Err(t),
            Ok(base) => {
                let total: usize = self.raw.len();
                let e: u128 = (base as u128) + (offset as u128);
                if e + (n as u128) > total as u128 {
                    Err(Trap::MemoryOutOfBounds)
                } else {
                    Ok(e as usize)
                }
            },
        }
    }

    /// Loads `n` bytes as a value of the width.
    pub fn load(&self, w: Width, addr: u128, offset: u64, n: usize, signed: bool) -> (r: Result<
        u128,
        Trap,
    >)
        requires
            self.wf(),
            self.codec.in_band(self.index, addr as int),
            n == 1 || n == 2 || n == 4 || n == 8,
            8 * n <= w.bits(),
        ensures
            match self.address(addr as int, offset as int, n as int) {
                Err(t) => r == Err::<u128, Trap>(t),
                Ok(e) => match self.loaded(w, e, n as nat, signed) {
                    Err(t) => r == Err::<u128, Trap>(t),
                    Ok(x) => r is Ok && r->Ok_0 == x,
                },
            },
    {
        let e: usize = match self.effective(addr, offset, n) {
            Ok(e) => e,
            Err(t) => {
                return Err(t);
            },
        };
        let narrow: bool = match w {
            Width::W32 => true,
            Width::W64 => false,
        };
        if self.an_encoding {
            if narrow && n == 4 && e % 4 == 0 {
                let word: u128 = self.shadow[e / 4] as u128;
                return match self.codec.check(word) {
                    Ok(_) => Ok(word),
                    Err(t) => Err(t),
                };
            }
            if !self.range_consistent(e, n) {
                return Err(Trap::AnMemoryMismatch);
            }
        }
        let v: u64 = read_le(&self.raw, e, n);
        proof {
            lemma_sizes();
            vstd::arithmetic::power2::lemma2_to64();
            vstd::arithmetic::div_mod::lemma_small_mod(v as nat, size_of_bytes(n as nat) as nat);
        }
        let size: u128 = if n == 1 {
            0x100
        } else if n == 2 {
            0x1_0000
        } else {
            0x1_0000_0000
        };
        let full: bool = n == 8 || (narrow && n == 4);
        let value: u64 = if signed && !full && 2 * (v as u128) >= size {
            (v as u128 + (if narrow {
                0x1_0000_0000u128
            } else {
                0x1_0000_0000_0000_0000u128
            }) - size) as u64
        } else {
            v
        };
        Ok(self.codec.encode(w, value))
    }

    /// Mirrors the bytes of a value that has been written to the raw bytes, one after the other:
    /// each slot is checked, decoded, merged with the byte and encoded again.
    fn mirror(&mut self, e: usize, v: u64, n: usize) -> (ok: bool)
        requires
            old(self).wf(),
            old(self).an_encoding,
            e + n <= old(self).raw@.len(),
            n <= 8,
        ensures
            final(self).wf(),
            final(self).same_kind(*old(self)),
            final(self).whole_dirty == old(self).whole_dirty,
            final(self).raw == old(self).raw,
            (final(self).shadow@, ok) == mirror_bytes(
                old(self).shadow@,
                old(self).codec.a as int,
                e as int,
                v as int,
                n as nat,
            ),
    {
        let ghost m0 = *old(self);
        let total: usize = self.raw.len();
        let a: u64 = self.codec.a;
        let mut rest: u64 = v;
        let mut k: usize = 0;
        while k < n
            invariant
                m0 == *old(self),
                self.wf(),
                self.an_encoding,
                self.same_kind(m0),
                self.whole_dirty == m0.whole_dirty,
                self.raw == m0.raw,
                total == m0.raw@.len(),
                a == m0.codec.a,
                k <= n <= 8,
                e + n <= total,
                forall|j: int|
                    k <= j < n ==> byte_at(v as int, j as nat) == #[trigger] byte_at(
                        rest as int,
                        (j - k) as nat,
                    ),
                (self.shadow@, true) == mirror_bytes(
                    m0.shadow@,
                    a as int,
                    e as int,
                    v as int,
                    k as nat,
                ),
            decreases n - k,
        {
            let x: usize = e + k;
            let i: usize = x / 4;
            let slot: u64 = self.shadow[i];
            assert(byte_at(v as int, k as nat) == byte_at(rest as int, (k - k) as nat));
            if slot % a != 0 {
                proof {
                    lemma_mirror_stops(
                        m0.shadow@,
                        a as int,
                        e as int,
                        v as int,
                        (k + 1) as nat,
                        n as nat,
                    );
                }
                return false;
            }
            let word: u64 = (slot / a) % 0x1_0000_0000;
            let b: u64 = rest % 0x100;
            let pos: usize = x % 4;
            let weight: u64 = if pos == 0 {
                1
            } else if pos == 1 {
                0x100
            } else if pos == 2 {
                0x1_0000
            } else {
                0x100_0000
            };
            proof {
                lemma_replace_range(word as int, pos as int, b as int);
                let w2 = replace_byte(word as int, pos as int, b as int);
                assert(0 <= a * w2 < 0x100_0000 * 0x1_0000_0000) by (nonlinear_arith)
                    requires
                        0 < a < 0x100_0000,
                        0 <= w2 < 0x1_0000_0000,
                ;
            }
            let cleared: u64 = word - (word / weight) % 0x100 * weight;
            let merged: u64 = cleared + b * weight;
            self.shadow.set(i, a * merged);
            assert forall|j: int| k + 1 <= j < n implies byte_at(v as int, j as nat)
                == #[trigger] byte_at((rest / 0x100) as int, (j - (k + 1)) as nat) by {
                assert(byte_at(v as int, j as nat) == byte_at(rest as int, (j - k) as nat));
            }
            rest = rest / 0x100;
            k = k + 1;
        }
        true
    }

    /// Encodes the slots of an aligned range anew from the raw bytes.
    pub(crate) fn encode_slots(&mut self, first: usize, last: usize)
        requires
            old(self).wf(),
            old(self).an_encoding,
            first <= last < old(self).shadow@.len(),
        ensures
            final(self).wf(),
            final(self).same_kind(*old(self)),
            final(self).whole_dirty == old(self).whole_dirty,
            final(self).raw == old(self).raw,
            final(self).shadow@.len() == old(self).shadow@.len(),
            forall|i: int|
                0 <= i < final(self).shadow@.len() ==> #[trigger] final(self).shadow@[i] == if first
                    <= i <= last {
                    old(self).codec.enc(slot_word(old(self).raw@, i))
                } else {
                    old(self).shadow@[i] as int
                },
    {
        let ghost m0 = *self;
        let slots: usize = self.shadow.len();
        let mut i: usize = first;
        while i <= last
            invariant
                self.wf(),
                self.an_encoding,
                self.same_kind(m0),
                self.whole_dirty == m0.whole_dirty,
                self.raw == m0.raw,
                slots == m0.shadow@.len(),
                self.shadow@.len() == slots,
                first <= i <= last + 1,
                last < slots,
                forall|j: int|
                    0 <= j < slots ==> #[trigger] self.shadow@[j] == if first <= j < i {
                        m0.codec.enc(slot_word(m0.raw@, j))
                    } else {
                        m0.shadow@[j] as int
                    },
            decreases last + 1 - i,
        {
            let x: u64 = self.encoded_slot(i);
            self.shadow.set(i, x);
            i = i + 1;
        }
    }

    /// Stores the low `n` bytes of a value of the width. The address and the value are checked
    /// and decoded. Whole slots are encoded anew; a store that covers slots in part mirrors its
    /// bytes one by one, and traps at a slot that holds no codeword.
    pub fn store(&mut self, w: Width, addr: u128, offset: u64, n: usize, x: u128) -> (r: Result<
        (),
        Trap,
    >)
        requires
            old(self).wf(),
            old(self).codec.in_band(old(self).index, addr as int),
            old(self).codec.in_band(w, x as int),
            n == 1 || n == 2 || n == 4 || n == 8,
            8 * n <= w.bits(),
        ensures
            final(self).wf(),
            final(self).same_kind(*old(self)),
            final(self).whole_dirty == old(self).whole_dirty,
            match old(self).address(addr as int, offset as int, n as int) {
                Err(t) => r == Err::<(), Trap>(t) && *final(self) == *old(self),
                Ok(e) => if !old(self).codec.is_codeword(x as int) {
                    r == Err::<(), Trap>(Trap::AnCodewordInvalid) && *final(self) == *old(self)
                } else {
                    let v = old(self).codec.dec(x as int);
                    let whole = e % 4 == 0 && n >= 4;
                    let (mirrored, ok) = mirror_bytes(
                        old(self).shadow@,
                        old(self).codec.a as int,
                        e,
                        v,
                        n as nat,
                    );
                    &&& final(self).raw@ == stored(old(self).raw@, e, v, n as nat)
                    &&& !old(self).an_encoding ==> r is Ok && final(self).shadow@ == old(
                        self,
                    ).shadow@
                    &&& old(self).an_encoding && whole ==> {
                        &&& r is Ok
                        &&& final(self).range_ok(e, n as int)
                        &&& forall|i: int|
                            0 <= i < old(self).shadow@.len() && !touches(e, n as int, i)
                                ==> #[trigger] final(self).shadow@[i] == old(self).shadow@[i]
                    }
                    &&& old(self).an_encoding && !whole ==> {
                        &&& final(self).shadow@ == mirrored
                        &&& r is Ok <==> ok
                        &&& r matches Err(t) ==> t == Trap::AnCodewordInvalid
                        &&& old(self).range_ok(e, n as int) ==> ok && final(self).range_ok(
                            e,
                            n as int,
                        )
                    }
                    &&& r is Ok ==> forall|i: int|
                        0 <= i < old(self).shadow@.len() && #[trigger] old(self).slot_ok(i)
                            ==> final(self).slot_ok(i)
                },
            },
    {
        let e: usize = match self.effective(addr, offset, n) {
            Ok(e) => e,
            Err(t) => {
                return Err(t);
            },
        };
        let v: u64 = match self.codec.decode(w, x) {
            Ok(v) => v,
            Err(t) => {
                return Err(t);
            },
        };
        let ghost m0 = *self;
        let total: usize = self.raw.len();
        write_le(&mut self.raw, e, v, n);
        if !self.an_encoding {
            return Ok(());
        }
        if e % 4 == 0 && n >= 4 {
            let first: usize = e / 4;
            let last: usize = (e + (n - 1)) / 4;
            self.encode_slots(first, last);
            proof {
                assert forall|i: int| #[trigger] touches(e as int, n as int, i) implies self.slot_ok(
                    i,
                ) by {
                    assert(self.shadow@[i] == self.codec.enc(slot_word(self.raw@, i)));
                }
                assert forall|i: int|
                    0 <= i < m0.shadow@.len() && #[trigger] m0.slot_ok(i) implies self.slot_ok(
                    i,
                ) by {
                    if !touches(e as int, n as int, i) {
                        assert(self.shadow@[i] == m0.shadow@[i]);
                        lemma_le_same(self.raw@, m0.raw@, 4 * i, 4);
                    }
                }
            }
            return Ok(());
        }
        let ok: bool = self.mirror(e, v, n);
        proof {
            lemma_mirror_bytes(m0.codec, m0.raw@, m0.shadow@, e as int, v as int, n as nat);
            assert forall|i: int|
                0 <= i < m0.shadow@.len() && #[trigger] m0.slot_ok(i) && ok implies self.slot_ok(
                i,
            ) by {
                assert(mirrors(m0.codec, m0.raw@, m0.shadow@, i));
            }
            if m0.range_ok(e as int, n as int) {
                assert forall|i: int| #[trigger] touches(e as int, n as int, i) implies mirrors(
                    m0.codec,
                    m0.raw@,
                    m0.shadow@,
                    i,
                ) by {
                    assert(m0.slot_ok(i));
                }
                assert forall|i: int| #[trigger] touches(e as int, n as int, i) implies self.slot_ok(
                    i,
                ) by {
                    assert(m0.slot_ok(i));
                }
            }
        }
        if ok {
            Ok(())
        } else {
            Err(Trap::AnCodewordInvalid)
        }
    }
}

/// A word stays within 32 bits when a byte of it is replaced.
pub proof fn lemma_replace_range(w: int, pos: int, b: int)
    requires
        0 <= w < 0x1_0000_0000,
        0 <= pos < 4,
        0 <= b < 0x100,
    ensures
        0 <= replace_byte(w, pos, b) < 0x1_0000_0000,
        0 <= w / byte_weight(pos) % 0x100 * byte_weight(pos) <= w,
        replace_byte(w, pos, b) == w - w / byte_weight(pos) % 0x100 * byte_weight(pos) + b
            * byte_weight(pos),
{
    let p = byte_weight(pos);
    assert((b - w / p % 0x100) * p == b * p - w / p % 0x100 * p) by (nonlinear_arith);
}

/// Once mirroring has stopped, nothing changes any more.
proof fn lemma_mirror_stops(shadow: Seq<u64>, a: int, off: int, v: int, k: nat, n: nat)
    requires
        k <= n,
        !mirror_bytes(shadow, a, off, v, k).1,
    ensures
        mirror_bytes(shadow, a, off, v, n) == mirror_bytes(shadow, a, off, v, k),
    decreases n,
{
    if k < n {
        lemma_mirror_stops(shadow, a, off, v, k, (n - 1) as nat);
    }
}

/// On slots that mirror their bytes a load gives the encoding of the raw bytes, whichever way it
/// takes: with and without encoding, and for every constant, the loaded value is the same.
pub proof fn lemma_load_consistent(m: AnMemory, w: Width, e: int, n: nat, signed: bool)
    requires
        m.wf(),
        0 <= e,
        e + n <= m.raw@.len(),
        n == 1 || n == 2 || n == 4 || n == 8,
        8 * n <= w.bits(),
        m.an_encoding ==> m.range_ok(e, n as int),
    ensures
        m.loaded(w, e, n, signed) == Ok::<int, Trap>(
            m.codec.enc(extended(w, n, signed, le(m.raw@, e, n))),
        ),
{
    if m.an_encoding && w == Width::W32 && n == 4 && e % 4 == 0 {
        assert(touches(e, n as int, e / 4));
        assert(m.slot_ok(e / 4));
        m.lemma_slot_valid(e / 4);
    }
}

/// A load of the bytes that a store wrote gives back the stored value, reduced to those bytes.
pub proof fn lemma_load_after_store(m: AnMemory, t: AnMemory, w: Width, e: int, v: int, n: nat)
    requires
        t.wf(),
        0 <= e,
        e + n <= m.raw@.len(),
        n == 1 || n == 2 || n == 4 || n == 8,
        8 * n <= w.bits(),
        w.has(v),
        t.raw@ == stored(m.raw@, e, v, n),
        t.an_encoding ==> t.range_ok(e, n as int),
    ensures
        t.loaded(w, e, n, false) == Ok::<int, Trap>(t.codec.enc(v % size_of_bytes(n))),
        8 * n == w.bits() ==> v % size_of_bytes(n) == v,
{
    lemma_load_consistent(t, w, e, n, false);
    lemma_read_back(m.raw@, e, v, n);
    lemma_sizes();
    if 8 * n == w.bits() {
        vstd::arithmetic::div_mod::lemma_small_mod(v as nat, size_of_bytes(n) as nat);
    }
}

} // verus!
