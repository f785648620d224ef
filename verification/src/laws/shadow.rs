//! Emitted code that works on the shadow of a memory.
use super::bytes::digit256;
use super::words::{
    eight_bytes, four_bytes, lemma_only_more, more_loads, only_more, ran, refused,
};
use crate::clif::builder::{at, code};
use crate::clif::machine::{word64, wrap64, Access, Instr, Machine, TrapReason, Value};
use crate::emit::env::{FuncEnvironment, MemoryOffsets};
use crate::emit::memory::{
    byte_rmw, byte_weight, bytes_rmw, check_one_slot_validity, emit_an_byte_store_rmw,
    emit_an_enc_base_pointer, emit_an_enc_offset_from_effective_addr, emit_an_load_validity_check,
    emit_an_multi_byte_decomposed_store, lemma_bytes_mirrored, lemma_replaced, lemma_rmw_mirrors,
    outside, replace_byte, shadow_byte, shadow_slot, slot_sound, slot_valid,
};
use cranelift_frontend::FunctionBuilder;
use vstd::arithmetic::power2::lemma2_to64;
use vstd::prelude::*;

verus! {

/// The place of the slot of the byte at `addr`: eight bytes for every four.
pub open spec fn slot_place(base: u64, addr: int) -> int {
    base + 8 * (addr / 4)
}

/// The slot of a byte lies below 2^64.
pub open spec fn slot_in_reach(base: u64, addr: int) -> bool {
    0 <= addr && slot_place(base, addr) + 8 <= 0x1_0000_0000_0000_0000
}

/// The slot of the byte at `eff` holds the constant times the whole 32-bit word that the four
/// bytes round `raw` spell.
#[verifier::opaque]
pub open spec fn mirrors(mem: Map<int, u8>, a: int, base: u64, raw: int, eff: int) -> bool {
    eight_bytes(mem, slot_place(base, eff)) == a * four_bytes(mem, raw - raw % 4)
}

/// The slots, as they are computed.
proof fn lemma_place(base: u64, addr: u64)
    requires
        slot_in_reach(base, addr as int),
    ensures
        shadow_slot(base, addr) == slot_place(base, addr as int),
{
    assert(0 <= (addr / 4) * 8 < 0x1_0000_0000_0000_0000);
}

/// A word times a constant below 2^32 is one word.
proof fn lemma_fits(a: int, w: int)
    requires
        0 < a < 0x1_0000_0000,
        0 <= w < 0x1_0000_0000,
    ensures
        0 <= a * w < 0x1_0000_0000_0000_0000,
        a * w == w * a,
{
    assert(0 <= a * w < 0x1_0000_0000 * 0x1_0000_0000 && a * w == w * a) by (nonlinear_arith)
        requires
            0 < a < 0x1_0000_0000,
            0 <= w < 0x1_0000_0000,
    ;
}

/// The comparison of a slot.
proof fn lemma_mirrors(mem: Map<int, u8>, a: int, base: u64, raw: u64, eff: u64)
    requires
        0 < a < 0x1_0000_0000,
        slot_in_reach(base, eff as int),
    ensures
        slot_valid(mem, a, base, raw, eff) <==> mirrors(mem, a, base, raw as int, eff as int),
{
    reveal(slot_valid);
    reveal(mirrors);
    lemma_place(base, eff);
    lemma_fits(a, four_bytes(mem, raw - raw % 4));
    assert(raw as int / 4 * 4 == raw - raw % 4);
}

/// The comparison runs through exactly where the slot holds the constant times the whole 32-bit
/// word of the raw bytes, and else stops with the mismatch trap. A slot that holds another word
/// never passes.
pub proof fn law_check_slot(
    b: &mut FunctionBuilder<'_>,
    base: Value,
    raw: Value,
    eff: Value,
    a: Value,
    m: Machine,
)
    requires
        at(*old(b), m).trap is None,
        at(*old(b), m).env[base] % 8 == 0,
        slot_in_reach(at(*old(b), m).env[base], at(*old(b), m).env[eff] as int),
        0 < at(*old(b), m).env[a] < 0x1_0000_0000,
        call_ensures(check_one_slot_validity, (b, base, raw, eff, a), ()),
    ensures
        only_more(*old(b), *final(b)),
        more_loads(*old(b), *final(b), 2, Access::Plain),
        ({
            let (s, t) = (at(*old(b), m), at(*final(b), m));
            let n = s.env[a] as int;
            let at_raw = s.env[raw] - s.env[raw] % 4;
            let slot = eight_bytes(s.mem, slot_place(s.env[base], s.env[eff] as int));
            &&& t.mem == s.mem
            &&& t.trap is None <==> slot == n * four_bytes(s.mem, at_raw)
            &&& t.trap is Some ==> t.trap == Some(TrapReason::User(48))
            &&& forall|w: int|
                slot == #[trigger] (n * w) && w != four_bytes(s.mem, at_raw) ==> t.trap == Some(
                    TrapReason::User(48),
                )
        }),
{
    lemma_only_more(*old(b), *final(b));
    let s = at(*old(b), m);
    let n = s.env[a] as int;
    let v = four_bytes(s.mem, s.env[raw] - s.env[raw] % 4);
    reveal(mirrors);
    lemma_mirrors(s.mem, n, s.env[base], s.env[raw], s.env[eff]);
    assert forall|w: int| w != v implies #[trigger] (n * w) != n * v by {
        assert(n * w != n * v) by (nonlinear_arith)
            requires
                n > 0,
                w != v,
        ;
    }
}

/// The slot of the byte at `q` mirrors the raw bytes, which lie `shift` bytes further up.
pub open spec fn mirrors_byte(mem: Map<int, u8>, a: int, base: u64, shift: int, q: int) -> bool {
    mirrors(mem, a, base, q + shift, q)
}

/// First and last slot of an access stand for all of its bytes.
proof fn lemma_every_byte(mem: Map<int, u8>, a: int, base: u64, shift: int, q: int, n: int)
    requires
        1 <= n <= 4,
        shift % 4 == 0,
    ensures
        mirrors_byte(mem, a, base, shift, q) && mirrors_byte(mem, a, base, shift, q + n - 1)
            <==> forall|k: int|
            q <= k < q + n ==> #[trigger] mirrors_byte(mem, a, base, shift, k),
{
    reveal(mirrors);
    let last = q + n - 1;
    if mirrors_byte(mem, a, base, shift, q) && mirrors_byte(mem, a, base, shift, last) {
        assert forall|k: int| q <= k < q + n implies #[trigger] mirrors_byte(
            mem,
            a,
            base,
            shift,
            k,
        ) by {
            if k / 4 == q / 4 {
                assert((k + shift) - (k + shift) % 4 == (q + shift) - (q + shift) % 4);
            } else {
                assert(k / 4 == last / 4);
                assert((k + shift) - (k + shift) % 4 == (last + shift) - (last + shift) % 4);
            }
        }
    }
}

/// The comparison before an access runs through exactly where the slot of every byte of the
/// access mirrors the raw bytes.
pub proof fn law_check_access(
    b: &mut FunctionBuilder<'_>,
    e: FuncEnvironment,
    base: Value,
    raw: Value,
    eff: Value,
    n: u8,
    m: Machine,
)
    requires
        n == 1 || n == 2 || n == 4,
        at(*old(b), m).trap is None,
        at(*old(b), m).env[base] % 8 == 0,
        0 < e.tunables.an_constant < 0x1_0000_0000,
        slot_in_reach(at(*old(b), m).env[base], at(*old(b), m).env[eff] + n),
        at(*old(b), m).env[raw] + n <= u64::MAX,
        (at(*old(b), m).env[raw] - at(*old(b), m).env[eff]) % 4 == 0,
        call_ensures(emit_an_load_validity_check, (b, &e, base, raw, eff, n), ()),
    ensures
        only_more(*old(b), *final(b)),
        more_loads(*old(b), *final(b), if n == 1 {
                2
            } else {
                4
            }, Access::Plain),
        at(*final(b), m).mem == at(*old(b), m).mem,
        at(*final(b), m).trap is None <==> forall|q: int|
            at(*old(b), m).env[eff] <= q < at(*old(b), m).env[eff] + n ==> #[trigger] mirrors_byte(
                at(*old(b), m).mem,
                e.tunables.an_constant as int,
                at(*old(b), m).env[base],
                at(*old(b), m).env[raw] - at(*old(b), m).env[eff],
                q,
            ),
        at(*final(b), m).trap is Some ==> at(*final(b), m).trap == Some(TrapReason::User(48)),
{
    lemma_only_more(*old(b), *final(b));
    let s = at(*old(b), m);
    let a = e.tunables.an_constant as int;
    let (p, x, y) = (s.env[base], s.env[raw], s.env[eff]);
    let last = n - 1;
    lemma_mirrors(s.mem, a, p, x, y);
    lemma_mirrors(s.mem, a, p, (x + last) as u64, (y + last) as u64);
    lemma_every_byte(s.mem, a, p, x - y, y as int, n as int);
}

/// The weights of the bytes of a word.
proof fn lemma_weights(w: int, k: int)
    requires
        0 <= k < 4,
    ensures
        w / byte_weight(k) % 0x100 == digit256(w, k as nat),
{
    lemma2_to64();
    assert(8 * (k as nat) == 0 || 8 * (k as nat) == 8 || 8 * (k as nat) == 16 || 8 * (k as nat)
        == 24);
}

/// Mirroring a byte leaves the slot with the constant times the word that has this byte in its
/// place and the others as they were. Nothing else changes. A slot that holds no codeword is
/// refused.
pub proof fn law_store_byte(
    b: &mut FunctionBuilder<'_>,
    e: FuncEnvironment,
    base: Value,
    addr: Value,
    value: Value,
    m: Machine,
    w: int,
)
    requires
        at(*old(b), m).trap is None,
        at(*old(b), m).env[base] % 8 == 0,
        0 < e.tunables.an_constant < 0x1_0000_0000,
        slot_in_reach(at(*old(b), m).env[base], at(*old(b), m).env[addr] as int),
        call_ensures(emit_an_byte_store_rmw, (b, &e, base, addr, value), ()),
    ensures
        only_more(*old(b), *final(b)),
        more_loads(*old(b), *final(b), 1, Access::Plain),
        ({
            let (s, t) = (at(*old(b), m), at(*final(b), m));
            let a = e.tunables.an_constant as int;
            let p = slot_place(s.env[base], s.env[addr] as int);
            let pos = s.env[addr] as int % 4;
            &&& eight_bytes(s.mem, p) % a != 0 ==> refused(s, t)
            &&& 0 <= w < 0x1_0000_0000 && eight_bytes(s.mem, p) == a * w ==> {
                let w2 = eight_bytes(t.mem, p) / a;
                &&& t.trap is None
                &&& eight_bytes(t.mem, p) == a * w2
                &&& 0 <= w2 < 0x1_0000_0000
                &&& digit256(w2, 0) == if pos == 0 {
                    s.env[value] as int % 0x100
                } else {
                    digit256(w, 0)
                }
                &&& digit256(w2, 1) == if pos == 1 {
                    s.env[value] as int % 0x100
                } else {
                    digit256(w, 1)
                }
                &&& digit256(w2, 2) == if pos == 2 {
                    s.env[value] as int % 0x100
                } else {
                    digit256(w, 2)
                }
                &&& digit256(w2, 3) == if pos == 3 {
                    s.env[value] as int % 0x100
                } else {
                    digit256(w, 3)
                }
                &&& forall|q: int| q < p || q >= p + 8 ==> #[trigger] t.mem[q] == s.mem[q]
            }
        }),
{
    lemma_only_more(*old(b), *final(b));
    let (s, t) = (at(*old(b), m), at(*final(b), m));
    let a = e.tunables.an_constant as int;
    let (x, y, v) = (s.env[base], s.env[addr], s.env[value]);
    let p = slot_place(x, y as int);
    lemma_place(x, y);
    assert(word64(s.mem, p) == eight_bytes(s.mem, p));
    if eight_bytes(s.mem, p) % a != 0 {
        reveal(byte_rmw);
    }
    if 0 <= w < 0x1_0000_0000 && eight_bytes(s.mem, p) == a * w {
        lemma_rmw_mirrors(s.mem, a, x, y, v, w);
        let pos = y as int % 4;
        let w2 = replace_byte(w, pos, v as int % 0x100);
        assert(word64(t.mem, p) == eight_bytes(t.mem, p));
        assert(a * w2 == w2 * a) by (nonlinear_arith);
        vstd::arithmetic::div_mod::lemma_div_multiples_vanish(w2, a);
        lemma_replaced(w, pos, v as int % 0x100, 0);
        lemma_replaced(w, pos, v as int % 0x100, 1);
        lemma_replaced(w, pos, v as int % 0x100, 2);
        lemma_replaced(w, pos, v as int % 0x100, 3);
        lemma_weights(w, 0);
        lemma_weights(w, 1);
        lemma_weights(w, 2);
        lemma_weights(w, 3);
        lemma_weights(w2, 0);
        lemma_weights(w2, 1);
        lemma_weights(w2, 2);
        lemma_weights(w2, 3);
    }
}

/// The slot of a byte holds the constant times a 32-bit word.
#[verifier::opaque]
pub open spec fn slot_holds_word(mem: Map<int, u8>, a: int, base: u64, q: int) -> bool {
    let slot = eight_bytes(mem, slot_place(base, q));
    slot % a == 0 && slot / a < 0x1_0000_0000
}

/// The byte that the slot of `q` holds for it.
#[verifier::opaque]
pub open spec fn held_byte(mem: Map<int, u8>, a: int, base: u64, q: int) -> int {
    digit256(eight_bytes(mem, slot_place(base, q)) / a, (q % 4) as nat)
}

/// What a slot holds.
proof fn lemma_held(mem: Map<int, u8>, a: int, base: u64, q: u64)
    requires
        a > 0,
        slot_in_reach(base, q as int),
    ensures
        slot_sound(mem, a, base, q) <==> slot_holds_word(mem, a, base, q as int),
        shadow_byte(mem, a, base, q) == held_byte(mem, a, base, q as int),
{
    reveal(slot_sound);
    reveal(shadow_byte);
    reveal(slot_holds_word);
    reveal(held_byte);
    lemma_place(base, q);
    assert(word64(mem, slot_place(base, q as int)) == eight_bytes(mem, slot_place(base, q as int)));
    lemma_weights(eight_bytes(mem, slot_place(base, q as int)) / a, q as int % 4);
}

/// The bytes of a value in their slots, and all else as before.
pub open spec fn bytes_held(
    mem: Map<int, u8>,
    after: Map<int, u8>,
    a: int,
    base: u64,
    addr: int,
    v: int,
    n: int,
) -> bool {
    &&& forall|q: int|
        slot_in_reach(base, q) ==> #[trigger] held_byte(after, a, base, q) == if addr <= q < addr
            + n {
            digit256(v, (q - addr) as nat)
        } else {
            held_byte(mem, a, base, q)
        }
    &&& forall|q: int|
        slot_in_reach(base, q) && slot_holds_word(mem, a, base, q) ==> #[trigger] slot_holds_word(
            after,
            a,
            base,
            q,
        )
    &&& forall|p: int|
        p < slot_place(base, addr) || p >= slot_place(base, addr + n - 1) + 8
            ==> #[trigger] after[p] == mem[p]
}

/// The bytes of a value, mirrored.
proof fn lemma_bytes_held(mem: Map<int, u8>, a: int, x: u64, y: u64, v: u64, n: nat)
    requires
        1 <= n <= 4,
        0 < a < 0x1_0000_0000,
        slot_in_reach(x, y + n - 1),
        forall|q: int| y <= q < y + n ==> #[trigger] slot_holds_word(mem, a, x, q),
    ensures
        bytes_rmw(mem, a, x, y, v, n).1 is None,
        bytes_held(mem, bytes_rmw(mem, a, x, y, v, n).0, a, x, y as int, v as int, n as int),
{
    let (after, trap) = bytes_rmw(mem, a, x, y, v, n);
    assert forall|q: u64| y <= q < y + n implies #[trigger] slot_sound(mem, a, x, q) by {
        lemma_held(mem, a, x, q);
        assert(slot_holds_word(mem, a, x, q as int));
    }
    lemma_bytes_mirrored(mem, a, x, y, v, n);
    assert forall|q: int| slot_in_reach(x, q) implies #[trigger] held_byte(after, a, x, q) == if y
        <= q < y + n {
        digit256(v as int, (q - y) as nat)
    } else {
        held_byte(mem, a, x, q)
    } by {
        let u = q as u64;
        lemma_held(mem, a, x, u);
        lemma_held(after, a, x, u);
        assert(shadow_byte(after, a, x, u) == held_byte(after, a, x, q));
        if y <= q < y + n {
            lemma_weights(v as int, q - y);
        }
    }
    assert forall|q: int|
        slot_in_reach(x, q) && slot_holds_word(mem, a, x, q) implies #[trigger] slot_holds_word(
        after,
        a,
        x,
        q,
    ) by {
        let u = q as u64;
        lemma_held(mem, a, x, u);
        lemma_held(after, a, x, u);
        assert(slot_sound(after, a, x, u));
    }
    assert forall|p: int|
        p < slot_place(x, y as int) || p >= slot_place(x, y + n - 1) + 8 implies #[trigger] after[p]
        == mem[p] by {
        assert(outside(x, y, n, p)) by {
            reveal(outside);
            assert forall|q: u64| y <= q < y + n implies p < #[trigger] shadow_slot(x, q) || p
                >= shadow_slot(x, q) + 8 by {
                lemma_place(x, q);
            }
        }
    }
}

/// Mirroring some bytes of a value puts byte `i` of it into the slot of address `addr + i`, and
/// every slot holds every other byte as before. Nothing changes outside the slots of the bytes.
pub proof fn law_store_bytes(
    b: &mut FunctionBuilder<'_>,
    e: FuncEnvironment,
    base: Value,
    addr: Value,
    value: Value,
    n: u8,
    m: Machine,
)
    requires
        1 <= n <= 4,
        at(*old(b), m).trap is None,
        at(*old(b), m).env[base] % 8 == 0,
        0 < e.tunables.an_constant < 0x1_0000_0000,
        slot_in_reach(at(*old(b), m).env[base], at(*old(b), m).env[addr] + n - 1),
        call_ensures(
            emit_an_multi_byte_decomposed_store,
            (b, &e, base, addr, value, n),
            (),
        ),
        forall|q: int|
            at(*old(b), m).env[addr] <= q < at(*old(b), m).env[addr] + n
                ==> #[trigger] slot_holds_word(
                at(*old(b), m).mem,
                e.tunables.an_constant as int,
                at(*old(b), m).env[base],
                q,
            ),
    ensures
        only_more(*old(b), *final(b)),
        more_loads(*old(b), *final(b), n as int, Access::Plain),
        at(*final(b), m).trap is None,
        bytes_held(
            at(*old(b), m).mem,
            at(*final(b), m).mem,
            e.tunables.an_constant as int,
            at(*old(b), m).env[base],
            at(*old(b), m).env[addr] as int,
            at(*old(b), m).env[value] as int,
            n as int,
        ),
{
    lemma_only_more(*old(b), *final(b));
    let (s, t) = (at(*old(b), m), at(*final(b), m));
    let a = e.tunables.an_constant as int;
    let (x, y, v) = (s.env[base], s.env[addr], s.env[value]);
    lemma_bytes_held(s.mem, a, x, y, v, n as nat);
    let (after, trap) = bytes_rmw(s.mem, a, x, y, v, n as nat);
    assert(after == t.mem && trap == t.trap);
}

/// Bytes that are stopped at byte `k` stay so.
proof fn lemma_stopped(mem: Map<int, u8>, a: int, base: u64, addr: u64, v: u64, k: nat, n: nat)
    requires
        k < n <= 4,
        bytes_rmw(mem, a, base, addr, v, k).1 is None,
        byte_rmw(
            bytes_rmw(mem, a, base, addr, v, k).0,
            a,
            base,
            wrap64(addr + k),
            (v as int / byte_weight(k as int)) as u64,
        ).1 is Some,
    ensures
        bytes_rmw(mem, a, base, addr, v, n) == byte_rmw(
            bytes_rmw(mem, a, base, addr, v, k).0,
            a,
            base,
            wrap64(addr + k),
            (v as int / byte_weight(k as int)) as u64,
        ),
    decreases n,
{
    if n > k + 1 {
        lemma_stopped(mem, a, base, addr, v, k, (n - 1) as nat);
    }
}

/// The first byte whose slot holds no codeword stops the mirroring.
proof fn lemma_stops_at(mem: Map<int, u8>, a: int, x: u64, y: u64, v: u64, k: nat, n: nat)
    requires
        k < n <= 4,
        0 < a < 0x1_0000_0000,
        slot_in_reach(x, y + n - 1),
        forall|q: int| y <= q < y + k ==> #[trigger] slot_holds_word(mem, a, x, q),
        eight_bytes(mem, slot_place(x, y + k)) % a != 0,
    ensures
        bytes_rmw(mem, a, x, y, v, n).1 == Some(TrapReason::User(49)),
        k == 0 ==> bytes_rmw(mem, a, x, y, v, n).0 == mem,
{
    let (before, trap) = bytes_rmw(mem, a, x, y, v, k);
    let p = slot_place(x, y + k);
    if k > 0 {
        lemma_bytes_held(mem, a, x, y, v, k);
        let prior = y + k - 1;
        assert(slot_holds_word(mem, a, x, prior));
        assert(slot_place(x, prior) != p) by {
            reveal(slot_holds_word);
        }
        assert(p >= slot_place(x, prior) + 8);
        assert(before[p] == mem[p] && before[p + 1] == mem[p + 1] && before[p + 2] == mem[p + 2]
            && before[p + 3] == mem[p + 3] && before[p + 4] == mem[p + 4] && before[p + 5]
            == mem[p + 5] && before[p + 6] == mem[p + 6] && before[p + 7] == mem[p + 7]);
    }
    let u = (y + k) as u64;
    lemma_place(x, u);
    assert(wrap64(y + k) == u);
    assert(word64(before, p) == eight_bytes(mem, p));
    let w = (v as int / byte_weight(k as int)) as u64;
    assert(byte_rmw(before, a, x, u, w) == (before, Some(TrapReason::User(49)))) by {
        reveal(byte_rmw);
    }
    lemma_stopped(mem, a, x, y, v, k, n);
}

/// The first byte whose slot holds no codeword stops the store with the codeword trap; where
/// this is the first of all, nothing is stored.
pub proof fn law_store_bytes_refused(
    b: &mut FunctionBuilder<'_>,
    e: FuncEnvironment,
    base: Value,
    addr: Value,
    value: Value,
    n: u8,
    k: nat,
    m: Machine,
)
    requires
        k < n <= 4,
        at(*old(b), m).trap is None,
        at(*old(b), m).env[base] % 8 == 0,
        0 < e.tunables.an_constant < 0x1_0000_0000,
        slot_in_reach(at(*old(b), m).env[base], at(*old(b), m).env[addr] + n - 1),
        call_ensures(
            emit_an_multi_byte_decomposed_store,
            (b, &e, base, addr, value, n),
            (),
        ),
        forall|q: int|
            at(*old(b), m).env[addr] <= q < at(*old(b), m).env[addr] + k
                ==> #[trigger] slot_holds_word(
                at(*old(b), m).mem,
                e.tunables.an_constant as int,
                at(*old(b), m).env[base],
                q,
            ),
        eight_bytes(
            at(*old(b), m).mem,
            slot_place(at(*old(b), m).env[base], at(*old(b), m).env[addr] + k),
        ) % e.tunables.an_constant as int != 0,
    ensures
        at(*final(b), m).trap == Some(TrapReason::User(49)),
        k == 0 ==> at(*final(b), m).mem == at(*old(b), m).mem,
{
    let (s, t) = (at(*old(b), m), at(*final(b), m));
    let a = e.tunables.an_constant as int;
    let (x, y, v) = (s.env[base], s.env[addr], s.env[value]);
    lemma_stops_at(s.mem, a, x, y, v, k, n as nat);
    let (after, trap) = bytes_rmw(s.mem, a, x, y, v, n as nat);
    assert(after == t.mem && trap == t.trap);
}

/// The base of the shadow is read from the context, for an imported memory through the pointer
/// that stands there, and anew each time. Without encoding there is none and nothing is emitted.
pub proof fn law_base(
    b: &mut FunctionBuilder<'_>,
    e: FuncEnvironment,
    i: usize,
    r: Option<Value>,
    m: Machine,
)
    requires
        at(*old(b), m).trap is None,
        call_ensures(emit_an_enc_base_pointer, (b, &e, i), r),
    ensures
        r is Some <==> e.tunables.an_encoding,
        r is None ==> *final(b) == *old(b),
        r is Some ==> only_more(*old(b), *final(b)),
        r is Some ==> (code(*final(b)).last() matches Instr::Load { dst, access, .. } && dst
            == r->0 && access is Plain),
        ({
            let (s, t) = (at(*old(b), m), at(*final(b), m));
            let ctx = s.globals[e.vmctx] as int;
            r is Some ==> match e.memories@[i as int] {
                MemoryOffsets::Defined { an_enc_memory_base } => {
                    let p = ctx + an_enc_memory_base;
                    p % 8 == 0 ==> ran(s, t) && t.env[r->0] == eight_bytes(s.mem, p)
                },
                MemoryOffsets::Imported { vmmemory_import, an_enc_base_slot } => {
                    let p = eight_bytes(s.mem, ctx + vmmemory_import + an_enc_base_slot);
                    (ctx + vmmemory_import + an_enc_base_slot) % 8 == 0 && p % 8 == 0 ==> ran(s, t)
                        && t.env[r->0] == eight_bytes(s.mem, p)
                },
            }
        }),
{
    let (s, t) = (at(*old(b), m), at(*final(b), m));
    if r is Some {
        lemma_only_more(*old(b), *final(b));
        match e.memories@[i as int] {
            MemoryOffsets::Defined { an_enc_memory_base } => {},
            MemoryOffsets::Imported { vmmemory_import, an_enc_base_slot } => {
                let q = s.globals[e.vmctx] + vmmemory_import + an_enc_base_slot;
                assert(word64(s.mem, q) == eight_bytes(s.mem, q));
            },
        }
    }
}

/// The offset into the shadow is twice the address.
pub proof fn law_offset(b: &mut FunctionBuilder<'_>, x: Value, r: Value, m: Machine)
    requires
        at(*old(b), m).trap is None,
        at(*old(b), m).env[x] < 0x8000_0000_0000_0000,
        call_ensures(emit_an_enc_offset_from_effective_addr, (b, x), r),
    ensures
        only_more(*old(b), *final(b)),
        more_loads(*old(b), *final(b), 0, Access::Plain),
        ran(at(*old(b), m), at(*final(b), m)),
        at(*final(b), m).env[r] == 2 * at(*old(b), m).env[x],
{
    lemma_only_more(*old(b), *final(b));
}

} // verus!
