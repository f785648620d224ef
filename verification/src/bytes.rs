//! Little-endian numbers in byte sequences.
use vstd::prelude::*;

verus! {

/// The number that `n` bytes from `off` on spell, lowest first.
pub open spec fn le(s: Seq<u8>, off: int, n: nat) -> int
    decreases n,
{
    if n == 0 {
        0
    } else {
        s[off] + 0x100 * le(s, off + 1, (n - 1) as nat)
    }
}

/// The number of values of `n` bytes.
pub open spec fn size_of_bytes(n: nat) -> int
    decreases n,
{
    if n == 0 {
        1
    } else {
        0x100 * size_of_bytes((n - 1) as nat)
    }
}

/// Byte `k` of a number, counted from the low end.
pub open spec fn byte_at(v: int, k: nat) -> u8
    decreases k,
{
    if k == 0 {
        (v % 0x100) as u8
    } else {
        byte_at(v / 0x100, (k - 1) as nat)
    }
}

/// Bytes with the low `n` bytes of a number written at `off`.
pub open spec fn stored(s: Seq<u8>, off: int, v: int, n: nat) -> Seq<u8> {
    Seq::new(
        s.len(),
        |j: int|
            if off <= j < off + n {
                byte_at(v, (j - off) as nat)
            } else {
                s[j]
            },
    )
}

/// Bytes with others written over them at `off`.
pub open spec fn overwritten(s: Seq<u8>, off: int, data: Seq<u8>) -> Seq<u8> {
    Seq::new(
        s.len(),
        |j: int|
            if off <= j < off + data.len() {
                data[j - off]
            } else {
                s[j]
            },
    )
}

/// The sizes of the accesses.
pub proof fn lemma_sizes()
    ensures
        size_of_bytes(0) == 1,
        size_of_bytes(1) == 0x100,
        size_of_bytes(2) == 0x1_0000,
        size_of_bytes(3) == 0x100_0000,
        size_of_bytes(4) == 0x1_0000_0000,
        size_of_bytes(8) == 0x1_0000_0000_0000_0000,
{
    reveal_with_fuel(size_of_bytes, 9);
}

/// The number is in the range of its bytes.
pub proof fn lemma_le_range(s: Seq<u8>, off: int, n: nat)
    ensures
        0 <= le(s, off, n) < size_of_bytes(n),
    decreases n,
{
    if n > 0 {
        lemma_le_range(s, off + 1, (n - 1) as nat);
    }
}

/// The number depends on its bytes only.
pub proof fn lemma_le_same(s: Seq<u8>, t: Seq<u8>, off: int, n: nat)
    requires
        forall|j: int| off <= j < off + n ==> s[j] == t[j],
    ensures
        le(s, off, n) == le(t, off, n),
    decreases n,
{
    if n > 0 {
        lemma_le_same(s, t, off + 1, (n - 1) as nat);
    }
}

/// Bytes of the same value are the same bytes.
pub proof fn lemma_le_injective(s: Seq<u8>, t: Seq<u8>, off: int, n: nat)
    requires
        le(s, off, n) == le(t, off, n),
    ensures
        forall|j: int| off <= j < off + n ==> s[j] == t[j],
    decreases n,
{
    if n > 0 {
        let (p, q) = (le(s, off + 1, (n - 1) as nat), le(t, off + 1, (n - 1) as nat));
        assert(s[off] + 0x100 * p == t[off] + 0x100 * q);
        assert(s[off] == t[off] && p == q);
        lemma_le_injective(s, t, off + 1, (n - 1) as nat);
    }
}

/// What was written reads back, reduced to the bytes written.
pub proof fn lemma_read_back(s: Seq<u8>, off: int, v: int, n: nat)
    requires
        0 <= off,
        off + n <= s.len(),
        0 <= v,
    ensures
        le(stored(s, off, v, n), off, n) == v % size_of_bytes(n),
    decreases n,
{
    if n > 0 {
        let m = (n - 1) as nat;
        let t = stored(s, off, v, n);
        lemma_read_back(s, off + 1, v / 0x100, m);
        lemma_le_same(t, stored(s, off + 1, v / 0x100, m), off + 1, m);
        let p = size_of_bytes(m);
        lemma_size_pos(m);
        let (q, r) = (v / 0x100, v % 0x100);
        assert((0x100 * q + r) % (0x100 * p) == 0x100 * (q % p) + r) by {
            vstd::arithmetic::div_mod::lemma_fundamental_div_mod(q, p);
            let (a, b) = (q / p, q % p);
            assert(0x100 * q + r == a * (0x100 * p) + (0x100 * b + r)) by (nonlinear_arith)
                requires
                    q == p * a + b,
            ;
            vstd::arithmetic::div_mod::lemma_fundamental_div_mod_converse(
                0x100 * q + r,
                0x100 * p,
                a,
                0x100 * b + r,
            );
        }
    }
}

/// The number of values of some bytes is positive.
pub proof fn lemma_size_pos(n: nat)
    ensures
        size_of_bytes(n) > 0,
    decreases n,
{
    if n > 0 {
        lemma_size_pos((n - 1) as nat);
    }
}

/// Reads a number of at most eight bytes.
pub(crate) fn read_le(s: &Vec<u8>, off: usize, n: usize) -> (v: u64)
    requires
        off + n <= s@.len(),
        n <= 8,
    ensures
        v == le(s@, off as int, n as nat),
        v < size_of_bytes(n as nat),
{
    let total: usize = s.len();
    let mut v: u64 = 0;
    let mut k: usize = n;
    proof {
        lemma_sizes();
    }
    while k > 0
        invariant
            k <= n <= 8,
            off + n <= total,
            total == s@.len(),
            v == le(s@, off + k, (n - k) as nat),
        decreases k,
    {
        k = k - 1;
        proof {
            lemma_le_range(s@, off + k + 1, (n - k - 1) as nat);
            lemma_size_mono((n - k - 1) as nat, 7);
            reveal_with_fuel(size_of_bytes, 9);
        }
        v = (s[off + k] as u64) + 0x100 * v;
    }
    proof {
        lemma_le_range(s@, off as int, n as nat);
    }
    v
}

/// More bytes have more values.
proof fn lemma_size_mono(n: nat, m: nat)
    requires
        n <= m,
    ensures
        size_of_bytes(n) <= size_of_bytes(m),
    decreases m,
{
    if n < m {
        lemma_size_mono(n, (m - 1) as nat);
        lemma_size_pos((m - 1) as nat);
    }
}

/// Writes the low bytes of a number.
pub(crate) fn write_le(s: &mut Vec<u8>, off: usize, v: u64, n: usize)
    requires
        off + n <= old(s)@.len(),
    ensures
        final(s)@ == stored(old(s)@, off as int, v as int, n as nat),
{
    let ghost s0 = s@;
    let total: usize = s.len();
    let mut rest: u64 = v;
    let mut k: usize = 0;
    while k < n
        invariant
            k <= n,
            off + n <= total,
            total == s0.len(),
            s@.len() == s0.len(),
            forall|j: int| k <= j < n ==> byte_at(v as int, j as nat) == #[trigger] byte_at(rest as int, (j - k) as nat),
            s@ == stored(s0, off as int, v as int, k as nat),
        decreases n - k,
    {
        assert(byte_at(v as int, k as nat) == byte_at(rest as int, (k - k) as nat));
        s.set(off + k, (rest % 0x100) as u8);
        assert forall|j: int| k + 1 <= j < n implies byte_at(v as int, j as nat)
            == #[trigger] byte_at((rest / 0x100) as int, (j - (k + 1)) as nat) by {
            assert(byte_at(v as int, j as nat) == byte_at(rest as int, (j - k) as nat));
        }
        rest = rest / 0x100;
        k = k + 1;
        assert(s@ =~= stored(s0, off as int, v as int, k as nat));
    }
    assert(s@ =~= stored(s0, off as int, v as int, n as nat));
}

/// Writes bytes over others.
pub(crate) fn write_bytes(s: &mut Vec<u8>, off: usize, data: &Vec<u8>)
    requires
        off + data@.len() <= old(s)@.len(),
    ensures
        final(s)@ == overwritten(old(s)@, off as int, data@),
{
    let ghost s0 = s@;
    let total: usize = s.len();
    let mut k: usize = 0;
    while k < data.len()
        invariant
            k <= data@.len(),
            off + data@.len() <= total,
            total == s0.len(),
            s@ == overwritten(s0, off as int, data@.take(k as int)),
        decreases data@.len() - k,
    {
        s.set(off + k, data[k]);
        k = k + 1;
        assert(s@ =~= overwritten(s0, off as int, data@.take(k as int)));
    }
    assert(data@.take(k as int) =~= data@);
}

/// Copies a part of the bytes.
pub(crate) fn copy_bytes(s: &Vec<u8>, off: usize, len: usize) -> (r: Vec<u8>)
    requires
        off + len <= s@.len(),
    ensures
        r@ == s@.subrange(off as int, off + len),
{
    let total: usize = s.len();
    let mut out: Vec<u8> = Vec::new();
    let mut k: usize = 0;
    while k < len
        invariant
            k <= len,
            off + len <= total,
            total == s@.len(),
            out@ == s@.subrange(off as int, off + k),
        decreases len - k,
    {
        out.push(s[off + k]);
        k = k + 1;
        assert(out@ =~= s@.subrange(off as int, off + k));
    }
    out
}

} // verus!
