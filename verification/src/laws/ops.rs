//! The integer operations, on the constant times plain values.
use crate::boundary::{AnGlobal, Boundary};
use crate::codec::Codec;
use crate::lut::{AnLuts, BinOp};
use crate::traps::Trap;
use crate::wasm::{truncated_div, Count, Relation, Width};
use vstd::arithmetic::div_mod::{
    lemma_fundamental_div_mod, lemma_fundamental_div_mod_converse, lemma_small_mod,
};
use vstd::arithmetic::power2::{
    lemma2_to64, lemma2_to64_rest, lemma_pow2_adds, lemma_pow2_pos, pow2,
};
use vstd::prelude::*;

verus! {

/// The number of values of a width.
pub open spec fn values(w: Width) -> int {
    match w {
        Width::W32 => 0x1_0000_0000,
        Width::W64 => 0x1_0000_0000_0000_0000,
    }
}

/// The number of bits of a width.
pub open spec fn size(w: Width) -> nat {
    match w {
        Width::W32 => 32,
        Width::W64 => 64,
    }
}

/// The signed values of a width.
pub open spec fn is_signed_value(w: Width, s: int) -> bool {
    -values(w) <= 2 * s < values(w)
}

/// The value of a width that stands for a signed one.
pub open spec fn pattern(w: Width, s: int) -> int {
    if s < 0 {
        s + values(w)
    } else {
        s
    }
}

/// The constant times a value is a codeword and decodes to it.
pub proof fn lemma_encoded(c: Codec, w: Width, n: int)
    requires
        c.wf(),
        0 <= n < values(w),
    ensures
        c.valid(w, c.a * n),
        c.is_codeword(c.a * n),
        c.dec(c.a * n) == n,
{
    c.lemma_round_trip(w, n);
}

/// A signed value and what stands for it.
proof fn lemma_pattern(w: Width, s: int)
    requires
        is_signed_value(w, s),
    ensures
        0 <= pattern(w, s) < values(w),
        w.signed(pattern(w, s)) == s,
        w.reduce(s) == pattern(w, s),
{
    lemma_fundamental_div_mod_converse(
        s,
        values(w),
        if s < 0 {
            -1
        } else {
            0
        },
        pattern(w, s),
    );
}

/// A value is encoded as the constant times it, and decoded again; a word that is no multiple of
/// the constant is refused.
pub proof fn law_codec(
    c: Codec,
    w: Width,
    n: u64,
    x: u128,
    y: u128,
    d: Result<u64, Trap>,
    e: Result<u64, Trap>,
    k: Result<(), Trap>,
)
    requires
        c.wf(),
        n < values(w),
        call_ensures(Codec::encode, (&c, w, n), x),
        call_ensures(Codec::decode, (&c, w, x), d),
        call_ensures(Codec::decode, (&c, w, y), e),
        call_ensures(Codec::check, (&c, y), k),
    ensures
        x == c.a * n,
        d == Ok::<u64, Trap>(n),
        e is Ok ==> y == c.a * e->Ok_0,
        e is Ok <==> exists|q: int| y == #[trigger] (c.a * q),
        k is Ok <==> exists|q: int| y == #[trigger] (c.a * q),
        e matches Err(t) ==> t == Trap::AnCodewordInvalid,
        k matches Err(t) ==> t == Trap::AnCodewordInvalid,
{
    lemma_encoded(c, w, n as int);
    lemma_fundamental_div_mod(y as int, c.a as int);
    assert(y as int % c.a as int == 0 <==> exists|q: int| y == #[trigger] (c.a * q)) by {
        if y as int % c.a as int == 0 {
            assert(y == c.a * (y as int / c.a as int));
        }
        if exists|q: int| y == #[trigger] (c.a * q) {
            let q = choose|q: int| y == #[trigger] (c.a * q);
            assert(c.a * q == q * c.a) by (nonlinear_arith);
            vstd::arithmetic::div_mod::lemma_mod_multiples_basic(q, c.a as int);
        }
    }
}

/// The encoded sum and difference are those of the values, less or plus the number of values
/// where they leave the range. Of words that are not encodings, they are the sum and the
/// difference up to the constant times that number.
pub proof fn law_add_sub(c: Codec, w: Width, x: u128, y: u128, n: int, m: int, s: u128, d: u128)
    requires
        c.wf(),
        x < c.a * values(w),
        y < c.a * values(w),
        call_ensures(Codec::add, (&c, w, x, y), s),
        call_ensures(Codec::sub, (&c, w, x, y), d),
    ensures
        0 <= n < values(w) && 0 <= m < values(w) && x == c.a * n && y == c.a * m ==> {
            &&& s == c.a * if n + m >= values(w) {
                n + m - values(w)
            } else {
                n + m
            }
            &&& d == c.a * if n < m {
                n - m + values(w)
            } else {
                n - m
            }
        },
        s == x + y || s == x + y - c.a * values(w),
        d == x - y || d == x - y + c.a * values(w),
        s < c.a * values(w),
        d < c.a * values(w),
{
    let b = c.a * values(w);
    assert(x + y < 2 * b && -b < x - y);
    if x + y >= b {
        lemma_fundamental_div_mod_converse(x + y, b, 1, x + y - b);
    } else {
        lemma_fundamental_div_mod_converse(x + y, b, 0, x + y);
    }
    if x >= y {
        lemma_fundamental_div_mod_converse(x - y, b, 0, x - y);
    } else {
        lemma_fundamental_div_mod_converse(x - y, b, -1, x - y + b);
    }
    if 0 <= n < values(w) && 0 <= m < values(w) && x == c.a * n && y == c.a * m {
        lemma_encoded(c, w, n);
        lemma_encoded(c, w, m);
        let v = values(w);
        lemma_fundamental_div_mod_converse(
            n + m,
            v,
            if n + m >= v {
                1
            } else {
                0
            },
            if n + m >= v {
                n + m - v
            } else {
                n + m
            },
        );
        lemma_fundamental_div_mod_converse(
            n - m,
            v,
            if n < m {
                -1
            } else {
                0
            },
            if n < m {
                n - m + v
            } else {
                n - m
            },
        );
    }
}

/// The encoded product is that of the values, less a multiple of their number. It is a trap
/// exactly where the product of the encoded words has more than 128 bits.
pub proof fn law_mul(c: Codec, w: Width, x: u128, y: u128, n: int, m: int, r: Result<u128, Trap>)
    requires
        c.wf(),
        0 <= n < values(w),
        0 <= m < values(w),
        x == c.a * n,
        y == c.a * m,
        call_ensures(Codec::mul, (&c, w, x, y), r),
    ensures
        r is Ok <==> x * y < 0x1_0000_0000_0000_0000 * 0x1_0000_0000_0000_0000,
        r matches Err(t) ==> t == Trap::AnI64WidenOverflow,
        r matches Ok(p) ==> exists|q: int, k: int|
            n * m == #[trigger] (q * values(w)) + k && 0 <= k < values(w) && p == #[trigger] (c.a
                * k),
{
    lemma_encoded(c, w, n);
    lemma_encoded(c, w, m);
    if let Ok(p) = r {
        let v = values(w);
        let (q, k) = ((n * m) / v, (n * m) % v);
        lemma_fundamental_div_mod(n * m, v);
        assert(v * q == q * v) by (nonlinear_arith);
        assert(n * m == (q * values(w)) + k && p == (c.a * k));
    }
}

/// The encoded quotient and remainder of unsigned values are those with which the divisor and the
/// remainder below it make up the dividend. A zero divisor is a trap of both.
pub proof fn law_div_rem_u(
    c: Codec,
    w: Width,
    x: u128,
    y: u128,
    m: int,
    q: int,
    t: int,
    d: Result<u128, Trap>,
    r: Result<u128, Trap>,
)
    requires
        c.wf(),
        0 <= m < values(w),
        0 <= q * m + t < values(w),
        0 <= t,
        x == c.a * (q * m + t),
        y == c.a * m,
        call_ensures(Codec::div_u, (&c, w, x, y), d),
        call_ensures(Codec::rem_u, (&c, w, x, y), r),
    ensures
        m == 0 ==> d == Err::<u128, Trap>(Trap::IntegerDivisionByZero) && r == Err::<u128, Trap>(
            Trap::IntegerDivisionByZero,
        ),
        t < m ==> d is Ok && d->Ok_0 == c.a * q && r is Ok && r->Ok_0 == c.a * t,
{
    let n = q * m + t;
    lemma_encoded(c, w, n);
    lemma_encoded(c, w, m);
    let a = c.a as int;
    assert(a * m == 0 <==> m == 0) by (nonlinear_arith)
        requires
            a > 0,
    ;
    if t < m {
        assert(q * m == m * q) by (nonlinear_arith);
        lemma_fundamental_div_mod_converse(n, m, q, t);
    }
}

/// Division that truncates towards zero, by what it gives.
proof fn lemma_truncated(x: int, y: int, q: int, t: int)
    requires
        y != 0,
        x == q * y + t,
        -y < t < y || y < t < -y,
        t == 0 || (t < 0 <==> x < 0),
    ensures
        truncated_div(x, y) == q,
{
    let (u, v) = (
        if x < 0 {
            -x
        } else {
            x
        },
        if y < 0 {
            -y
        } else {
            y
        },
    );
    let (p, k) = (
        if (x < 0) != (y < 0) {
            -q
        } else {
            q
        },
        if t < 0 {
            -t
        } else {
            t
        },
    );
    assert((-q) * y == -(q * y) && q * (-y) == -(q * y) && (-q) * (-y) == q * y)
        by (nonlinear_arith);
    if x == 0 {
        assert(q == 0) by (nonlinear_arith)
            requires
                0 == q * y + t,
                -y < t < y || y < t < -y,
        ;
        assert(t == 0);
    }
    assert(u == p * v + k);
    assert(p * v == v * p) by (nonlinear_arith);
    lemma_fundamental_div_mod_converse(u, v, p, k);
}

/// The encoded quotient and remainder of signed values are those with which the divisor and a
/// remainder of lesser magnitude and of the dividend's sign make up the dividend. A zero divisor
/// is a trap of both; a quotient that is no signed value of the width is an overflow of the
/// division alone.
pub proof fn law_div_rem_s(
    c: Codec,
    w: Width,
    x: u128,
    y: u128,
    s: int,
    m: int,
    q: int,
    t: int,
    d: Result<u128, Trap>,
    r: Result<u128, Trap>,
)
    requires
        c.wf(),
        is_signed_value(w, s),
        is_signed_value(w, m),
        x == c.a * pattern(w, s),
        y == c.a * pattern(w, m),
        s == q * m + t,
        t == 0 || (t < 0 <==> s < 0),
        call_ensures(Codec::div_s, (&c, w, x, y), d),
        call_ensures(Codec::rem_s, (&c, w, x, y), r),
    ensures
        m == 0 ==> d == Err::<u128, Trap>(Trap::IntegerDivisionByZero) && r == Err::<u128, Trap>(
            Trap::IntegerDivisionByZero,
        ),
        -m < t < m || m < t < -m ==> {
            &&& r is Ok && r->Ok_0 == c.a * pattern(w, t)
            &&& is_signed_value(w, q) ==> d is Ok && d->Ok_0 == c.a * pattern(w, q)
            &&& !is_signed_value(w, q) ==> d == Err::<u128, Trap>(Trap::IntegerOverflow)
        },
{
    lemma_pattern(w, s);
    lemma_pattern(w, m);
    let (a, v) = (c.a as int, values(w));
    let (n, k) = (pattern(w, s), pattern(w, m));
    lemma_encoded(c, w, n);
    lemma_encoded(c, w, k);
    assert(a * k == 0 <==> k == 0) by (nonlinear_arith)
        requires
            a > 0,
    ;
    if -m < t < m || m < t < -m {
        lemma_truncated(s, m, q, t);
        let h = w.half();
        assert((a * n == a * h <==> n == h) && (a * k == a * (v - 1) <==> k == v - 1))
            by (nonlinear_arith)
            requires
                a > 0,
        ;
        assert(is_signed_value(w, t));
        lemma_pattern(w, t);
        assert(is_signed_value(w, q) <==> !(s == -h && m == -1)) by (nonlinear_arith)
            requires
                s == q * m + t,
                -h <= s < h,
                -h <= m < h,
                h > 1,
                v == 2 * h,
                values(w) == v,
                is_signed_value(w, q) == (-v <= 2 * q < v),
                -m < t < m || m < t < -m,
                t == 0 || (t < 0 <==> s < 0),
        ;
        if is_signed_value(w, q) {
            lemma_pattern(w, q);
        }
    }
}

/// A left shift by the count modulo the number of bits multiplies by the power of two, less a
/// multiple of the number of values; a right shift is the quotient by the power of two, of the
/// value or of the signed value, rounded down.
pub proof fn law_shifts(
    c: Codec,
    w: Width,
    x: u128,
    k: u128,
    n: int,
    i: int,
    q: int,
    t: int,
    l: Result<u128, Trap>,
    u: Result<u128, Trap>,
)
    requires
        c.wf(),
        0 <= n < values(w),
        0 <= i < values(w),
        x == c.a * n,
        k == c.a * i,
        n == q * pow2((i % size(w) as int) as nat) + t,
        0 <= t < pow2((i % size(w) as int) as nat),
        call_ensures(Codec::shl, (&c, w, x, k), l),
        call_ensures(Codec::shr_u, (&c, w, x, k), u),
    ensures
        l is Ok && l->Ok_0 == c.a * ((n * pow2((i % size(w) as int) as nat)) % values(w)),
        u is Ok && u->Ok_0 == c.a * q,
{
    lemma_encoded(c, w, n);
    lemma_encoded(c, w, i);
    let p = pow2((i % size(w) as int) as nat) as int;
    assert(q * p == p * q) by (nonlinear_arith);
    lemma_fundamental_div_mod_converse(n, p, q, t);
}

/// A signed right shift is the quotient of the signed value by the power of two, rounded down.
pub proof fn law_shr_s(
    c: Codec,
    w: Width,
    x: u128,
    k: u128,
    s: int,
    i: int,
    q: int,
    t: int,
    r: Result<u128, Trap>,
)
    requires
        c.wf(),
        is_signed_value(w, s),
        0 <= i < values(w),
        x == c.a * pattern(w, s),
        k == c.a * i,
        s == q * pow2((i % size(w) as int) as nat) + t,
        0 <= t < pow2((i % size(w) as int) as nat),
        call_ensures(Codec::shr_s, (&c, w, x, k), r),
    ensures
        r is Ok && r->Ok_0 == c.a * pattern(w, q),
{
    lemma_pattern(w, s);
    lemma_encoded(c, w, pattern(w, s));
    lemma_encoded(c, w, i);
    let p = pow2((i % size(w) as int) as nat) as int;
    assert(q * p == p * q) by (nonlinear_arith);
    lemma_fundamental_div_mod_converse(s, p, q, t);
    let v = values(w);
    assert(-v <= 2 * q < v) by (nonlinear_arith)
        requires
            s == q * p + t,
            0 <= t < p,
            p > 0,
            -v <= 2 * s < v,
    ;
    lemma_pattern(w, q);
}

/// A rotation exchanges the high and the low part of the value.
pub proof fn law_rotations(
    c: Codec,
    w: Width,
    x: u128,
    k: u128,
    high: int,
    low: int,
    i: int,
    r: Result<u128, Trap>,
    y: u128,
    b: Result<u128, Trap>,
)
    requires
        c.wf(),
        0 <= i < values(w),
        k == c.a * i,
        0 <= high < pow2((i % size(w) as int) as nat),
        0 <= low < pow2((size(w) - i % size(w) as int) as nat),
        x == c.a * (high * pow2((size(w) - i % size(w) as int) as nat) + low),
        y == c.a * (low * pow2((i % size(w) as int) as nat) + high),
        call_ensures(Codec::rotl, (&c, w, x, k), r),
        call_ensures(Codec::rotr, (&c, w, y, k), b),
    ensures
        r == Ok::<u128, Trap>(y),
        b == Ok::<u128, Trap>(x),
{
    let j = (i % size(w) as int) as nat;
    let o = (size(w) - j) as nat;
    let (p, z, v) = (pow2(j) as int, pow2(o) as int, values(w));
    lemma2_to64();
    lemma2_to64_rest();
    lemma_pow2_adds(j, o);
    lemma_pow2_pos(j);
    lemma_pow2_pos(o);
    let (n, m) = (high * z + low, low * p + high);
    assert(p * z == v);
    assert(0 <= n < v && 0 <= m < v) by (nonlinear_arith)
        requires
            n == high * z + low,
            m == low * p + high,
            0 <= high < p,
            0 <= low < z,
            p * z == v,
    ;
    lemma_encoded(c, w, n);
    lemma_encoded(c, w, m);
    lemma_encoded(c, w, i);
    assert(n * p == v * high + low * p && 0 <= low * p < v && m * z == v * low + high * z && 0
        <= high * z < v && high * z == z * high && low * p == p * low) by (nonlinear_arith)
        requires
            n == high * z + low,
            m == low * p + high,
            0 <= high < p,
            0 <= low < z,
            p * z == v,
    ;
    lemma_fundamental_div_mod_converse(n * p, v, high, low * p);
    lemma_fundamental_div_mod_converse(n, z, high, low);
    lemma_fundamental_div_mod_converse(m * z, v, low, high * z);
    lemma_fundamental_div_mod_converse(m, p, low, high);
}

/// A count or an operand that is no multiple of the constant is refused by every shift but the
/// left one, which passes a faulty value on.
pub proof fn law_shift_faults(
    c: Codec,
    w: Width,
    x: u128,
    k: u128,
    l: Result<u128, Trap>,
    u: Result<u128, Trap>,
    s: Result<u128, Trap>,
    rl: Result<u128, Trap>,
    rr: Result<u128, Trap>,
)
    requires
        c.wf(),
        call_ensures(Codec::shl, (&c, w, x, k), l),
        call_ensures(Codec::shr_u, (&c, w, x, k), u),
        call_ensures(Codec::shr_s, (&c, w, x, k), s),
        call_ensures(Codec::rotl, (&c, w, x, k), rl),
        call_ensures(Codec::rotr, (&c, w, x, k), rr),
    ensures
        k as int % c.a as int != 0 ==> l == Err::<u128, Trap>(Trap::AnCodewordInvalid),
        k as int % c.a as int == 0 ==> l is Ok,
        k as int % c.a as int != 0 || x as int % c.a as int != 0 ==> {
            &&& u == Err::<u128, Trap>(Trap::AnCodewordInvalid)
            &&& s == Err::<u128, Trap>(Trap::AnCodewordInvalid)
            &&& rl == Err::<u128, Trap>(Trap::AnCodewordInvalid)
            &&& rr == Err::<u128, Trap>(Trap::AnCodewordInvalid)
        },
{
}

/// The bitwise operations are those on the values.
pub proof fn law_bitwise(
    c: Codec,
    luts: AnLuts,
    w: Width,
    x: u128,
    y: u128,
    n: u64,
    m: u64,
    and: Result<u128, Trap>,
    or: Result<u128, Trap>,
    xor: Result<u128, Trap>,
)
    requires
        c.wf(),
        call_ensures(Codec::bitwise, (&c, BinOp::And, &luts, w, x, y), and),
        call_ensures(Codec::bitwise, (&c, BinOp::Or, &luts, w, x, y), or),
        call_ensures(Codec::bitwise, (&c, BinOp::Xor, &luts, w, x, y), xor),
    ensures
        n < values(w) && m < values(w) && x == c.a * n && y == c.a * m ==> {
            &&& and is Ok && and->Ok_0 == c.a * (n & m)
            &&& or is Ok && or->Ok_0 == c.a * (n | m)
            &&& xor is Ok && xor->Ok_0 == c.a * (n ^ m)
        },
        x as int % c.a as int != 0 || y as int % c.a as int != 0 ==> {
            &&& and == Err::<u128, Trap>(Trap::AnCodewordInvalid)
            &&& or == Err::<u128, Trap>(Trap::AnCodewordInvalid)
            &&& xor == Err::<u128, Trap>(Trap::AnCodewordInvalid)
        },
{
    if n < values(w) && m < values(w) {
        lemma_encoded(c, w, n as int);
        lemma_encoded(c, w, m as int);
    }
}

/// The comparisons hold of encoded values as they hold of the values: the unsigned ones of the
/// values themselves, the signed ones of the signed values.
pub proof fn law_compare(
    c: Codec,
    op: Relation,
    w: Width,
    x: u128,
    y: u128,
    s: int,
    t: int,
    r: Result<u128, Trap>,
)
    requires
        c.wf(),
        is_signed_value(w, s),
        is_signed_value(w, t),
        call_ensures(Codec::compare, (&c, op, w, x, y), r),
    ensures
        x as int % c.a as int != 0 || y as int % c.a as int != 0 ==> r == Err::<u128, Trap>(
            Trap::AnCodewordInvalid,
        ),
        x == c.a * pattern(w, s) && y == c.a * pattern(w, t) ==> {
            let (n, m) = (pattern(w, s), pattern(w, t));
            let holds = match op {
                Relation::Eq => n == m,
                Relation::Ne => n != m,
                Relation::LtU => n < m,
                Relation::LeU => n <= m,
                Relation::GtU => m < n,
                Relation::GeU => m <= n,
                Relation::LtS => s < t,
                Relation::LeS => s <= t,
                Relation::GtS => t < s,
                Relation::GeS => t <= s,
            };
            &&& r is Ok
            &&& holds ==> r->Ok_0 == c.a
            &&& !holds ==> r->Ok_0 == 0
        },
{
    lemma_pattern(w, s);
    lemma_pattern(w, t);
    lemma_encoded(c, w, pattern(w, s));
    lemma_encoded(c, w, pattern(w, t));
}

/// A condition holds exactly of values other than zero, and the test for zero is its opposite; a
/// branch table takes the arm of the value, or the default.
pub proof fn law_decisions(
    c: Codec,
    w: Width,
    x: u128,
    n: int,
    arms: u32,
    e: Result<u128, Trap>,
    b: Result<bool, Trap>,
    t: Result<u32, Trap>,
    yes: u128,
    no: u128,
)
    requires
        c.wf(),
        call_ensures(Codec::eqz, (&c, w, x), e),
        call_ensures(Codec::condition, (&c, w, x), b),
        call_ensures(Codec::br_table, (&c, x, arms), t),
        call_ensures(Codec::truth_of, (&c, true), yes),
        call_ensures(Codec::truth_of, (&c, false), no),
    ensures
        yes == c.a,
        no == 0,
        x as int % c.a as int != 0 ==> e == Err::<u128, Trap>(Trap::AnCodewordInvalid) && b
            == Err::<bool, Trap>(Trap::AnCodewordInvalid) && t == Err::<u32, Trap>(
            Trap::AnCodewordInvalid,
        ),
        0 <= n < values(w) && x == c.a * n ==> {
            &&& b == Ok::<bool, Trap>(n != 0)
            &&& e is Ok && e->Ok_0 == if n == 0 {
                c.a as int
            } else {
                0
            }
            &&& t is Ok && t->Ok_0 == if n < arms {
                n
            } else {
                arms as int
            }
        },
{
    if 0 <= n < values(w) {
        lemma_encoded(c, w, n);
    }
}

/// The leading zeros of a value are all zero, and the bit below them is one; likewise the
/// trailing zeros and the bit above them.
pub proof fn law_zeros(
    c: Codec,
    x: u128,
    n: u64,
    l: Result<u128, Trap>,
    t: Result<u128, Trap>,
)
    requires
        c.wf(),
        x == c.a * n,
        call_ensures(Codec::count, (&c, Count::Clz, Width::W64, x), l),
        call_ensures(Codec::count, (&c, Count::Ctz, Width::W64, x), t),
    ensures
        exists|k: u64|
            l is Ok && l->Ok_0 == #[trigger] (c.a * k) && k <= 64 && (k < 64 ==> (n >> ((63
                - k) as u64)) & 1 == 1) && (forall|j: u64|
                64 - k <= j < 64 ==> #[trigger] (n >> j) & 1 == 0),
        exists|k: u64|
            t is Ok && t->Ok_0 == #[trigger] (c.a * k) && k <= 64 && (k < 64 ==> (n >> k) & 1 == 1)
                && (forall|j: u64| 0 <= j < k ==> #[trigger] (n >> j) & 1 == 0),
{
    lemma_encoded(c, Width::W64, n as int);
    vstd::std_specs::bits::axiom_u64_leading_zeros(n);
    vstd::std_specs::bits::axiom_u64_trailing_zeros(n);
    let k = vstd::std_specs::bits::u64_leading_zeros(n) as u64;
    let i = vstd::std_specs::bits::u64_trailing_zeros(n) as u64;
    if k < 64 {
        let b = n >> ((63 - k) as u64);
        assert(b & 1 == 0 || b & 1 == 1) by (bit_vector);
    }
    assert(l->Ok_0 == c.a * k);
    assert(t->Ok_0 == c.a * i);
}

/// The leading and trailing zeros of a 32-bit value.
pub proof fn law_zeros32(
    c: Codec,
    x: u128,
    n: u32,
    l: Result<u128, Trap>,
    t: Result<u128, Trap>,
)
    requires
        c.wf(),
        x == c.a * n,
        call_ensures(Codec::count, (&c, Count::Clz, Width::W32, x), l),
        call_ensures(Codec::count, (&c, Count::Ctz, Width::W32, x), t),
    ensures
        exists|k: u32|
            l is Ok && l->Ok_0 == #[trigger] (c.a * k) && k <= 32 && (k < 32 ==> (n >> ((31
                - k) as u32)) & 1 == 1) && (forall|j: u32|
                32 - k <= j < 32 ==> #[trigger] (n >> j) & 1 == 0),
        exists|k: u32|
            t is Ok && t->Ok_0 == #[trigger] (c.a * k) && k <= 32 && (k < 32 ==> (n >> k) & 1 == 1)
                && (forall|j: u32| 0 <= j < k ==> #[trigger] (n >> j) & 1 == 0),
{
    lemma_encoded(c, Width::W32, n as int);
    vstd::std_specs::bits::axiom_u32_leading_zeros(n);
    vstd::std_specs::bits::axiom_u32_trailing_zeros(n);
    let k = vstd::std_specs::bits::u32_leading_zeros(n);
    let i = vstd::std_specs::bits::u32_trailing_zeros(n);
    if k < 32 {
        let b = n >> ((31 - k) as u32);
        assert(b & 1 == 0 || b & 1 == 1) by (bit_vector);
    }
    assert(l->Ok_0 == c.a * k);
    assert(t->Ok_0 == c.a * i);
}

/// The number of ones: none in zero, and one bit more adds that bit.
pub proof fn law_popcnt(
    c: Codec,
    w: Width,
    x: u128,
    y: u128,
    n: int,
    b: int,
    z: Result<u128, Trap>,
    r: Result<u128, Trap>,
    s: Result<u128, Trap>,
)
    requires
        c.wf(),
        b == 0 || b == 1,
        0 <= n,
        2 * n + b < values(w),
        x == c.a * n,
        y == c.a * (2 * n + b),
        call_ensures(Codec::count, (&c, Count::Popcnt, w, 0u128), z),
        call_ensures(Codec::count, (&c, Count::Popcnt, w, x), r),
        call_ensures(Codec::count, (&c, Count::Popcnt, w, y), s),
    ensures
        z == Ok::<u128, Trap>(0),
        r is Ok && s is Ok,
        s->Ok_0 == r->Ok_0 + c.a * b,
{
    lemma_encoded(c, w, n);
    lemma_encoded(c, w, 2 * n + b);
    lemma_encoded(c, w, 0);
    let (a, k) = (c.a as int, crate::wasm::ones(n as nat) as int);
    assert((2 * n + b) % 2 == b && (2 * n + b) / 2 == n);
    assert(a * (b + k) == a * k + a * b) by (nonlinear_arith);
    if n == 0 && b == 0 {
        assert(a * 0 == 0);
    }
}

/// Counting refuses a word that is no multiple of the constant.
pub proof fn law_count_fault(c: Codec, op: Count, w: Width, x: u128, r: Result<u128, Trap>)
    requires
        c.wf(),
        x as int % c.a as int != 0,
        call_ensures(Codec::count, (&c, op, w, x), r),
    ensures
        r == Err::<u128, Trap>(Trap::AnCodewordInvalid),
{
}

/// Sign extension from some low bits gives the signed value that they stand for.
pub proof fn law_extend_s(c: Codec, w: Width, bits: u32, x: u128, high: int, s: int, r: u128)
    requires
        c.wf(),
        0 < bits < size(w),
        0 <= high,
        -pow2(bits as nat) <= 2 * s < pow2(bits as nat),
        0 <= high * pow2(bits as nat) + s < values(w),
        x == c.a * (high * pow2(bits as nat) + s),
        call_ensures(Codec::extend_s, (&c, w, bits, x), r),
    ensures
        r == c.a * pattern(w, s),
{
    let p = pow2(bits as nat) as int;
    let n = high * p + s;
    lemma_encoded(c, w, n);
    lemma_pow2_pos(bits as nat);
    if s < 0 {
        assert(n == p * (high - 1) + (s + p)) by (nonlinear_arith)
            requires
                n == high * p + s,
        ;
        lemma_fundamental_div_mod_converse(n, p, high - 1, s + p);
    } else {
        assert(n == p * high + s) by (nonlinear_arith)
            requires
                n == high * p + s,
        ;
        lemma_fundamental_div_mod_converse(n, p, high, s);
    }
}

/// Conversions between the widths: wrapping keeps the low half, and extension keeps the value or
/// the signed value.
pub proof fn law_conversions(
    c: Codec,
    x: u128,
    y: u128,
    high: int,
    low: int,
    s: int,
    wrapped: u128,
    unsigned: u128,
    signed: u128,
)
    requires
        c.wf(),
        0 <= high < 0x1_0000_0000,
        0 <= low < 0x1_0000_0000,
        x == c.a * (high * 0x1_0000_0000 + low),
        is_signed_value(Width::W32, s),
        y == c.a * pattern(Width::W32, s),
        call_ensures(Codec::wrap_i64, (&c, x), wrapped),
        call_ensures(Codec::extend_i32_u, (&c, y), unsigned),
        call_ensures(Codec::extend_i32_s, (&c, y), signed),
    ensures
        wrapped == c.a * low,
        unsigned == c.a * pattern(Width::W32, s),
        signed == c.a * pattern(Width::W64, s),
{
    lemma_encoded(c, Width::W64, high * 0x1_0000_0000 + low);
    lemma_pattern(Width::W32, s);
    lemma_pattern(Width::W64, s);
    lemma_encoded(c, Width::W32, pattern(Width::W32, s));
}

/// Values that enter the guest are multiplied by the constant, each for itself, and what leaves
/// it is divided again. A fault in any of them is found.
pub proof fn law_boundary(
    b: Boundary,
    widths: Vec<Width>,
    raw: Vec<u64>,
    words: Vec<u128>,
    out: Result<Vec<u64>, Trap>,
)
    requires
        b.codec.wf(),
        b.an_inject_codeword_fault == 0,
        widths@.len() == raw@.len(),
        forall|i: int| 0 <= i < raw@.len() ==> #[trigger] raw@[i] < values(widths@[i]),
        call_ensures(Boundary::encode_values, (&b, &widths, &raw), words),
        call_ensures(Boundary::decode_values, (&b, &widths, &words), out),
    ensures
        words@.len() == raw@.len(),
        forall|i: int| 0 <= i < raw@.len() ==> #[trigger] words@[i] == b.codec.a * raw@[i],
        out is Ok && out->Ok_0@ == raw@,
{
    assert forall|i: int| 0 <= i < words@.len() implies b.codec.is_codeword(
        #[trigger] b.arriving(words@, i),
    ) && b.value(widths@, words@, i) == raw@[i] by {
        assert(words@[i] == b.codec.enc(raw@[i] as int));
        assert(raw@[i] < values(widths@[i]));
        lemma_encoded(b.codec, widths@[i], raw@[i] as int);
        lemma_small_mod(raw@[i] as nat, values(widths@[i]) as nat);
    }
    if let Ok(v) = out {
        assert forall|i: int| 0 <= i < raw@.len() implies v@[i] == raw@[i] by {
            assert(b.codec.is_codeword(b.arriving(words@, i)));
        }
        assert(v@ =~= raw@);
    }
}

/// What leaves the guest is refused if one word is no multiple of the constant; the injected
/// fault is added to the first word, with encoding.
pub proof fn law_boundary_fault(
    b: Boundary,
    widths: Vec<Width>,
    words: Vec<u128>,
    i: int,
    out: Result<Vec<u64>, Trap>,
)
    requires
        b.codec.wf(),
        0 <= i < words@.len(),
        (words@[i] + if i == 0 && b.an_encoding {
            b.an_inject_codeword_fault as int
        } else {
            0
        }) % b.codec.a as int != 0,
        call_ensures(Boundary::decode_values, (&b, &widths, &words), out),
    ensures
        out == Err::<Vec<u64>, Trap>(Trap::AnCodewordInvalid),
{
    if let Ok(raw) = out {
        assert(raw@[i] == b.value(widths@, words@, i));
    }
}

/// A global gives back what it was set to, from either side: the guest sees the constant times
/// what the host sees. The host learns of a word that is no multiple of the constant.
pub proof fn law_global(
    g: &mut AnGlobal,
    h: &mut AnGlobal,
    n: u64,
    x: u128,
    y: u128,
    r: Result<u64, Trap>,
    v: u64,
    e: Result<u64, Trap>,
)
    requires
        old(g).codec.wf(),
        n < values(old(g).width),
        call_ensures(AnGlobal::set, (g, n), ()),
        call_ensures(AnGlobal::guest_get, (&*final(g),), x),
        call_ensures(AnGlobal::try_get, (&*final(g),), r),
        call_ensures(AnGlobal::get, (&*final(g),), v),
        *old(h) == *final(g),
        call_ensures(AnGlobal::guest_set, (h, y), ()),
        call_ensures(AnGlobal::try_get, (&*final(h),), e),
    ensures
        x == old(g).codec.a * n,
        r == Ok::<u64, Trap>(n),
        v == n,
        final(g).width == old(g).width,
        final(g).codec == old(g).codec,
        y as int % old(g).codec.a as int != 0 ==> e == Err::<u64, Trap>(Trap::AnCodewordInvalid),
        e matches Ok(k) ==> y == old(g).codec.a * k,
{
    lemma_encoded(old(g).codec, old(g).width, n as int);
    lemma_fundamental_div_mod(y as int, old(g).codec.a as int);
}

/// A new global holds the constant times its value.
pub proof fn law_new_global(c: Codec, w: Width, n: u64, g: AnGlobal)
    requires
        call_ensures(AnGlobal::new, (c, w, n), g),
    ensures
        g.slot == c.a * n,
        g.codec == c,
        g.width == w,
{
}

} // verus!
