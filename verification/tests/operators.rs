//! Guest operators, run with and without encoding.
use an_encoding::boundary::{AnGlobal, Boundary};
use an_encoding::codec::Codec;
use an_encoding::config::Config;
use an_encoding::lut::{generate, AnLuts, BinOp};
use an_encoding::memory::state::AnMemory;
use an_encoding::traps::Trap;
use an_encoding::wasm::{Count, Relation, Width};

const W32: Width = Width::W32;
const W64: Width = Width::W64;

// The constants swept besides the default: the identity, a small odd one, a small prime, and the
// largest legal one.
const I64_AN_CONSTANTS: [u64; 4] = [1, 7, 1009, 16_777_215];

struct Guest {
    codec: Codec,
    boundary: Boundary,
    luts: AnLuts,
    memory: AnMemory,
}

fn guest(an: bool, a: Option<u64>) -> Guest {
    let mut config = Config::new();
    config.an_encoding = an;
    if let Some(a) = a {
        config.an_constant = a;
    }
    let codec = config.build().expect("a legal configuration");
    Guest {
        codec,
        boundary: Boundary { codec, an_encoding: an, an_inject_codeword_fault: 0 },
        luts: generate(codec.a).expect("a legal constant"),
        memory: AnMemory::new(an, config.an_constant, W32, 1, 1),
    }
}

impl Guest {
    // A value as it enters the guest.
    fn enter(&self, w: Width, n: i64) -> u128 {
        let raw = match w {
            Width::W32 => n as u32 as u64,
            Width::W64 => n as u64,
        };
        self.boundary.encode_values(&vec![w], &vec![raw])[0]
    }

    // A value as it leaves the guest.
    fn leave(&self, w: Width, x: u128) -> Result<i64, Trap> {
        let raw = self.boundary.decode_values(&vec![w], &vec![x])?[0];
        Ok(match w {
            Width::W32 => raw as u32 as i32 as i64,
            Width::W64 => raw as i64,
        })
    }

    fn binary(&self, w: Width, name: &str, a: i64, b: i64) -> Result<i64, Trap> {
        let c = &self.codec;
        let (x, y) = (self.enter(w, a), self.enter(w, b));
        let (out, r) = match name {
            "add" => (w, c.add(w, x, y)),
            "sub" => (w, c.sub(w, x, y)),
            "mul" => (w, c.mul(w, x, y)?),
            "divu" => (w, c.div_u(w, x, y)?),
            "remu" => (w, c.rem_u(w, x, y)?),
            "divs" => (w, c.div_s(w, x, y)?),
            "rems" => (w, c.rem_s(w, x, y)?),
            "shl" => (w, c.shl(w, x, y)?),
            "shru" => (w, c.shr_u(w, x, y)?),
            "shrs" => (w, c.shr_s(w, x, y)?),
            "rotl" => (w, c.rotl(w, x, y)?),
            "rotr" => (w, c.rotr(w, x, y)?),
            "and" => (w, c.bitwise(BinOp::And, &self.luts, w, x, y)?),
            "or" => (w, c.bitwise(BinOp::Or, &self.luts, w, x, y)?),
            "xor" => (w, c.bitwise(BinOp::Xor, &self.luts, w, x, y)?),
            "eq" => (W32, c.compare(Relation::Eq, w, x, y)?),
            "ne" => (W32, c.compare(Relation::Ne, w, x, y)?),
            "lt_s" => (W32, c.compare(Relation::LtS, w, x, y)?),
            "lt_u" => (W32, c.compare(Relation::LtU, w, x, y)?),
            "le_s" => (W32, c.compare(Relation::LeS, w, x, y)?),
            "le_u" => (W32, c.compare(Relation::LeU, w, x, y)?),
            "gt_s" => (W32, c.compare(Relation::GtS, w, x, y)?),
            "gt_u" => (W32, c.compare(Relation::GtU, w, x, y)?),
            "ge_s" => (W32, c.compare(Relation::GeS, w, x, y)?),
            "ge_u" => (W32, c.compare(Relation::GeU, w, x, y)?),
            other => panic!("no operator {other}"),
        };
        self.leave(out, r)
    }

    fn unary(&self, w: Width, name: &str, a: i64) -> Result<i64, Trap> {
        let c = &self.codec;
        let x = self.enter(w, a);
        let (out, r) = match name {
            "eqz" => (W32, c.eqz(w, x)?),
            "clz" => (w, c.count(Count::Clz, w, x)?),
            "ctz" => (w, c.count(Count::Ctz, w, x)?),
            "popcnt" => (w, c.count(Count::Popcnt, w, x)?),
            "ext8" => (w, c.extend_s(w, 8, x)),
            "ext16" => (w, c.extend_s(w, 16, x)),
            "ext32" => (w, c.extend_s(w, 32, x)),
            "wrap" => (W32, c.wrap_i64(x)),
            "ext_i32_s" => (W64, c.extend_i32_s(x)),
            "ext_i32_u" => (W64, c.extend_i32_u(x)),
            other => panic!("no operator {other}"),
        };
        self.leave(out, r)
    }

    fn store(&mut self, w: Width, addr: i32, n: usize, v: i64) -> Result<(), Trap> {
        let (x, y) = (self.enter(W32, addr as i64), self.enter(w, v));
        self.memory.store(w, x, 0, n, y)
    }

    fn load(&self, w: Width, addr: i32, n: usize, signed: bool) -> Result<i64, Trap> {
        let x = self.enter(W32, addr as i64);
        self.leave(w, self.memory.load(w, x, 0, n, signed)?)
    }
}

fn check(an: bool) {
    let g = guest(an, None);
    let mul = |a: i32, b: i32| g.binary(W32, "mul", a as i64, b as i64).unwrap() as i32;
    assert_eq!(mul(7, 6), 42);
    assert_eq!(mul(0, 123), 0);
    assert_eq!(mul(-3, 4), -12);
    assert_eq!(mul(1 << 29, 3), 1_610_612_736);
    assert_eq!(mul(i32::MAX, 4), -4);
    assert_eq!(mul(1 << 29, -3), -1_610_612_736);
    assert_eq!(mul(i32::MAX, -4), 4);
    assert_eq!(mul(i32::MAX, i32::MAX), 1);
}

#[test]
fn mul_without_an() {
    check(false);
}

#[test]
fn mul_with_an() {
    check(true);
}

fn br_table_check(an: bool) {
    let g = guest(an, None);
    let run = |sel: i32| {
        let arm = g.codec.br_table(g.enter(W32, sel as i64), 3).unwrap();
        [100, 101, 102, 999][arm as usize]
    };
    assert_eq!(run(1), 101);
    assert_eq!(run(2), 102);
    assert_eq!(run(3), 999);
    assert_eq!(run(7), 999);
}

#[test]
fn br_table_without_an() {
    br_table_check(false);
}

#[test]
fn br_table_with_an() {
    br_table_check(true);
}

fn i64_addwrap_check(an: bool, a: Option<u64>) {
    let g = guest(an, a);
    let run = |x: u64, y: u64| {
        let s = g.codec.add(W64, g.enter(W64, x as i64), g.enter(W64, y as i64));
        g.leave(W32, g.codec.wrap_i64(s)).unwrap()
    };
    assert_eq!(run(5, 7), 12);
    assert_eq!(run(0x1_0000_0001, 0xFFFF_FFFF), 0);
    assert_eq!(run(0x1_0000_0000, 1), 1);
    assert_eq!(run(0xFFFF_FFFF_FFFF_FFFF, 2), 1);
}

#[test]
fn i64_addwrap_without_an() {
    i64_addwrap_check(false, None);
}

#[test]
fn i64_addwrap_with_an() {
    i64_addwrap_check(true, None);
}

fn add64_check(an: bool, a: Option<u64>) {
    let g = guest(an, a);
    let run = |x: i64, y: i64| g.binary(W64, "add", x, y).unwrap();
    assert_eq!(run(5, 7), 12);
    assert_eq!(run(-1, 1), 0);
    assert_eq!(run(i64::MIN, i64::MIN), 0);
    assert_eq!(run(i64::MAX, 1), i64::MIN);
    assert_eq!(run(1234567890123, 9876543210), 1244444433333);
}

#[test]
fn add64_without_an() {
    add64_check(false, None);
}

#[test]
fn add64_with_an() {
    add64_check(true, None);
}

fn i64ops_check(an: bool, a: Option<u64>) {
    let g = guest(an, a);
    let two = |f: &str, x: i64, y: i64| g.binary(W64, f, x, y).unwrap();
    let one = |f: &str, x: i64| g.unary(W64, f, x).unwrap();
    assert_eq!(two("sub", 7, 5), 2);
    assert_eq!(two("sub", 5, 7), -2);
    assert_eq!(two("sub", i64::MIN, 1), i64::MAX);

    let pairs: &[(i64, i64)] = &[
        (0, 0),
        (5, 5),
        (-1, 0),
        (0, -1),
        (-1, -1),
        (1, -1),
        (-1, 1),
        (i64::MIN, i64::MAX),
        (i64::MAX, i64::MIN),
        (i64::MIN, i64::MIN),
        (i64::MAX, i64::MAX),
        (i64::MIN, -1),
        (i64::MAX, 1),
        (-100, 7),
        (100, -7),
        (42, 43),
    ];
    for &(x, y) in pairs {
        let (xu, yu) = (x as u64, y as u64);
        let b = |c: bool| c as i64;
        assert_eq!(two("lt_s", x, y), b(x < y), "lt_s({x},{y})");
        assert_eq!(two("lt_u", x, y), b(xu < yu), "lt_u({x},{y})");
        assert_eq!(two("le_s", x, y), b(x <= y), "le_s({x},{y})");
        assert_eq!(two("le_u", x, y), b(xu <= yu), "le_u({x},{y})");
        assert_eq!(two("gt_s", x, y), b(x > y), "gt_s({x},{y})");
        assert_eq!(two("gt_u", x, y), b(xu > yu), "gt_u({x},{y})");
        assert_eq!(two("ge_s", x, y), b(x >= y), "ge_s({x},{y})");
        assert_eq!(two("ge_u", x, y), b(xu >= yu), "ge_u({x},{y})");
        assert_eq!(two("eq", x, y), b(x == y), "eq({x},{y})");
        assert_eq!(two("ne", x, y), b(x != y), "ne({x},{y})");
    }

    assert_eq!(one("eqz", 0), 1);
    assert_eq!(one("eqz", 5), 0);

    assert_eq!(one("ext8", 0xFF), -1);
    assert_eq!(one("ext8", 0x7F), 127);
    assert_eq!(one("ext8", 0x100), 0);
    assert_eq!(one("ext16", 0xFFFF), -1);
    assert_eq!(one("ext16", 0x8000), -32768);
    assert_eq!(one("ext16", 0x7FFF), 32767);
    assert_eq!(one("ext32", 0xFFFF_FFFF), -1);
    assert_eq!(one("ext32", 0x8000_0000), -2147483648);
    assert_eq!(one("ext32", 0x7FFF_FFFF), 2147483647);
    assert_eq!(one("ext32", 0xFFFF_FFFF_0000_0001u64 as i64), 1);
}

#[test]
fn i64ops_without_an() {
    i64ops_check(false, None);
}

#[test]
fn i64ops_with_an() {
    i64ops_check(true, None);
}

fn divrem_check(an: bool, a: Option<u64>) {
    let g = guest(an, a);
    let run = |f: &str, x: i64, y: i64| g.binary(W64, f, x, y);
    let pairs: &[(i64, i64)] = &[
        (7, 2),
        (-7, 2),
        (7, -2),
        (-7, -2),
        (0, 5),
        (0, -5),
        (i64::MIN, 2),
        (i64::MIN, 3),
        (i64::MAX, 1),
        (i64::MAX, -1),
        (-1, 1),
        (1, -1),
        (-1, -1),
        (-1, i64::MIN),
        (1, i64::MIN),
        (i64::MIN, i64::MIN),
        (i64::MIN, i64::MAX),
        (i64::MAX, i64::MAX),
        (100, 7),
        (-100, 7),
        (100, -7),
        (-100, -7),
        (-1, 10),
    ];
    for &(x, y) in pairs {
        let (xu, yu) = (x as u64, y as u64);
        assert_eq!(run("divu", x, y), Ok((xu / yu) as i64), "divu({x},{y})");
        assert_eq!(run("remu", x, y), Ok((xu % yu) as i64), "remu({x},{y})");
        assert_eq!(run("divs", x, y), Ok(x.wrapping_div(y)), "divs({x},{y})");
        assert_eq!(run("rems", x, y), Ok(x.wrapping_rem(y)), "rems({x},{y})");
    }
    assert_eq!(run("rems", i64::MIN, -1), Ok(0));

    for &lhs in &[0i64, 1, -1, 42, i64::MIN, i64::MAX] {
        for f in ["divu", "divs", "remu", "rems"] {
            assert_eq!(run(f, lhs, 0), Err(Trap::IntegerDivisionByZero), "{f}({lhs}/0)");
        }
    }
    assert_eq!(run("divs", i64::MIN, -1), Err(Trap::IntegerOverflow));
}

#[test]
fn divrem_without_an() {
    divrem_check(false, None);
}

#[test]
fn divrem_with_an() {
    divrem_check(true, None);
}

fn bitwise_check(an: bool, a: Option<u64>) {
    let g = guest(an, a);
    let two = |f: &str, x: i64, y: i64| g.binary(W64, f, x, y).unwrap();
    let one = |f: &str, x: i64| g.unary(W64, f, x).unwrap();
    let pairs: &[(i64, i64)] = &[
        (0x0123_4567_89AB_CDEFu64 as i64, 0xFEDC_BA98_7654_3210u64 as i64),
        (0x0123_4567_89AB_CDEFu64 as i64, 0xFFFF_FFFF_0000_0000u64 as i64),
        (0x0123_4567_89AB_CDEFu64 as i64, -1),
        (-1, 0),
        (0x0123_4567_89AB_CDEFu64 as i64, 0),
        (0xFF00_FF00_FF00_FF00u64 as i64, 0x00FF_00FF_00FF_00FFu64 as i64),
        (0x8040_2010_0804_0201u64 as i64, 0x0102_0408_1020_4080u64 as i64),
        (i64::MIN, i64::MAX),
    ];
    for &(x, y) in pairs {
        assert_eq!(two("and", x, y), x & y, "and({x:#x},{y:#x})");
        assert_eq!(two("or", x, y), x | y, "or({x:#x},{y:#x})");
        assert_eq!(two("xor", x, y), x ^ y, "xor({x:#x},{y:#x})");
    }
    let unary: &[i64] = &[
        0,
        1,
        -1,
        i64::MIN,
        i64::MAX,
        0x0123_4567_89AB_CDEFu64 as i64,
        0x0000_FFFF_FFFF_0000u64 as i64,
        0xFFFF_0000_0000_FFFFu64 as i64,
        0x8000_0000_0000_0000u64 as i64,
        0x0000_0000_0000_0100u64 as i64,
    ];
    for &v in unary {
        let u = v as u64;
        assert_eq!(one("clz", v), u.leading_zeros() as i64, "clz({v:#x})");
        assert_eq!(one("ctz", v), u.trailing_zeros() as i64, "ctz({v:#x})");
        assert_eq!(one("popcnt", v), u.count_ones() as i64, "popcnt({v:#x})");
    }
}

#[test]
fn i64_bitwise_without_an() {
    bitwise_check(false, None);
}

#[test]
fn i64_bitwise_with_an() {
    bitwise_check(true, None);
}

fn shift_check(an: bool, a: Option<u64>) {
    let g = guest(an, a);
    let run = |f: &str, x: i64, k: i64| g.binary(W64, f, x, k).unwrap();
    let vals: &[i64] =
        &[0, 1, -1, i64::MIN, i64::MAX, 0x0123_4567_89AB_CDEFu64 as i64, 0xFF, 8];
    let counts: &[i64] = &[0, 1, 3, 5, 31, 32, 33, 60, 63, 64, 65, 127, 128];
    for &v in vals {
        let u = v as u64;
        for &k in counts {
            let s = (k & 63) as u32;
            assert_eq!(run("shl", v, k), (u << s) as i64, "shl({v:#x},{k})");
            assert_eq!(run("shru", v, k), (u >> s) as i64, "shru({v:#x},{k})");
            assert_eq!(run("shrs", v, k), v >> s, "shrs({v:#x},{k})");
            assert_eq!(run("rotl", v, k), u.rotate_left(s) as i64, "rotl({v:#x},{k})");
            assert_eq!(run("rotr", v, k), u.rotate_right(s) as i64, "rotr({v:#x},{k})");
        }
    }
}

#[test]
fn i64_shift_without_an() {
    shift_check(false, None);
}

#[test]
fn i64_shift_with_an() {
    shift_check(true, None);
}

fn mul64_check(an: bool, a: Option<u64>) {
    let g = guest(an, a);
    let pairs: &[(i64, i64)] = &[
        (6, 7),
        (0, 123),
        (-3, 4),
        (-7, 3),
        (1234567, 7654321),
        (0x1_0000_0000, 2),
        (0x1_0000_0000, 0x1_0000_0000),
        (0x1_0000_0001, 0x1_0000_0000),
        (i64::MAX, 1),
        (-1, 1),
        (0xDEAD_BEEF, 0x1_2345),
    ];
    for &(x, y) in pairs {
        assert_eq!(g.binary(W64, "mul", x, y), Ok(x.wrapping_mul(y)), "mul({x:#x},{y:#x})");
    }
}

#[test]
fn mul64_without_an() {
    mul64_check(false, None);
}

#[test]
fn mul64_with_an() {
    mul64_check(true, None);
}

#[test]
fn mul64_overflow_traps_under_an() {
    let big = 1i64 << 62;
    assert_eq!(guest(false, None).binary(W64, "mul", big, big), Ok(0));
    for &a in &[7u64, 1009, 65521, 16_777_215] {
        assert_eq!(
            guest(true, Some(a)).binary(W64, "mul", big, big),
            Err(Trap::AnI64WidenOverflow),
            "mul64 overflow A={a}"
        );
    }
}

#[test]
fn mul64_no_overflow_with_an_constant_1() {
    let big = 1i64 << 62;
    let g = guest(true, Some(1));
    assert_eq!(g.binary(W64, "mul", big, big), Ok(0));
    assert_eq!(g.binary(W64, "mul", -1, -1), Ok(1));
}

fn mem_store_load(g: &mut Guest, st: usize, ld: usize, signed: bool, addr: i32, v: i64) -> i64 {
    g.store(W64, addr, st, v).unwrap();
    g.load(W64, addr, ld, signed).unwrap()
}

fn mem_check(an: bool, a: Option<u64>) {
    let v = 0x0123_4567_89AB_CDEFu64 as i64;
    let mut g = guest(an, a);
    for addr in [0i32, 8, 16, 1, 2, 3, 4, 5, 6, 7] {
        for val in [v, -1, 0, i64::MIN, i64::MAX, 0x00FF_00FF_00FF_00FFu64 as i64] {
            assert_eq!(
                mem_store_load(&mut g, 8, 8, false, addr, val),
                val,
                "store64/load64 addr={addr} val={val:#x}"
            );
        }
    }
    for addr in [0i32, 1, 3, 7, 8, 13] {
        let mut g = guest(an, a);
        assert_eq!(mem_store_load(&mut g, 4, 4, false, addr, v), 0x89AB_CDEF);
        assert_eq!(
            mem_store_load(&mut g, 4, 4, true, addr, v),
            0xFFFF_FFFF_89AB_CDEFu64 as i64
        );
        assert_eq!(mem_store_load(&mut g, 2, 2, false, addr, v), 0xCDEF);
        assert_eq!(
            mem_store_load(&mut g, 2, 2, true, addr, v),
            0xFFFF_FFFF_FFFF_CDEFu64 as i64
        );
        assert_eq!(mem_store_load(&mut g, 1, 1, false, addr, v), 0xEF);
        assert_eq!(
            mem_store_load(&mut g, 1, 1, true, addr, v),
            0xFFFF_FFFF_FFFF_FFEFu64 as i64
        );
    }
}

#[test]
fn i64_mem_without_an() {
    mem_check(false, None);
}

#[test]
fn i64_mem_with_an() {
    mem_check(true, None);
}

#[test]
fn i64_load_validity_check_traps_on_raw_tamper() {
    for tamper_off in [9usize, 13] {
        let mut g = guest(true, None);
        g.store(W64, 8, 8, 0x0123_4567_89AB_CDEFu64 as i64).unwrap();
        g.memory.raw[tamper_off] ^= 0x80;
        assert_eq!(
            g.load(W64, 8, 8, false),
            Err(Trap::AnMemoryMismatch),
            "tamper at {tamper_off}"
        );
    }
}

fn global_check(an: bool, a: Option<u64>) {
    let g = guest(an, a);
    let mut var = AnGlobal::new(g.codec, W64, 100);
    let fixed = AnGlobal::new(g.codec, W64, -7i64 as u64);
    assert_eq!(g.leave(W64, var.guest_get()), Ok(100));
    for v in [0i64, -1, i64::MAX, i64::MIN, 0x0123_4567_89AB_CDEFu64 as i64] {
        var.guest_set(g.enter(W64, v));
        assert_eq!(g.leave(W64, var.guest_get()), Ok(v));
    }
    let before = g.leave(W64, var.guest_get()).unwrap();
    var.guest_set(g.codec.add(W64, var.guest_get(), g.enter(W64, 1)));
    assert_eq!(g.leave(W64, var.guest_get()), Ok(before.wrapping_add(1)));
    assert_eq!(g.leave(W64, fixed.guest_get()), Ok(-7));
}

#[test]
fn i64_global_without_an() {
    global_check(false, None);
}

#[test]
fn i64_global_with_an() {
    global_check(true, None);
}

#[test]
fn i64_ops_various_an_constants() {
    for &a in &I64_AN_CONSTANTS {
        let a = Some(a);
        i64_addwrap_check(true, a);
        add64_check(true, a);
        i64ops_check(true, a);
        divrem_check(true, a);
        bitwise_check(true, a);
        shift_check(true, a);
        mul64_check(true, a);
        mem_check(true, a);
        global_check(true, a);
    }
}

// A guest program: the decimal number at address 64 is parsed, that many Fibonacci steps are
// made, and the number reached is handed out.
fn run_fib(an: bool, n: u32) -> String {
    let mut g = guest(an, None);
    let input = format!("{n}\n").into_bytes();
    g.memory.write(64, &input).unwrap();
    let c = g.codec;
    let constant = |v: i64| g.enter(W32, v);
    let mut count = constant(0);
    let mut at = constant(64);
    loop {
        let ch = g.memory.load(W32, at, 0, 1, false).unwrap();
        let done = c.compare(Relation::LtU, W32, ch, constant(48)).unwrap();
        if c.condition(W32, done).unwrap() {
            break;
        }
        let digit = c.sub(W32, ch, constant(48));
        count = c.add(W32, c.mul(W32, count, constant(10)).unwrap(), digit);
        at = c.add(W32, at, constant(1));
    }
    let (mut a, mut b) = (constant(0), constant(1));
    while c.condition(W32, count).unwrap() {
        let sum = c.add(W32, a, b);
        a = b;
        b = sum;
        count = c.sub(W32, count, constant(1));
    }
    g.leave(W32, a).unwrap().to_string()
}

fn fib_check(an: bool) {
    assert_eq!(run_fib(an, 0), "0");
    assert_eq!(run_fib(an, 1), "1");
    assert_eq!(run_fib(an, 2), "1");
    assert_eq!(run_fib(an, 5), "5");
    assert_eq!(run_fib(an, 10), "55");
    assert_eq!(run_fib(an, 20), "6765");
    assert_eq!(run_fib(an, 30), "832040");
}

#[test]
fn fib_without_an() {
    fib_check(false);
}

#[test]
fn fib_with_an() {
    fib_check(true);
}

#[test]
fn fib_with_an_and_load_validity_check() {
    assert_eq!(run_fib(true, 0), "0");
    assert_eq!(run_fib(true, 5), "5");
    assert_eq!(run_fib(true, 20), "6765");
}

fn ops_assertions(g: &mut Guest) {
    let call2 = |g: &Guest, f: &str, a: i32, b: i32| {
        g.binary(W32, f, a as i64, b as i64).map(|v| v as i32)
    };
    let call1 = |g: &Guest, f: &str, a: i32| g.unary(W32, f, a as i64).map(|v| v as i32);

    assert_eq!(call2(g, "add", 7, 5), Ok(12));
    assert_eq!(call2(g, "add", 1_000_000, 2_000_000), Ok(3_000_000));
    assert_eq!(call2(g, "sub", 10, 3), Ok(7));
    assert_eq!(call2(g, "sub", 3, 10), Ok(-7));
    assert_eq!(call2(g, "sub", 100, 200), Ok(-100));

    assert_eq!(call2(g, "mul", 7, 6), Ok(42));
    assert_eq!(call2(g, "mul", 0, 123), Ok(0));
    assert_eq!(call2(g, "mul", -3, 4), Ok(-12));

    assert_eq!(call2(g, "divu", 20, 3), Ok(6));
    assert_eq!(call2(g, "divu", 100, 7), Ok(14));
    assert_eq!(call2(g, "remu", 20, 3), Ok(2));
    assert_eq!(call2(g, "remu", 100, 7), Ok(2));

    let signed_div_pairs: &[(i32, i32)] = &[
        (7, 2),
        (-7, 2),
        (7, -2),
        (-7, -2),
        (0, 5),
        (0, -5),
        (i32::MIN, 1),
        (i32::MIN, 2),
        (i32::MIN, 3),
        (i32::MAX, 1),
        (i32::MAX, -1),
        (-1, 1),
        (1, -1),
        (-1, -1),
        (-1, i32::MIN),
        (1, i32::MIN),
        (i32::MIN, i32::MIN),
        (i32::MIN, i32::MAX),
        (i32::MAX, i32::MAX),
    ];
    for &(a, b) in signed_div_pairs {
        assert_eq!(call2(g, "divs", a, b), Ok(a.wrapping_div(b)), "divs({a},{b})");
        assert_eq!(call2(g, "rems", a, b), Ok(a.wrapping_rem(b)), "rems({a},{b})");
    }
    assert_eq!(call2(g, "divs", i32::MIN, -1), Err(Trap::IntegerOverflow));
    assert_eq!(call2(g, "rems", i32::MIN, -1), Ok(0));
    for &lhs in &[0i32, 1, -1, 42, i32::MIN, i32::MAX] {
        assert_eq!(call2(g, "divs", lhs, 0), Err(Trap::IntegerDivisionByZero));
        assert_eq!(call2(g, "rems", lhs, 0), Err(Trap::IntegerDivisionByZero));
    }

    let shift_vals: &[i32] = &[
        0,
        1,
        -1,
        2,
        42,
        -42,
        0x12345678u32 as i32,
        0xDEADBEEFu32 as i32,
        i32::MIN,
        i32::MAX,
        0x80000001u32 as i32,
        0x7FFFFFFE,
    ];
    let shift_counts: &[i32] = &[0, 1, 2, 7, 15, 16, 17, 30, 31, 32, 33, 63, 64, 65];
    for &v in shift_vals {
        for &k in shift_counts {
            let kmod = (k as u32) & 31;
            let u = v as u32;
            assert_eq!(call2(g, "shl", v, k), Ok(u.wrapping_shl(kmod) as i32));
            assert_eq!(call2(g, "shru", v, k), Ok((u >> kmod) as i32));
            assert_eq!(call2(g, "shrs", v, k), Ok(v.wrapping_shr(kmod)));
            assert_eq!(call2(g, "rotl", v, k), Ok(u.rotate_left(kmod) as i32));
            assert_eq!(call2(g, "rotr", v, k), Ok(u.rotate_right(kmod) as i32));
        }
    }

    let unary_vals: &[i32] = &[
        0,
        1,
        -1,
        2,
        0x80000000u32 as i32,
        0x7FFFFFFF,
        0x0000FFFFu32 as i32,
        0xFFFF0000u32 as i32,
        0x12345678u32 as i32,
        0xDEADBEEFu32 as i32,
        i32::MIN,
        i32::MAX,
    ];
    for &v in unary_vals {
        let u = v as u32;
        assert_eq!(call1(g, "clz", v), Ok(u.leading_zeros() as i32), "clz({v:#010x})");
        assert_eq!(call1(g, "ctz", v), Ok(u.trailing_zeros() as i32), "ctz({v:#010x})");
        assert_eq!(call1(g, "popcnt", v), Ok(u.count_ones() as i32), "popcnt({v:#010x})");
    }

    // Globals.
    let mut var = AnGlobal::new(g.codec, W32, 42);
    let neg = AnGlobal::new(g.codec, W32, -7i32 as u32 as u64);
    assert_eq!(g.leave(W32, var.guest_get()), Ok(42));
    assert_eq!(g.leave(W32, neg.guest_get()), Ok(-7));
    for &v in &[0i32, 1, -1, 42, -42, i32::MIN, i32::MAX] {
        var.guest_set(g.enter(W32, v as i64));
        assert_eq!(g.leave(W32, var.guest_get()), Ok(v as i64));
    }
    var.guest_set(g.enter(W32, 10));
    var.guest_set(g.codec.add(W32, var.guest_get(), g.enter(W32, 5)));
    assert_eq!(g.leave(W32, var.guest_get()), Ok(15));
    var.guest_set(g.codec.add(W32, var.guest_get(), g.enter(W32, -20)));
    assert_eq!(g.leave(W32, var.guest_get()), Ok(-5));

    assert_eq!(call2(g, "add", 50, 100), Ok(150));
    assert_eq!(call2(g, "add", 0, 100), Ok(100));

    assert_eq!(call2(g, "lt_u", 3, 5), Ok(1));
    assert_eq!(call2(g, "lt_u", 5, 3), Ok(0));
    assert_eq!(call2(g, "ge_u", 5, 5), Ok(1));
    assert_eq!(call2(g, "ge_u", 2, 5), Ok(0));
    assert_eq!(call2(g, "gt_u", 5, 3), Ok(1));
    assert_eq!(call2(g, "eq", 7, 7), Ok(1));
    assert_eq!(call2(g, "eq", 7, 8), Ok(0));
    assert_eq!(call2(g, "ne", 7, 8), Ok(1));
    assert_eq!(call1(g, "eqz", 0), Ok(1));
    assert_eq!(call1(g, "eqz", 7), Ok(0));

    let signed_pairs: &[(i32, i32)] = &[
        (3, 5),
        (5, 3),
        (5, 5),
        (-1, 0),
        (0, -1),
        (-1, -1),
        (-5, -3),
        (-3, -5),
        (i32::MIN, 0),
        (0, i32::MIN),
        (i32::MIN, i32::MAX),
        (i32::MAX, i32::MIN),
        (i32::MIN, i32::MIN),
        (i32::MAX, i32::MAX),
        (i32::MAX, -1),
        (-1, i32::MAX),
        (i32::MIN, i32::MIN + 1),
        (i32::MAX - 1, i32::MAX),
    ];
    for &(a, b) in signed_pairs {
        assert_eq!(call2(g, "lt_s", a, b), Ok((a < b) as i32), "lt_s({a},{b})");
        assert_eq!(call2(g, "le_s", a, b), Ok((a <= b) as i32), "le_s({a},{b})");
        assert_eq!(call2(g, "gt_s", a, b), Ok((a > b) as i32), "gt_s({a},{b})");
        assert_eq!(call2(g, "ge_s", a, b), Ok((a >= b) as i32), "ge_s({a},{b})");
    }

    // Branches on encoded conditions, and loops with encoded counters.
    let c = g.codec;
    let max_u = |a: i64, b: i64| {
        let (x, y) = (g.enter(W32, a), g.enter(W32, b));
        let above = c.compare(Relation::GtU, W32, x, y).unwrap();
        let m = if c.condition(W32, above).unwrap() { x } else { y };
        g.leave(W32, m).unwrap()
    };
    assert_eq!(max_u(3, 7), 7);
    assert_eq!(max_u(9, 4), 9);

    let loop_count = |n: i64| {
        let (n, one) = (g.enter(W32, n), g.enter(W32, 1));
        let (mut i, mut sum) = (g.enter(W32, 0), g.enter(W32, 0));
        while c.condition(W32, c.compare(Relation::LtU, W32, i, n).unwrap()).unwrap() {
            sum = c.add(W32, sum, i);
            i = c.add(W32, i, one);
        }
        g.leave(W32, sum).unwrap()
    };
    assert_eq!(loop_count(10), 45);
    assert_eq!(loop_count(100), 4950);

    let digits = |n: i64| {
        let (mut n, ten, one) = (g.enter(W32, n), g.enter(W32, 10), g.enter(W32, 1));
        let mut count = g.enter(W32, 0);
        while c.condition(W32, n).unwrap() {
            n = c.div_u(W32, n, ten).unwrap();
            count = c.add(W32, count, one);
        }
        g.leave(W32, count).unwrap()
    };
    assert_eq!(digits(0), 0);
    assert_eq!(digits(5), 1);
    assert_eq!(digits(99), 2);
    assert_eq!(digits(12345), 5);

    // Memory.
    g.store(W32, 64, 4, 12345).unwrap();
    assert_eq!(g.load(W32, 64, 4, false), Ok(12345));
    g.store(W32, 256, 4, -42).unwrap();
    assert_eq!(g.load(W32, 256, 4, false), Ok(-42));
    g.store(W32, 64, 1, 200).unwrap();
    assert_eq!(g.load(W32, 64, 1, false), Ok(200));
    for (n, expected) in [(10, 45), (20, 190)] {
        let mut sum = 0;
        for i in 0..n {
            g.store(W32, i, 1, i as i64).unwrap();
        }
        for i in 0..n {
            sum += g.load(W32, i, 1, false).unwrap();
        }
        assert_eq!(sum, expected);
    }

    let bw_pairs: &[(i32, i32)] = &[
        (0, 0),
        (0, 0x12345678u32 as i32),
        (0x12345678u32 as i32, 0),
        (0x12345678u32 as i32, 0x0FF00FF0u32 as i32),
        (0xFFFFFFFFu32 as i32, 0xAAAAAAAAu32 as i32),
        (0xDEADBEEFu32 as i32, 0xCAFEBABEu32 as i32),
        (0x0000FFFFu32 as i32, 0xFFFF0000u32 as i32),
        (0x00FF00FFu32 as i32, 0xFF00FF00u32 as i32),
        (-1, 0x5A5A5A5Au32 as i32),
        (i32::MIN, i32::MAX),
        (0x80000000u32 as i32, 0x7FFFFFFFu32 as i32),
    ];
    for &(a, b) in bw_pairs {
        assert_eq!(call2(g, "and", a, b), Ok(a & b), "and({a:#010x},{b:#010x})");
        assert_eq!(call2(g, "or", a, b), Ok(a | b), "or({a:#010x},{b:#010x})");
        assert_eq!(call2(g, "xor", a, b), Ok(a ^ b), "xor({a:#010x},{b:#010x})");
    }
    for &v in &[0i32, 1, -1, 0x12345678u32 as i32, i32::MIN, i32::MAX] {
        assert_eq!(call2(g, "xor", v, -1), Ok(!v), "not({v:#010x})");
    }

    let (a, b) = (0xAABBCCDDu32 as i32, 0x11223344u32 as i32);
    let merged = ((a as u32 & 0x00ffff00u32) | (b as u32 & 0xff0000ffu32)) as i32;
    let low = call2(g, "and", a, 0x00ffff00u32 as i32).unwrap();
    let high = call2(g, "and", b, 0xff0000ffu32 as i32).unwrap();
    assert_eq!(call2(g, "or", low, high), Ok(merged));
}

#[test]
fn ops_without_an() {
    ops_assertions(&mut guest(false, None));
}

#[test]
fn ops_with_an() {
    ops_assertions(&mut guest(true, None));
}

#[test]
fn ops_with_an_custom_constants() {
    for &a in &[1u64, 7, 1009, 16_777_215] {
        ops_assertions(&mut guest(true, Some(a)));
    }
}

fn int_conversion_assertions(g: &Guest) {
    let i32_i32 = |f: &str, x: i32| g.unary(W32, f, x as i64).unwrap() as i32;
    let i64_i32 = |f: &str, x: i64| g.unary(W64, f, x).unwrap() as i32;
    let i32_i64 = |f: &str, x: i32| g.unary(W32, f, x as i64).unwrap();
    assert_eq!(i32_i32("ext8", 0), 0);
    assert_eq!(i32_i32("ext8", 127), 127);
    assert_eq!(i32_i32("ext8", 128), -128);
    assert_eq!(i32_i32("ext8", 255), -1);
    assert_eq!(i32_i32("ext8", 0x100), 0);
    assert_eq!(i32_i32("ext8", 0x1ff), -1);
    assert_eq!(i32_i32("ext8", -1), -1);

    assert_eq!(i32_i32("ext16", 0), 0);
    assert_eq!(i32_i32("ext16", 32767), 32767);
    assert_eq!(i32_i32("ext16", 32768), -32768);
    assert_eq!(i32_i32("ext16", 0xffff), -1);
    assert_eq!(i32_i32("ext16", 0x10000), 0);
    assert_eq!(i32_i32("ext16", -1), -1);

    assert_eq!(i64_i32("wrap", 0), 0);
    assert_eq!(i64_i32("wrap", i32::MAX as i64), i32::MAX);
    assert_eq!(i64_i32("wrap", -1), -1);
    assert_eq!(i64_i32("wrap", 0x1_0000_0000), 0);
    assert_eq!(i64_i32("wrap", 0xFFFF_FFFF), -1);
    assert_eq!(i64_i32("wrap", 0x1_FFFF_FFFF), -1);
    assert_eq!(i64_i32("wrap", i64::MAX), -1);
    assert_eq!(i64_i32("wrap", i64::MIN), 0);

    assert_eq!(i32_i64("ext_i32_s", 0), 0);
    assert_eq!(i32_i64("ext_i32_s", 1), 1);
    assert_eq!(i32_i64("ext_i32_s", -1), -1);
    assert_eq!(i32_i64("ext_i32_s", i32::MAX), i32::MAX as i64);
    assert_eq!(i32_i64("ext_i32_s", i32::MIN), i32::MIN as i64);

    assert_eq!(i32_i64("ext_i32_u", 0), 0);
    assert_eq!(i32_i64("ext_i32_u", 1), 1);
    assert_eq!(i32_i64("ext_i32_u", -1), 0xFFFF_FFFF);
    assert_eq!(i32_i64("ext_i32_u", i32::MIN), 0x8000_0000);
}

#[test]
fn int_conversions_without_an() {
    int_conversion_assertions(&guest(false, None));
}

#[test]
fn int_conversions_with_an() {
    int_conversion_assertions(&guest(true, None));
}

#[test]
fn int_conversions_with_various_an_constants() {
    for a in [1u64, 7, 1009, 65521, 16_777_215] {
        int_conversion_assertions(&guest(true, Some(a)));
    }
}

// A fault in an operand survives wrapping arithmetic and is found where the value is decoded.
#[test]
fn faults_survive_arithmetic() {
    let g = guest(true, None);
    let bad = g.enter(W32, 5) + 1;
    let good = g.enter(W32, -1);
    for r in [g.codec.add(W32, bad, good), g.codec.sub(W32, bad, good), g.codec.sub(W32, good, bad)]
    {
        assert_eq!(g.codec.check(r), Err(Trap::AnCodewordInvalid));
        assert_eq!(g.codec.decode(W32, r), Err(Trap::AnCodewordInvalid));
    }
    assert_eq!(g.codec.condition(W32, bad), Err(Trap::AnCodewordInvalid));
}

#[test]
fn codewords_are_multiples() {
    let g = guest(true, None);
    assert_eq!(g.codec.encode(W32, 3), 196_563);
    assert_eq!(g.codec.decode(W32, 196_563), Ok(3));
    assert_eq!(g.codec.check(196_564), Err(Trap::AnCodewordInvalid));
    assert_eq!(g.codec.encode(W64, u64::MAX), 65521 * (u64::MAX as u128));
}

#[test]
fn every_single_flip_is_detected() {
    let g = guest(true, None);
    for n in [0u64, 1, 3, 0x8000_0000, 0xffff_ffff] {
        let x = g.codec.encode(W32, n);
        for k in 0..64 {
            assert_eq!(g.codec.check(x ^ (1u128 << k)), Err(Trap::AnCodewordInvalid));
        }
    }
}
