//! Globals, as the guest and as the host see them.
use an_encoding::boundary::AnGlobal;
use an_encoding::codec::Codec;
use an_encoding::config::Config;
use an_encoding::traps::Trap;
use an_encoding::wasm::Width;

fn codec(an: bool, a: Option<u64>) -> Codec {
    let mut config = Config::new();
    config.an_encoding = an;
    if let Some(a) = a {
        config.an_constant = a;
    }
    config.build().unwrap()
}

fn raw(w: Width, v: i64) -> u64 {
    match w {
        Width::W32 => v as u32 as u64,
        Width::W64 => v as u64,
    }
}

fn boundary_check(c: Codec, w: Width, cases: &[i64]) {
    let mut g = AnGlobal::new(c, w, 42);
    let g_neg = AnGlobal::new(c, w, raw(w, -7));
    assert_eq!(g.get(), 42);
    assert_eq!(g_neg.get(), raw(w, -7));
    assert_eq!(c.decode(w, g.guest_get()), Ok(42));
    for &v in cases {
        g.set(raw(w, v));
        assert_eq!(g.guest_get(), c.a as u128 * raw(w, v) as u128);
        assert_eq!(c.decode(w, g.guest_get()), Ok(raw(w, v)), "guest sees host-set {v}");
        assert_eq!(g.get(), raw(w, v), "host round-trip {v}");
        let n = v.wrapping_neg();
        g.guest_set(c.encode(w, raw(w, n)));
        assert_eq!(g.get(), raw(w, n), "host sees guest-set {n}");
    }
}

fn global_boundary_check(an: bool, a: Option<u64>) {
    let cases = [
        0,
        1,
        -1,
        42,
        -42,
        i32::MIN as i64,
        i32::MAX as i64,
        0x7fff_ffff,
        0x8000_0000u32 as i32 as i64,
        0x1234_5678,
    ];
    boundary_check(codec(an, a), Width::W32, &cases);
}

fn global_i64_boundary_check(an: bool, a: Option<u64>) {
    let cases = [
        0,
        1,
        -1,
        42,
        -42,
        i64::MIN,
        i64::MAX,
        0x0123_4567_89ab_cdef,
        0xfedc_ba98_7654_3210u64 as i64,
    ];
    boundary_check(codec(an, a), Width::W64, &cases);
}

fn import_check(c: Codec, w: Width) {
    let mut g = AnGlobal::new(c, w, 100);
    assert_eq!(c.decode(w, g.guest_get()), Ok(100));
    g.guest_set(c.add(w, g.guest_get(), c.encode(w, 23)));
    assert_eq!(c.decode(w, g.guest_get()), Ok(123));
    assert_eq!(g.get(), 123);
    g.set(raw(w, -5));
    assert_eq!(c.decode(w, g.guest_get()), Ok(raw(w, -5)));
}

#[test]
fn global_boundary_without_an() {
    global_boundary_check(false, None);
}

#[test]
fn global_boundary_with_an() {
    global_boundary_check(true, None);
}

#[test]
fn global_import_without_an() {
    import_check(codec(false, None), Width::W32);
}

#[test]
fn global_import_with_an() {
    import_check(codec(true, None), Width::W32);
}

#[test]
fn global_i64_boundary_without_an() {
    global_i64_boundary_check(false, None);
}

#[test]
fn global_i64_boundary_with_an() {
    global_i64_boundary_check(true, None);
}

#[test]
fn global_i64_import_without_an() {
    import_check(codec(false, None), Width::W64);
}

#[test]
fn global_i64_import_with_an() {
    import_check(codec(true, None), Width::W64);
}

#[test]
fn global_boundary_various_an_constants() {
    for &a in &[1u64, 7, 1009, 16_777_215] {
        global_boundary_check(true, Some(a));
        import_check(codec(true, Some(a)), Width::W32);
        global_i64_boundary_check(true, Some(a));
        import_check(codec(true, Some(a)), Width::W64);
    }
}

const GLOBAL_CODEWORD_A: u64 = 1009;

fn codeword_setup(w: Width) -> AnGlobal {
    let mut g = AnGlobal::new(codec(true, Some(GLOBAL_CODEWORD_A)), w, 42);
    g.set(42);
    g
}

fn corrupted(w: Width) -> AnGlobal {
    let mut g = codeword_setup(w);
    g.slot = (GLOBAL_CODEWORD_A * 42 + 1) as u128;
    g
}

#[test]
fn global_try_get_clean_passes() {
    assert_eq!(codeword_setup(Width::W32).try_get(), Ok(42));
}

#[test]
fn global_i64_try_get_clean_passes() {
    assert_eq!(codeword_setup(Width::W64).try_get(), Ok(42));
}

#[test]
fn global_try_get_invalid_codeword_traps() {
    assert_eq!(corrupted(Width::W32).try_get(), Err(Trap::AnCodewordInvalid));
}

#[test]
fn global_i64_try_get_invalid_codeword_traps() {
    assert_eq!(corrupted(Width::W64).try_get(), Err(Trap::AnCodewordInvalid));
}

#[test]
#[should_panic(expected = "AnCodewordInvalid")]
fn global_get_panics_on_invalid_codeword() {
    corrupted(Width::W32).try_get().unwrap();
}

#[test]
#[should_panic(expected = "AnCodewordInvalid")]
fn global_i64_get_panics_on_invalid_codeword() {
    corrupted(Width::W64).try_get().unwrap();
}
