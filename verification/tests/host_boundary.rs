//! Values that cross between host and guest.
use an_encoding::boundary::Boundary;
use an_encoding::codec::Codec;
use an_encoding::config::Config;
use an_encoding::memory::state::AnMemory;
use an_encoding::traps::Trap;
use an_encoding::wasm::Width;

const W32: Width = Width::W32;
const W64: Width = Width::W64;

fn boundary(an: bool, a: Option<u64>, fault: u64) -> Boundary {
    let mut config = Config::new();
    config.an_encoding = an;
    if let Some(a) = a {
        config.an_constant = a;
    }
    let codec = config.build().unwrap();
    Boundary { codec, an_encoding: an, an_inject_codeword_fault: fault }
}

// A guest function that hands its arguments to a host function and returns its result.
fn forward<F: Fn(&[u64]) -> u64>(
    b: &Boundary,
    w: Width,
    args: &[u64],
    host: F,
) -> Result<u64, Trap> {
    let widths = vec![w; args.len()];
    let inside = b.encode_values(&widths, &args.to_vec());
    let outside = b.decode_values(&widths, &inside)?;
    let result = b.encode_values(&vec![w], &vec![host(&outside)]);
    Ok(b.decode_values(&vec![w], &result)?[0])
}

// A guest function that adds one hundred to its argument.
fn plus_hundred(b: &Boundary, w: Width, arg: u64) -> Result<u64, Trap> {
    let x = b.encode_values(&vec![w], &vec![arg])[0];
    let y = b.codec.add(w, x, b.codec.encode(w, 100));
    Ok(b.decode_values(&vec![w], &vec![y])?[0])
}

fn u(v: i32) -> u64 {
    v as u32 as u64
}

#[test]
fn codeword_check_clean_wasm_to_host_args() {
    let b = boundary(true, None, 0);
    let run = |x: i32| forward(&b, W32, &[u(x)], |v| u(v[0] as u32 as i32 * 2));
    assert_eq!(run(21), Ok(u(42)));
    assert_eq!(run(-7), Ok(u(-14)));
    assert_eq!(run(0), Ok(0));
}

fn sum3(v: &[u64]) -> u64 {
    (v[0] as u32).wrapping_add(v[1] as u32).wrapping_add(v[2] as u32) as u64
}

#[test]
fn codeword_check_clean_wasm_to_host_multi_args() {
    let b = boundary(true, None, 0);
    assert_eq!(forward(&b, W32, &[1, 2, 3], sum3), Ok(6));
    assert_eq!(forward(&b, W32, &[u(i32::MAX), 1, 0], sum3), Ok(u(i32::MIN)));
}

#[test]
fn codeword_check_clean_wasm_to_host_i64_params() {
    let b = boundary(true, None, 0);
    let host = |v: &[u64]| v[0].wrapping_add(v[1]).wrapping_add(1);
    assert_eq!(forward(&b, W64, &[1, 40], host), Ok(42));
    assert_eq!(forward(&b, W64, &[-1i64 as u64, 1], host), Ok(1));
}

#[test]
fn codeword_check_clean_host_to_wasm_returns() {
    let b = boundary(true, None, 0);
    assert_eq!(plus_hundred(&b, W32, 5), Ok(105));
    assert_eq!(plus_hundred(&b, W32, u(-10)), Ok(90));
}

#[test]
fn codeword_check_clean_host_to_wasm_i64_returns() {
    let b = boundary(true, None, 0);
    assert_eq!(plus_hundred(&b, W64, 5), Ok(105));
    assert_eq!(plus_hundred(&b, W64, -10i64 as u64), Ok(90));
    assert_eq!(plus_hundred(&b, W64, i64::MAX as u64), Ok((i64::MIN + 99) as u64));
}

#[test]
fn codeword_check_clean_repeated_host_calls() {
    let b = boundary(true, None, 0);
    for i in 0..50 {
        assert_eq!(forward(&b, W32, &[i], |v| v[0] + 1), Ok(i + 1));
    }
}

#[test]
fn codeword_check_clean_various_an_constants() {
    for &a in &[1u64, 7, 1009, 65521, 16_777_215] {
        let b = boundary(true, Some(a), 0);
        let run = |x: i32| forward(&b, W32, &[u(x)], |v| u(v[0] as u32 as i32 * 3));
        assert_eq!(run(14), Ok(u(42)), "A={a}");
        assert_eq!(run(-1), Ok(u(-3)), "A={a}");
    }
}

#[test]
fn codeword_check_traps_wasm_to_host_args_with_injection() {
    let b = boundary(true, None, 1);
    assert_eq!(forward(&b, W32, &[5], |v| v[0]), Err(Trap::AnCodewordInvalid));
}

#[test]
fn codeword_check_traps_wasm_to_host_i64_args_with_injection() {
    let b = boundary(true, None, 1);
    assert_eq!(forward(&b, W64, &[5, 7], |v| v[0] + v[1]), Err(Trap::AnCodewordInvalid));
}

#[test]
fn codeword_check_traps_host_to_wasm_returns_with_injection() {
    let b = boundary(true, None, 1);
    assert_eq!(plus_hundred(&b, W32, 5), Err(Trap::AnCodewordInvalid));
}

#[test]
fn codeword_check_traps_host_to_wasm_i64_returns_with_injection() {
    let b = boundary(true, None, 1);
    assert_eq!(plus_hundred(&b, W64, 5), Err(Trap::AnCodewordInvalid));
}

#[test]
fn codeword_check_traps_various_an_constants() {
    for &a in &[7u64, 1009, 65521, 16_777_215] {
        let b = boundary(true, Some(a), 1);
        assert_eq!(forward(&b, W32, &[3], |v| v[0]), Err(Trap::AnCodewordInvalid));
    }
}

#[test]
fn codeword_check_no_trap_when_an_off() {
    let b = boundary(false, None, 1);
    assert_eq!(forward(&b, W32, &[10], |v| v[0] + 1), Ok(11));
}

#[test]
fn a_multiple_of_the_constant_passes_the_check() {
    let b = boundary(true, Some(7), 7);
    assert_eq!(b.decode_values(&vec![W32, W32], &vec![14, 21]), Ok(vec![3, 3]));
    assert_eq!(b.decode_values(&vec![W32, W32], &vec![14, 22]), Err(Trap::AnCodewordInvalid));
}

#[test]
fn component_i32_arg_passthrough_without_an() {
    let b = boundary(false, None, 0);
    assert_eq!(forward(&b, W32, &[21], |v| v[0] * 2), Ok(42));
}

#[test]
fn component_i32_arg_passthrough_with_an() {
    let b = boundary(true, None, 0);
    let run = |x: u64| forward(&b, W32, &[x], |v| (v[0] as u32).wrapping_mul(2) as u64);
    assert_eq!(run(21), Ok(42));
    assert_eq!(run(0), Ok(0));
    assert_eq!(run(123_456), Ok(246_912));
}

#[test]
fn component_i32_multi_arg_with_an() {
    let b = boundary(true, None, 0);
    assert_eq!(forward(&b, W32, &[1, 2, 3], sum3), Ok(6));
    assert_eq!(forward(&b, W32, &[10, 20, 30], sum3), Ok(60));
}

#[test]
fn component_i64_arg_passthrough_without_an() {
    let b = boundary(false, None, 0);
    assert_eq!(forward(&b, W64, &[35], |v| v[0].wrapping_add(7)), Ok(42));
}

#[test]
fn component_i64_arg_passthrough_with_an() {
    let b = boundary(true, None, 0);
    for &x in &[0, 1, -1, 21, -21, i64::MIN, i64::MAX] {
        assert_eq!(
            forward(&b, W64, &[x as u64], |v| v[0].wrapping_mul(2)),
            Ok(x.wrapping_mul(2) as u64)
        );
    }
}

#[test]
fn component_i32_various_an_constants() {
    for &a in &[1u64, 7, 1009, 65521, 16_777_215] {
        let b = boundary(true, Some(a), 0);
        assert_eq!(forward(&b, W32, &[35], |v| v[0] + 7), Ok(42), "A={a}");
    }
}

#[test]
fn component_i64_various_an_constants() {
    for &a in &[1u64, 7, 1009, 65521, 16_777_215] {
        let b = boundary(true, Some(a), 0);
        assert_eq!(forward(&b, W64, &[35], |v| v[0].wrapping_add(7)), Ok(42), "A={a}");
        assert_eq!(
            forward(&b, W64, &[-49i64 as u64], |v| v[0].wrapping_add(7)),
            Ok(-42i64 as u64),
            "A={a}"
        );
    }
}

#[test]
fn component_codeword_check_traps_with_injection() {
    let b = boundary(true, None, 1);
    assert_eq!(forward(&b, W32, &[5], |v| v[0]), Err(Trap::AnCodewordInvalid));
}

#[test]
fn component_i64_codeword_check_traps_with_injection() {
    let b = boundary(true, None, 1);
    assert_eq!(forward(&b, W64, &[5], |v| v[0]), Err(Trap::AnCodewordInvalid));
}

// A guest that makes a host call and returns zero.
#[test]
fn fault_inject_clean_run_passes() {
    let b = boundary(true, Some(65521), 0);
    let m = AnMemory::new(true, 65521, W32, 1, 1);
    assert_eq!(forward(&b, W32, &[], |_| 0), Ok(0));
    assert!(m.try_data().is_ok());
    assert_eq!(m.codec, Codec { a: 65521 });
}
