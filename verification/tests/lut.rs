//! The tables of the bitwise operations.
use an_encoding::lut::{generate, validate_a, AnLutError, BinOp, Table, TABLE_LEN};

fn entry(tab: &Table, c1: u32, c2: u32) -> i64 {
    tab[((c1 as usize) << 8) | c2 as usize]
}

#[test]
fn validate_rejects_zero_and_high() {
    assert_eq!(validate_a(0), Err(AnLutError::InvalidA(0)));
    assert_eq!(validate_a(1u64 << 31), Err(AnLutError::InvalidA(1u64 << 31)));
    assert_eq!(validate_a(1), Ok(()));
    assert_eq!(validate_a((1u64 << 31) - 1), Ok(()));
}

#[test]
fn and_entries_match_formula() {
    let a: u64 = 65521;
    let luts = generate(a).unwrap();
    for &(c1, c2) in &[(0u32, 0u32), (0xAB, 0xCD), (0xFF, 0xFF), (0x12, 0x80)] {
        assert_eq!(entry(&luts.and, c1, c2), (a as i64) * ((c1 & c2) as i64));
    }
}

#[test]
fn or_entries_match_formula() {
    let a: u64 = 1009;
    let luts = generate(a).unwrap();
    for &(c1, c2) in &[(0u32, 0u32), (0xAB, 0xCD), (0xFF, 0x00), (0x12, 0x80)] {
        assert_eq!(entry(&luts.or, c1, c2), (a as i64) * ((c1 | c2) as i64));
    }
}

#[test]
fn xor_entries_match_formula() {
    let a: u64 = 0x4FFF_FFFF;
    let luts = generate(a).unwrap();
    for &(c1, c2) in &[(0u32, 0u32), (0xAB, 0xCD), (0xFF, 0xFF), (0x12, 0x80)] {
        assert_eq!(entry(&luts.xor, c1, c2), (a as i64).wrapping_mul((c1 ^ c2) as i64));
    }
}

#[test]
fn full_roundtrip_decode() {
    let a: u64 = 65521;
    let luts = generate(a).unwrap();
    for c1 in 0u32..256 {
        for c2 in 0u32..256 {
            assert_eq!(entry(&luts.and, c1, c2) / (a as i64), (c1 & c2) as i64);
            assert_eq!(entry(&luts.or, c1, c2) / (a as i64), (c1 | c2) as i64);
            assert_eq!(entry(&luts.xor, c1, c2) / (a as i64), (c1 ^ c2) as i64);
        }
    }
}

#[test]
fn a_one_is_identity() {
    let luts = generate(1).unwrap();
    for c1 in 0u32..256 {
        for c2 in 0u32..256 {
            assert_eq!(entry(&luts.and, c1, c2), (c1 & c2) as i64);
            assert_eq!(entry(&luts.or, c1, c2), (c1 | c2) as i64);
            assert_eq!(entry(&luts.xor, c1, c2), (c1 ^ c2) as i64);
        }
    }
}

#[test]
fn no_tables_for_an_illegal_constant() {
    assert_eq!(generate(0).err(), Some(AnLutError::InvalidA(0)));
    assert_eq!(
        AnLutError::InvalidA(1 << 31).message(),
        "invalid AN constant 2147483648: require 1 <= A < 2^31"
    );
    assert_eq!(generate(u64::MAX).err(), Some(AnLutError::InvalidA(u64::MAX)));
    assert_eq!(generate(3).unwrap().and.len(), TABLE_LEN);
    assert_eq!(BinOp::Xor.apply(0xF0, 0x3C), 0xCC);
}
