//! Memories and their shadows: guest accesses, host accesses, and injected faults.
use an_encoding::boundary::AnGlobal;
use an_encoding::codec::Codec;
use an_encoding::dirty::ByteRange;
use an_encoding::memory::host::MemoryAccessError;
use an_encoding::memory::state::AnMemory;
use an_encoding::traps::Trap;
use an_encoding::wasm::Width;

const W32: Width = Width::W32;
const W64: Width = Width::W64;

fn memory(a: u64) -> AnMemory {
    AnMemory::new(true, a, W32, 1, 256)
}

fn encode(m: &AnMemory, n: u32) -> u128 {
    m.codec.encode(W32, n as u64)
}

fn store(m: &mut AnMemory, addr: u32, n: usize, v: u32) -> Result<(), Trap> {
    let (x, y) = (encode(m, addr), encode(m, v));
    m.store(W32, x, 0, n, y)
}

fn load(m: &AnMemory, addr: u32, n: usize) -> Result<u32, Trap> {
    let x = m.load(W32, encode(m, addr), 0, n, false)?;
    Ok(m.codec.decode(W32, x)? as u32)
}

fn fill(m: &mut AnMemory, dst: u32, value: u32, len: u32) -> Result<(), Trap> {
    let (d, v, n) = (encode(m, dst), encode(m, value), encode(m, len));
    m.fill(d, v, n)
}

fn copy(m: &mut AnMemory, dst: u32, src: u32, len: u32) -> Result<(), Trap> {
    let (d, s, n) = (encode(m, dst), encode(m, src), encode(m, len));
    m.copy(d, s, n)
}

fn init(m: &mut AnMemory, segment: &[u8], dst: u32, src: u32, len: u32) -> Result<(), Trap> {
    let (d, s, n) = (encode(m, dst), encode(m, src), encode(m, len));
    m.init(&segment.to_vec(), d, s, n)
}

fn grow(m: &mut AnMemory, delta: u32) -> i32 {
    let d = encode(m, delta);
    let x = m.grow(d).unwrap();
    m.codec.decode(W32, x).unwrap() as u32 as i32
}

// The host reads the slot at `offset` and finds that it does not match.
fn expect_host_read_mismatch(m: &AnMemory, offset: usize) {
    let err = m.read(offset, 4).expect_err("the read should fail");
    assert_eq!(err, MemoryAccessError::AnMismatch);
    let text = err.message();
    assert!(text.contains("AN-encoding") && text.to_lowercase().contains("mismatch"), "{text}");
}

#[test]
fn instantiate_data_segment_under_an() {
    let mut m = memory(65521);
    let expected = b"Hello, AN-encoding!";
    init(&mut m, expected, 0, 0, expected.len() as u32).unwrap();
    for (i, &want) in expected.iter().enumerate() {
        assert_eq!(load(&m, i as u32, 1), Ok(want as u32), "data segment byte {i}");
    }
}

fn address_codeword_check(index: Width) {
    const A: u64 = 7;
    let mut m = AnMemory::new(true, A, index, 1, 1);
    let mut addr = AnGlobal::new(m.codec, index, 8);
    let v = encode(&m, 0x1122_3344);
    m.store(W32, addr.guest_get(), 0, 4, v).unwrap();
    let x = m.load(W32, addr.guest_get(), 0, 4, false).unwrap();
    assert_eq!(m.codec.decode(W32, x), Ok(0x1122_3344));
    addr.slot = (A * 8 + 1) as u128;
    assert_eq!(m.load(W32, addr.guest_get(), 0, 4, false), Err(Trap::AnCodewordInvalid));
}

#[test]
fn memory32_address_codeword_check_traps() {
    address_codeword_check(W32);
}

#[test]
fn memory64_address_codeword_check_traps() {
    address_codeword_check(W64);
}

#[test]
fn memory64_with_an_is_allowed_and_encoded() {
    let mut m = AnMemory::new(true, 65521, W64, 1, 1);
    let c = m.codec;
    for (addr, value) in
        [(0u64, 0x1122_3344u64), (1, 0x5566_7788), (3, 0x99aa_bbcc), (13, 0xddee_ff00)]
    {
        let (x, y) = (c.encode(W64, addr), c.encode(W32, value));
        m.store(W32, x, 0, 4, y).unwrap();
        let z = m.load(W32, x, 0, 4, false).unwrap();
        assert_eq!(c.decode(W32, z), Ok(value), "i32 at {addr}");
    }
    for (addr, value) in [
        (32u64, 0x0123_4567_89ab_cdefu64),
        (33, -1i64 as u64),
        (39, i64::MIN as u64),
        (64, i64::MAX as u64),
    ] {
        let (x, y) = (c.encode(W64, addr), c.encode(W64, value));
        m.store(W64, x, 0, 8, y).unwrap();
        let z = m.load(W64, x, 0, 8, false).unwrap();
        assert_eq!(c.decode(W64, z), Ok(value), "i64 at {addr}");
    }
}

#[test]
fn fault_inject_flip_in_raw_traps() {
    let mut m = memory(65521);
    m.raw[3] ^= 0x80;
    expect_host_read_mismatch(&m, 0);
}

#[test]
fn fault_inject_flip_in_shadow_traps() {
    let mut m = memory(65521);
    m.shadow[1] ^= 0x01;
    expect_host_read_mismatch(&m, 4);
}

#[test]
fn subword_store_checks_old_shadow_codeword() {
    let mut m = memory(7);
    m.shadow[0] = 1;
    assert_eq!(store(&mut m, 1, 1, 0x12), Err(Trap::AnCodewordInvalid));
}

#[test]
#[should_panic(expected = "AnMemoryMismatch")]
fn data_mut_whole_verify_detects_pre_existing_corruption() {
    let mut m = memory(65521);
    m.raw[3] ^= 0x80;
    m.try_data_mut().unwrap();
}

#[test]
fn try_data_traps_on_tamper() {
    let mut m = memory(65521);
    m.raw[3] ^= 0x80;
    assert_eq!(m.try_data().err(), Some(Trap::AnMemoryMismatch));
}

#[test]
fn try_data_mut_traps_on_tamper() {
    let mut m = memory(65521);
    m.raw[3] ^= 0x80;
    assert_eq!(m.try_data_mut().err(), Some(Trap::AnMemoryMismatch));
    assert!(!m.whole_dirty);
}

#[test]
fn try_data_clean_passes() {
    let mut m = memory(65521);
    assert_eq!(m.try_data().unwrap()[0], 0);
    assert_eq!(m.try_data_mut().unwrap()[0], 0);
}

#[test]
fn c_api_trap_header_has_an_trap_codes() {
    assert_eq!(Trap::AnMemoryMismatch.code(), Some(48));
    assert_eq!(Trap::AnCodewordInvalid.code(), Some(49));
    assert_eq!(Trap::AnI64WidenOverflow.code(), Some(50));
}

#[test]
fn fault_inject_various_an_constants() {
    for &a in &[1u64, 7, 1009, 65521, 16_777_215] {
        let mut m = memory(a);
        m.raw[16] = 0x55;
        expect_host_read_mismatch(&m, 16);
    }
}

#[test]
fn grow_does_not_resync_shadow_from_raw() {
    let mut m = memory(65521);
    m.raw[3] ^= 0x80;
    grow(&mut m, 1);
    expect_host_read_mismatch(&m, 0);
}

#[test]
fn grow_preserves_shadow_across_repeated_grows() {
    let mut m = memory(65521);
    let sentinel = 0x1234_5678;
    store(&mut m, 65532, 4, sentinel).unwrap();
    load(&m, 65532, 4).unwrap();
    for delta in [1, 7, 64] {
        let prev_pages = grow(&mut m, delta);
        assert!(prev_pages > 0, "grow({delta}) should succeed");
        assert_eq!(load(&m, 65532, 4), Ok(sentinel), "sentinel lost after grow({delta})");
    }
}

#[test]
fn grow_past_the_limit_fails() {
    let mut m = AnMemory::new(true, 65521, W32, 1, 2);
    assert_eq!(grow(&mut m, 2), -1);
    assert_eq!(m.raw.len(), 65_536);
    assert_eq!(grow(&mut m, 1), 1);
    assert_eq!(m.codec.decode(W32, m.size()), Ok(2));
}

#[test]
fn unaligned_i32_store_every_offset() {
    let mut m = memory(65521);
    let value: u32 = 0x12_34_56_78;
    for a in 16u32..24 {
        store(&mut m, a, 4, value).unwrap();
        for i in 0..4 {
            assert_eq!(load(&m, a + i, 1), Ok((value >> (8 * i)) & 0xff), "addr {a} byte {i}");
        }
    }
}

#[test]
fn cross_slot_i32_store16_every_offset() {
    let mut m = memory(65521);
    let value: u32 = 0xab_cd;
    for a in 16u32..24 {
        store(&mut m, a, 2, value).unwrap();
        for i in 0..2 {
            assert_eq!(load(&m, a + i, 1), Ok((value >> (8 * i)) & 0xff), "addr {a} byte {i}");
        }
    }
}

#[test]
fn unaligned_store_then_aligned_store_same_slot() {
    let mut m = memory(65521);
    store(&mut m, 17, 4, 0xAAAA_BBBB).unwrap();
    store(&mut m, 16, 4, 0x1122_3344).unwrap();
    assert_eq!(load(&m, 16, 4), Ok(0x1122_3344));
    assert_eq!(load(&m, 20, 4), Ok(0x0000_00AA));
}

#[test]
fn bulk_memory_fill_keeps_shadow_consistent() {
    let mut m = memory(65521);
    fill(&mut m, 16, 0xAB, 16).unwrap();
    for i in 16..32 {
        assert_eq!(load(&m, i, 1), Ok(0xAB), "fill1 byte {i}");
    }
    fill(&mut m, 19, 0xCD, 10).unwrap();
    for i in 16..19 {
        assert_eq!(load(&m, i, 1), Ok(0xAB), "fill2 untouched {i}");
    }
    for i in 19..29 {
        assert_eq!(load(&m, i, 1), Ok(0xCD), "fill2 byte {i}");
    }
    for i in 29..32 {
        assert_eq!(load(&m, i, 1), Ok(0xAB), "fill2 untouched {i}");
    }
}

#[test]
fn bulk_memory_copy_keeps_shadow_consistent() {
    let mut m = memory(65521);
    fill(&mut m, 16, 0x11, 8).unwrap();
    copy(&mut m, 64, 16, 8).unwrap();
    for i in 0..8 {
        assert_eq!(load(&m, 64 + i, 1), Ok(0x11), "copy byte {i}");
    }

    fill(&mut m, 100, 0x22, 4).unwrap();
    fill(&mut m, 104, 0x33, 4).unwrap();
    copy(&mut m, 102, 100, 8).unwrap();
    let expected = [0x22, 0x22, 0x22, 0x22, 0x22, 0x22, 0x33, 0x33, 0x33, 0x33];
    for (i, &want) in expected.iter().enumerate() {
        assert_eq!(load(&m, 100 + i as u32, 1), Ok(want), "overlap byte {i}");
    }
}

#[test]
fn memory_copy_source_tamper_traps() {
    let mut m = memory(65521);
    fill(&mut m, 16, 0x11, 8).unwrap();
    m.raw[18] ^= 0x40;
    assert_eq!(copy(&mut m, 64, 16, 8), Err(Trap::AnMemoryMismatch));
}

#[test]
fn active_data_segment_keeps_shadow_consistent() {
    let mut m = memory(65521);
    let expected = b"DATAseg";
    init(&mut m, expected, 200, 0, expected.len() as u32).unwrap();
    for (i, &want) in expected.iter().enumerate() {
        assert_eq!(load(&m, 200 + i as u32, 1), Ok(want as u32), "segment byte {i}");
    }
}

#[test]
fn passive_memory_init_keeps_shadow_consistent() {
    let mut m = memory(65521);
    let expected = b"ASSIVE";
    for &dst in &[8u32, 5, 13] {
        init(&mut m, b"PASSIVE", dst, 1, expected.len() as u32).unwrap();
        for (i, &want) in expected.iter().enumerate() {
            assert_eq!(load(&m, dst + i as u32, 1), Ok(want as u32), "dst={dst} byte {i}");
        }
    }
}

#[test]
fn bulk_operations_stay_within_bounds() {
    let mut m = memory(65521);
    assert_eq!(fill(&mut m, 65_530, 1, 7), Err(Trap::MemoryOutOfBounds));
    assert_eq!(copy(&mut m, 0, 65_530, 7), Err(Trap::MemoryOutOfBounds));
    assert_eq!(init(&mut m, b"abc", 0, 1, 3), Err(Trap::MemoryOutOfBounds));
    assert_eq!(m.raw, vec![0u8; 65_536]);
    assert_eq!(m.fill(1, 0, 0), Err(Trap::AnCodewordInvalid));
}

#[test]
fn bulk_memory_grow_keeps_shadow_consistent() {
    let mut m = memory(65521);
    store(&mut m, 1024, 1, 0x77).unwrap();
    assert_eq!(load(&m, 1024, 1), Ok(0x77));
    assert_eq!(grow(&mut m, 1), 1);
    assert_eq!(m.codec.decode(W32, m.size()), Ok(2));
    assert_eq!(load(&m, 1024, 1), Ok(0x77));
    assert_eq!(load(&m, 65_536 + 100, 1), Ok(0));
    store(&mut m, 65_536 + 100, 1, 0x99).unwrap();
    assert_eq!(load(&m, 65_536 + 100, 1), Ok(0x99));
}

#[test]
fn bulk_memory_with_various_an_constants() {
    for &a in &[1u64, 7, 1009, 65521, 16_777_215] {
        let mut m = memory(a);
        fill(&mut m, 5, 0xEF, 13).unwrap();
        for i in 5..18 {
            assert_eq!(load(&m, i, 1), Ok(0xEF), "A={a} byte {i}");
        }
    }
}

#[test]
fn multi_memory_stores_keep_shadows_consistent() {
    let (mut m0, mut m1) = (memory(65521), memory(65521));
    store(&mut m0, 8, 4, 0x1111_2222).unwrap();
    store(&mut m1, 8, 4, 0x3333_4444).unwrap();
    store(&mut m0, 16, 4, 0x5555_6666).unwrap();
    store(&mut m1, 16, 4, 0x7777_8888).unwrap();
    assert_eq!(load(&m0, 8, 4), Ok(0x1111_2222));
    assert_eq!(load(&m1, 8, 4), Ok(0x3333_4444));
    assert_eq!(load(&m0, 16, 4), Ok(0x5555_6666));
    assert_eq!(load(&m1, 16, 4), Ok(0x7777_8888));
}

#[test]
fn multi_memory_tamper_mem0_traps() {
    let (mut m0, m1) = (memory(65521), memory(65521));
    m0.raw[3] ^= 0x80;
    expect_host_read_mismatch(&m0, 0);
    assert!(m1.read(0, 4).is_ok());
}

#[test]
fn multi_memory_tamper_mem1_traps() {
    let (m0, mut m1) = (memory(65521), memory(65521));
    m1.raw[7] = 0x42;
    expect_host_read_mismatch(&m1, 4);
    assert!(m0.read(4, 4).is_ok());
}

#[test]
fn data_mut_between_calls_resynced_before_guest_load() {
    let mut m = memory(65521);
    m.try_data_mut().unwrap()[8..12].copy_from_slice(&0x42u32.to_le_bytes());
    m.heal();
    assert_eq!(load(&m, 8, 4), Ok(0x42));
}

#[test]
fn load_validity_check_clean_run_passes() {
    let mut m = memory(65521);
    store(&mut m, 8, 4, 0x12345678).unwrap();
    assert_eq!(load(&m, 8, 4), Ok(0x12345678));
    load(&m, 12, 4).unwrap();
}

#[test]
fn aligned_i32_load_uses_shadow_as_source_of_truth() {
    let mut m = memory(65521);
    m.raw[11] = 0x80;
    assert_eq!(load(&m, 8, 4), Ok(0));
    expect_host_read_mismatch(&m, 8);
}

#[test]
fn aligned_i32_load_traps_on_invalid_shadow_codeword() {
    let mut m = memory(65521);
    m.shadow[2] ^= 1;
    assert_eq!(load(&m, 8, 4), Err(Trap::AnCodewordInvalid));
}

#[test]
fn aligned_i32_load_checks_exact_bounds_before_shadow() {
    let m = memory(65521);
    assert_eq!(load(&m, 65_532, 4), Ok(0));
    assert_eq!(load(&m, 65_536, 4), Err(Trap::MemoryOutOfBounds));
}

#[test]
fn load_validity_check_traps_on_load8u() {
    let mut m = memory(65521);
    m.raw[10] ^= 0x55;
    assert_eq!(load(&m, 8, 1), Err(Trap::AnMemoryMismatch));
}

#[test]
fn load_validity_check_traps_on_load16u_cross_slot() {
    let mut m = memory(65521);
    m.raw[4] = 0xCD;
    assert_eq!(load(&m, 3, 2), Err(Trap::AnMemoryMismatch));
}

#[test]
fn load_validity_check_traps_unaligned_i32_load() {
    let mut m = memory(65521);
    m.raw[5] ^= 0x80;
    assert_eq!(load(&m, 1, 4), Err(Trap::AnMemoryMismatch));
}

#[test]
fn aligned_shadow_load_various_an_constants() {
    for &a in &[1u64, 2, 6, 7, 1000, 1009, 65521, 16_777_215] {
        let mut m = memory(a);
        store(&mut m, 8, 4, 0x1234_5678).unwrap();
        assert_eq!(load(&m, 8, 4), Ok(0x1234_5678), "A={a}");
    }
}

#[test]
fn aligned_shadow_load_rejects_invalid_even_an_constants() {
    for &a in &[2u64, 6, 1000] {
        let mut m = memory(a);
        m.shadow[2] ^= 1;
        assert_eq!(load(&m, 8, 4), Err(Trap::AnCodewordInvalid), "A={a}");
    }
}

#[test]
fn shadow_tamper_during_hostcall_detected_on_read() {
    let mut m = memory(65521);
    m.shadow[1] ^= 0x01;
    m.heal();
    expect_host_read_mismatch(&m, 4);
}

#[test]
fn memory_write_does_not_heal_unrelated_tamper() {
    let mut m = memory(65521);
    m.shadow[128] ^= 0x01;
    m.write(64, &vec![0xAA, 0xBB, 0xCC, 0xDD]).unwrap();
    m.heal();
    expect_host_read_mismatch(&m, 512);
}

#[test]
fn memory_write_during_hostcall_resyncs_written_range() {
    let mut m = memory(65521);
    m.write(256, &0xDEAD_BEEFu32.to_le_bytes().to_vec()).unwrap();
    assert_eq!(load(&m, 256, 4), Ok(0xDEAD_BEEF));
}

#[test]
fn unaligned_memory_write_resyncs_boundary_slots() {
    let mut m = memory(65521);
    m.write(65, &vec![1, 2, 3, 4, 5, 6, 7]).unwrap();
    assert_eq!(load(&m, 64, 4), Ok(0x0302_0100));
    assert_eq!(load(&m, 68, 4), Ok(0x0706_0504));
}

#[test]
fn multi_range_resync_preserves_untouched_byte_check() {
    let mut m = memory(65521);
    m.raw[64] = 0xAA;
    m.raw[65] = 0xBB;
    m.raw[66] = 0xCC;
    m.raw[67] = 0xDD;
    let ranges = vec![ByteRange { start: 64, end: 65 }, ByteRange { start: 66, end: 68 }];
    assert!(!m.resync_ranges(&ranges));
    assert_eq!(m.shadow[16], 0);
}

#[test]
fn memory_write_outside_hostcall_does_not_trap() {
    let mut m = memory(65521);
    m.write(128, &0x1122_3344u32.to_le_bytes().to_vec()).unwrap();
    m.heal();
    assert_eq!(load(&m, 128, 4), Ok(0x1122_3344));
}

#[test]
fn data_mut_during_hostcall_resyncs_whole_memory() {
    let mut m = memory(65521);
    m.try_data_mut().unwrap()[304..308].copy_from_slice(&[9, 8, 7, 6]);
    m.heal();
    assert_eq!(load(&m, 304, 4), Ok(0x0607_0809));
}

#[test]
fn data_mut_does_not_heal_other_memory_tamper() {
    let (mut m0, mut m1) = (memory(65521), memory(65521));
    m0.try_data_mut().unwrap()[40] = 0x42;
    m1.shadow[2] ^= 0x01;
    m0.heal();
    m1.heal();
    expect_host_read_mismatch(&m1, 8);
}

#[test]
fn dirty_resync_various_an_constants() {
    for &a in &[1u64, 7, 1009, 65521, 16_777_215] {
        let mut m = memory(a);
        m.shadow[1] ^= 0x01;
        m.heal();
        expect_host_read_mismatch(&m, 4);

        let mut m = memory(a);
        m.write(256, &0xDEAD_BEEFu32.to_le_bytes().to_vec()).unwrap();
        m.heal();
        assert_eq!(load(&m, 256, 4), Ok(0xDEAD_BEEF), "A={a}");
    }
}

#[test]
fn grow_then_store_same_function_reloads_shadow_base() {
    let mut m = AnMemory::new(true, 65521, W32, 1, 32);
    store(&mut m, 8, 4, 0x01020304).unwrap();
    grow(&mut m, 1);
    store(&mut m, 16, 4, 0x0A0B0C0D).unwrap();
    assert_eq!(load(&m, 16, 4), Ok(0x0A0B_0C0D));
    for _ in 0..8 {
        grow(&mut m, 1);
        store(&mut m, 16, 4, 0x11223344).unwrap();
    }
    assert_eq!(load(&m, 16, 4), Ok(0x1122_3344));
}

#[test]
fn host_memory_grow_keeps_shadow() {
    let mut m = memory(65521);
    assert_eq!(m.grow_pages(3), Some(1));
    store(&mut m, 70_000, 4, 0x5566_7788).unwrap();
    assert_eq!(load(&m, 70_000, 4), Ok(0x5566_7788));
}

#[test]
fn data_mut_outside_hostcall_does_not_trap() {
    let mut m = memory(65521);
    m.try_data_mut().unwrap()[40] = 7;
    m.heal();
    assert_eq!(load(&m, 40, 4).unwrap() & 0xff, 7);
}

#[test]
fn memory64_mixed_copy_len_decodes() {
    let mut m32 = memory(65521);
    let mut m64 = AnMemory::new(true, 65521, W64, 1, 1);
    let c = m32.codec;
    store(&mut m32, 0, 4, 0xAABB_CCDD).unwrap();
    m64.copy_from(&m32, c.encode(W64, 8), c.encode(W32, 0), c.encode(W32, 4)).unwrap();
    let x = m64.load(W32, c.encode(W64, 8), 0, 4, false).unwrap();
    assert_eq!(c.decode(W32, x), Ok(0xAABB_CCDD));
}

#[test]
fn imported_memory_stores_mirror_owner_shadow() {
    let mut m = memory(65521);
    store(&mut m, 8, 4, 0x1234_5678).unwrap();
    store(&mut m, 13, 4, 0x0102_0304).unwrap();
    assert_eq!(load(&m, 8, 4), Ok(0x1234_5678));
    assert_eq!(load(&m, 13, 4), Ok(0x0102_0304));
    let bytes = m.read(8, 4).unwrap();
    assert_eq!(bytes, 0x1234_5678u32.to_le_bytes().to_vec());
}

#[test]
fn imported_memory_tamper_raw_traps() {
    let mut m = memory(65521);
    m.raw[3] ^= 0x80;
    expect_host_read_mismatch(&m, 0);
}

#[test]
fn imported_memory_tamper_shadow_traps() {
    let mut m = memory(65521);
    m.shadow[1] ^= 0x01;
    expect_host_read_mismatch(&m, 4);
}

#[test]
fn imported_memory_bulk_ops_keep_shadow() {
    let mut m = memory(65521);
    fill(&mut m, 64, 0xAB, 10).unwrap();
    assert_eq!(load(&m, 64, 4), Ok(0xABAB_ABAB));
    store(&mut m, 128, 4, 0x0BAD_F00D).unwrap();
    copy(&mut m, 200, 128, 4).unwrap();
    assert_eq!(load(&m, 200, 4), Ok(0x0BAD_F00D));
}

#[test]
fn imported_memory_grow_through_importer() {
    let mut m = AnMemory::new(true, 65521, W32, 1, 16);
    store(&mut m, 16, 4, 0x5151_6262).unwrap();
    assert_eq!(grow(&mut m, 1), 1);
    store(&mut m, 65_536 + 16, 4, 0x7373_8484).unwrap();
    assert_eq!(load(&m, 16, 4), Ok(0x5151_6262));
    assert_eq!(load(&m, 65_536 + 16, 4), Ok(0x7373_8484));
}

#[test]
fn imported_memory_various_an_constants() {
    for &a in &[1u64, 7, 1009, 65521, 16_777_215] {
        let mut m = memory(a);
        store(&mut m, 8, 4, 0x1234_5678).unwrap();
        assert_eq!(load(&m, 8, 4), Ok(0x1234_5678), "A={a}");
        if a > 1 {
            m.raw[3] ^= 0x80;
            expect_host_read_mismatch(&m, 0);
        }
    }
}

#[test]
fn host_created_memory_imported_under_an() {
    let mut m = AnMemory::new(true, 65521, W32, 1, 16);
    store(&mut m, 8, 4, 0x0BAD_F00D).unwrap();
    assert_eq!(load(&m, 8, 4), Ok(0x0BAD_F00D));
    m.write(32, &vec![1, 2, 3, 4]).unwrap();
    assert_eq!(load(&m, 32, 4), Ok(u32::from_le_bytes([1, 2, 3, 4])));
    m.try_data_mut().unwrap()[48] = 9;
    m.heal();
    assert_eq!(load(&m, 48, 4).unwrap() & 0xff, 9);
}

#[test]
fn host_accesses_stay_within_bounds() {
    let mut m = memory(65521);
    assert_eq!(m.read(65_533, 4), Err(MemoryAccessError::OutOfBounds));
    assert_eq!(m.write(65_533, &vec![0; 4]), Err(MemoryAccessError::OutOfBounds));
    assert!(MemoryAccessError::OutOfBounds.message().contains("out of bounds"));
}

// Writing over a part of a slot whose other bytes were tampered with is refused, and nothing is
// laundered into the shadow.
#[test]
fn host_write_beside_a_fault_is_refused() {
    let mut m = memory(65521);
    m.raw[65] = 1;
    assert_eq!(m.write(64, &vec![7]), Err(MemoryAccessError::AnMismatch));
    assert_eq!(m.shadow[16], 0);
}

#[test]
fn slots_hold_the_encoded_word() {
    let mut m = memory(1009);
    store(&mut m, 4, 4, 0x0102_0304).unwrap();
    assert_eq!(m.shadow[1], 1009 * 0x0102_0304);
    store(&mut m, 6, 1, 0xff).unwrap();
    assert_eq!(m.shadow[1], 1009 * 0x01ff_0304);
}

#[test]
fn without_encoding_there_is_no_shadow() {
    let mut m = AnMemory::new(false, 65521, W32, 1, 1);
    assert_eq!(m.codec, Codec { a: 1 });
    assert!(m.shadow.is_empty());
    store(&mut m, 5, 4, 77).unwrap();
    m.raw[5] = 78;
    assert_eq!(load(&m, 5, 4), Ok(78));
}

// Every flip of a bit of the bytes or of their slot is found by a load of any of the bytes.
#[test]
fn every_flip_beside_a_load_is_found() {
    let mut m = memory(65521);
    store(&mut m, 8, 4, 0x0102_0304).unwrap();
    for k in 0..64 {
        m.shadow[2] ^= 1 << k;
        assert!(load(&m, 9, 1).is_err());
        m.shadow[2] ^= 1 << k;
    }
    for k in 0..32 {
        m.raw[8 + k / 8] ^= 1 << (k % 8);
        assert_eq!(load(&m, 10, 1), Err(Trap::AnMemoryMismatch));
        m.raw[8 + k / 8] ^= 1 << (k % 8);
    }
    assert_eq!(load(&m, 8, 4), Ok(0x0102_0304));
}

// Growth neither sets nor clears the mark of a memory that the host has borrowed, so that a fault
// from before is still found.
#[test]
fn growth_keeps_the_mark() {
    let mut m = memory(65521);
    m.raw[64] ^= 1;
    let delta = encode(&m, 1);
    assert_eq!(m.grow(delta), Ok(encode(&m, 1)));
    assert!(!m.whole_dirty);
    m.heal();
    assert_eq!(m.read(64, 1), Err(MemoryAccessError::AnMismatch));
    let mut m = memory(65521);
    m.try_data_mut().unwrap()[64] = 1;
    let delta = encode(&m, 1);
    assert_eq!(m.grow(delta), Ok(encode(&m, 1)));
    assert!(m.whole_dirty);
}
