//! Views of guest memory for host calls.
use an_encoding::dirty::{ByteRange, DirtyRanges};
use an_encoding::guest_memory::{GuestError, GuestMemory};
use an_encoding::hostcall::{
    begin_hostcall, end_hostcall, view_kind, HostcallError, MemoryExport, ViewKind,
};
use an_encoding::memory::state::AnMemory;
use an_encoding::wasm::Width;

const A: u64 = 65521;

fn ranges(v: &[(usize, usize)]) -> Vec<ByteRange> {
    v.iter().map(|&(start, end)| ByteRange { start, end }).collect()
}

#[test]
fn records_typed_writes() {
    let mut mem = GuestMemory::unshared_an_tracked(vec![0u8; 4096]);
    mem.write(64, 0xAABB_CCDD, 4).unwrap();
    mem.write(100, 7, 1).unwrap();
    assert_eq!(mem.an_take_dirty(), ranges(&[(64, 68), (100, 101)]));
    assert!(mem.an_take_dirty().is_empty());
    assert_eq!(mem.bytes[64..68], [0xDD, 0xCC, 0xBB, 0xAA]);
}

#[test]
fn float_and_pointer_writes_delegate_to_integer_writes() {
    let mut mem = GuestMemory::unshared_an_tracked(vec![0u8; 4096]);
    mem.write(8, 1.5f64.to_bits(), 8).unwrap();
    mem.write(32, 7, 4).unwrap();
    assert_eq!(mem.an_take_dirty(), ranges(&[(8, 16), (32, 36)]));
}

#[test]
fn coalesces_adjacent_writes() {
    let mut mem = GuestMemory::unshared_an_tracked(vec![0u8; 4096]);
    mem.write(64, 1, 4).unwrap();
    mem.write(68, 2, 4).unwrap();
    mem.write(72, 3, 4).unwrap();
    assert_eq!(mem.an_take_dirty(), ranges(&[(64, 76)]));
}

#[test]
fn records_as_slice_mut_and_copy_from_slice() {
    let mut mem = GuestMemory::unshared_an_tracked(vec![0u8; 4096]);
    mem.as_slice_mut(200, 16).unwrap()[15] = 9;
    mem.copy_from_slice(&vec![1, 2, 3], 300).unwrap();
    assert_eq!(mem.an_take_dirty(), ranges(&[(200, 216), (300, 303)]));
    assert_eq!(mem.bytes[300..303], [1, 2, 3]);
    assert_eq!(mem.bytes[215], 9);
}

#[test]
fn untracked_view_records_nothing() {
    let mut mem = GuestMemory::unshared(vec![0u8; 4096]);
    mem.write(64, 1, 4).unwrap();
    mem.as_slice_mut(200, 16).unwrap();
    assert!(mem.an_take_dirty().is_empty());
}

#[test]
fn collapses_to_bounding_range_on_overflow() {
    let mut mem = GuestMemory::unshared_an_tracked(vec![0u8; 4096]);
    for i in 0..129u32 {
        mem.write(i * 2, 1, 1).unwrap();
    }
    let dirty = mem.an_take_dirty();
    assert_eq!(dirty.len(), 1);
    assert_eq!(dirty[0], ByteRange { start: 0, end: 257 });
}

#[test]
fn failed_write_records_nothing() {
    let mut mem = GuestMemory::unshared_an_tracked(vec![0u8; 64]);
    assert!(mem.write(62, 1, 4).is_err());
    assert!(mem.an_take_dirty().is_empty());
}

// The shadow of some bytes, eight bytes for every four.
fn encode(raw: &[u8], a: u64) -> Vec<u8> {
    let mut shadow = vec![0u8; raw.len() * 2];
    for (i, chunk) in raw.chunks_exact(4).enumerate() {
        let word = u32::from_le_bytes(chunk.try_into().unwrap());
        let enc = a.wrapping_mul(u64::from(word));
        shadow[i * 8..i * 8 + 8].copy_from_slice(&enc.to_le_bytes());
    }
    shadow
}

#[test]
fn clean_typed_read_passes() {
    let mut raw = vec![0u8; 64];
    raw[16..20].copy_from_slice(&7u32.to_le_bytes());
    let shadow = encode(&raw, A);
    let mem = GuestMemory::unshared_an_verified(raw, shadow, A);
    assert_eq!(mem.read(16, 4), Ok(7));
}

#[test]
fn tampered_typed_read_traps() {
    let mut raw = vec![0u8; 64];
    raw[16..20].copy_from_slice(&7u32.to_le_bytes());
    let shadow = encode(&raw, A);
    raw[16] = 0xFF;
    let mem = GuestMemory::unshared_an_verified(raw, shadow, A);
    assert_eq!(mem.read(16, 4), Err(GuestError::AnMemoryMismatch));
}

#[test]
fn tampered_slice_read_traps() {
    let mut raw = vec![0u8; 64];
    raw[32..36].copy_from_slice(&0xABCD_1234u32.to_le_bytes());
    let shadow = encode(&raw, A);
    raw[34] = 0x00;
    let mem = GuestMemory::unshared_an_verified(raw, shadow, A);
    assert_eq!(mem.as_slice(32, 4).err(), Some(GuestError::AnMemoryMismatch));
}

#[test]
fn tampered_to_vec_read_traps() {
    let mut raw = vec![0u8; 64];
    raw[40..44].copy_from_slice(&0x1111_2222u32.to_le_bytes());
    let shadow = encode(&raw, A);
    raw[41] = 0x99;
    let mem = GuestMemory::unshared_an_verified(raw, shadow, A);
    assert_eq!(mem.to_vec(40, 4).err(), Some(GuestError::AnMemoryMismatch));
}

#[test]
fn host_written_slot_is_skipped() {
    let mut raw = vec![0u8; 64];
    raw[16..20].copy_from_slice(&7u32.to_le_bytes());
    let shadow = encode(&raw, A);
    let mut mem = GuestMemory::unshared_an_verified(raw, shadow, A);
    mem.write(16, 0xDEAD_BEEF, 4).unwrap();
    assert_eq!(mem.read(16, 4), Ok(0xDEAD_BEEF));
}

#[test]
fn tracked_only_view_does_not_verify() {
    let mut raw = vec![0u8; 64];
    raw[16..20].copy_from_slice(&7u32.to_le_bytes());
    raw[16] = 0xFF;
    let mem = GuestMemory::unshared_an_tracked(raw);
    assert_eq!(mem.read(16, 4), Ok(0xFF));
}

#[test]
fn reads_stay_within_bounds() {
    let mem = GuestMemory::unshared(vec![0u8; 64]);
    assert_eq!(mem.read(62, 4), Err(GuestError::PtrOutOfBounds));
    assert_eq!(mem.as_slice(u32::MAX, 2).err(), Some(GuestError::PtrOutOfBounds));
    assert_eq!(mem.to_vec(64, 0), Ok(vec![]));
}

#[test]
fn recorded_ranges_cover_what_was_written() {
    let mut d = DirtyRanges::new();
    assert!(d.is_empty());
    d.record(10, 0);
    assert!(d.is_empty());
    d.record(10, 4);
    d.record(12, 8);
    d.record(40, 1);
    d.record(usize::MAX - 1, 5);
    let taken = d.take();
    for x in [10, 13, 14, 19, 40, usize::MAX - 1] {
        assert!(taken.iter().any(|r| r.start <= x && x < r.end), "{x}");
    }
    assert!(d.is_empty());
}

// Two fields of one slot with a padding byte between them are written by the host: the slot is
// taken as a whole.
#[test]
fn wasi_fdstat_disjoint_same_slot_writes_resync() {
    let mut m = AnMemory::new(true, A, Width::W32, 1, 1);
    m.write(64, &vec![0xFF; 24]).unwrap();
    let mut view = begin_hostcall(&mut m);
    view.write(64, 2, 1).unwrap();
    view.write(66, 0, 2).unwrap();
    view.write(72, 0x1234_5678, 8).unwrap();
    view.write(80, 0, 8).unwrap();
    assert_eq!(end_hostcall(&mut m, view), Ok(()));
    assert_eq!(m.read(64, 4), Ok(vec![2, 0xFF, 0, 0]));
    assert_eq!(m.shadow[16], A * 0x0000_FF02);
}

#[test]
fn a_fault_beside_a_host_write_fails_the_call() {
    let mut m = AnMemory::new(true, A, Width::W32, 1, 1);
    let mut view = begin_hostcall(&mut m);
    view.bytes[65] = 0xEE;
    view.write(64, 2, 1).unwrap();
    assert_eq!(end_hostcall(&mut m, view), Err(HostcallError::AnMismatch));
    assert_eq!(m.shadow[16], 0);
    assert!(HostcallError::AnMismatch.message().contains("AN-encoding memory mismatch"));
}

#[test]
fn a_call_reads_through_the_shadow() {
    let mut m = AnMemory::new(true, A, Width::W32, 1, 1);
    m.write(16, &vec![7, 0, 0, 0]).unwrap();
    m.raw[20] = 1;
    let view = begin_hostcall(&mut m);
    assert_eq!(view.read(16, 4), Ok(7));
    assert_eq!(view.read(20, 4), Err(GuestError::AnMemoryMismatch));
    assert_eq!(end_hostcall(&mut m, view), Ok(()));
}

#[test]
fn a_call_without_encoding_is_plain() {
    let mut m = AnMemory::new(false, A, Width::W32, 1, 1);
    let mut view = begin_hostcall(&mut m);
    view.write(4, 9, 4).unwrap();
    assert!(view.an_take_dirty().is_empty());
    assert_eq!(end_hostcall(&mut m, view), Ok(()));
    assert_eq!(m.raw[4], 9);
}

#[test]
fn the_view_follows_the_export() {
    assert_eq!(view_kind(MemoryExport::Memory { shadow: true }), Ok(ViewKind::Verified));
    assert_eq!(view_kind(MemoryExport::Memory { shadow: false }), Ok(ViewKind::Unshared));
    assert_eq!(view_kind(MemoryExport::SharedMemory), Ok(ViewKind::Shared));
    assert_eq!(view_kind(MemoryExport::Missing), Err(HostcallError::MissingMemory));
    assert_eq!(HostcallError::MissingMemory.message(), "missing required memory export");
}

// Whatever is written, the record stays bounded, no range of it is empty, and nothing is lost.
#[test]
fn records_stay_bounded_and_complete() {
    let mut d = DirtyRanges::new();
    let writes: Vec<(usize, usize)> =
        (0..300usize).map(|k| ((k * 7919) % 60_000, k % 5)).chain([(usize::MAX - 1, 9)]).collect();
    for &(offset, len) in &writes {
        d.record(offset, len);
        assert!(d.ranges.len() <= 128);
        assert!(d.ranges.iter().all(|r| r.start < r.end));
    }
    for &(offset, len) in &writes {
        for x in offset..offset.saturating_add(len) {
            assert!(d.ranges.iter().any(|r| r.start <= x && x < r.end));
        }
    }
}

// A full record stays exact where a write touches the range recorded last.
#[test]
fn full_records_are_extended() {
    let mut d = DirtyRanges::new();
    for k in 0..128usize {
        d.record(8 * k, 1);
    }
    d.record(8 * 127 + 1, 2);
    assert_eq!(d.ranges.len(), 128);
    assert_eq!(d.ranges[127], ByteRange { start: 1016, end: 1019 });
}
