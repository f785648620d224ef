//! Lowering into and lifting out of a component's memory.
use an_encoding::boundary::Boundary;
use an_encoding::codec::Codec;
use an_encoding::component::{
    BorrowLowering, HostcallFuelExhausted, LiftContext, LowerContext, LowerError, ReallocCall,
};
use an_encoding::memory::state::AnMemory;
use an_encoding::traps::Trap;
use an_encoding::wasm::Width;

const W32: Width = Width::W32;

fn memory(an: bool, a: u64) -> AnMemory {
    AnMemory::new(an, a, W32, 1, 1)
}

fn boundary(m: &AnMemory) -> Boundary {
    Boundary { codec: m.codec, an_encoding: m.an_encoding, an_inject_codeword_fault: 0 }
}

fn enc(c: Codec, n: u32) -> u128 {
    c.encode(W32, n as u64)
}

fn store(m: &mut AnMemory, addr: u32, n: usize, v: u32) {
    let (x, y) = (enc(m.codec, addr), enc(m.codec, v));
    m.store(W32, x, 0, n, y).unwrap();
}

// A guest that stores a word, calls the host, and returns the word.
fn run_component(an: bool, a: u64) -> Result<u64, Trap> {
    let mut m = memory(an, a);
    let b = boundary(&m);
    store(&mut m, 0, 4, 0x1122_3344);
    b.decode_values(&vec![], &vec![])?;
    m.heal();
    let x = m.load(W32, enc(m.codec, 0), 0, 4, false)?;
    Ok(b.decode_values(&vec![W32], &vec![x])?[0])
}

#[test]
fn component_compiles_without_an() {
    assert_eq!(run_component(false, 65521), Ok(0x1122_3344));
}

#[test]
fn component_compiles_with_an() {
    assert_eq!(run_component(true, 65521), Ok(0x1122_3344));
}

#[test]
fn component_with_an_various_constants() {
    for &a in &[1u64, 7, 1009, 65521, 16_777_215] {
        assert_eq!(run_component(true, a), Ok(0x1122_3344), "A={a}");
    }
}

// Lowers a string with the guest's allocation function, which always gives the address sixteen,
// and calls a guest function that returns the length it was given. Before it reads the string the
// guest may call a host function that does nothing.
fn strlen(m: AnMemory, s: &str, noop: bool) -> (AnMemory, u64) {
    let bytes = s.as_bytes().to_vec();
    let b = boundary(&m);
    let mut cx = LowerContext::new(Some(m));
    let call = cx.realloc(0, 0, 1, bytes.len()).unwrap();
    assert_eq!(
        call,
        ReallocCall { old: 0, old_size: 0, old_align: 1, new_size: bytes.len() as u32 }
    );
    let returned = b.decode_values(&vec![W32], &vec![enc(b.codec, 16)]).unwrap()[0] as u32;
    let ptr = cx.realloc_result(returned, 1, bytes.len()).unwrap();
    assert_eq!(ptr, 16);
    cx.slice_mut(ptr, bytes.len()).copy_from_slice(&bytes);
    cx.an_flush_dirty().unwrap();
    let mut m = cx.memory.take().unwrap();
    if noop {
        m = host_call(m);
    }
    let args = b.encode_values(&vec![W32, W32], &vec![ptr as u64, bytes.len() as u64]);
    for (i, &want) in bytes.iter().enumerate() {
        let at = b.codec.add(W32, args[0], enc(b.codec, i as u32));
        let x = m.load(W32, at, 0, 1, false).unwrap();
        assert_eq!(b.codec.decode(W32, x), Ok(want as u64));
    }
    let n = b.decode_values(&vec![W32], &vec![args[1]]).unwrap()[0];
    (m, n)
}

// A call of a host function without parameters and results. Nothing is stale before it, so that
// it has nothing to bring along and leaves bytes and shadow as they were.
fn host_call(m: AnMemory) -> AnMemory {
    let b = boundary(&m);
    let (raw, shadow) = (m.raw.clone(), m.shadow.clone());
    assert!(!m.whole_dirty);
    assert!(m.try_data().is_ok());
    assert_eq!(b.decode_values(&vec![], &vec![]), Ok(vec![]));
    let mut cx = LowerContext::new(Some(m));
    assert_eq!(cx.an_flush_dirty(), Ok(()));
    let mut m = cx.memory.take().unwrap();
    assert!(b.encode_values(&vec![], &vec![]).is_empty());
    m.heal();
    assert_eq!(m.raw, raw);
    assert_eq!(m.shadow, shadow);
    m
}

fn strlen_check(an: bool, a: u64, noop: bool) {
    let (m, n) = strlen(memory(an, a), "hello", noop);
    assert_eq!(n, 5);
    let (m, n) = strlen(m, "h\u{e9}llo", noop);
    assert_eq!(n, 6);
    assert!(m.try_data().is_ok());
}

#[test]
fn transcode_string_roundtrip_without_an() {
    strlen_check(false, 65521, false);
}

#[test]
fn transcode_string_roundtrip_with_an() {
    strlen_check(true, 65521, false);
}

#[test]
fn string_lowering_then_host_boundary_without_an() {
    strlen_check(false, 65521, true);
}

#[test]
fn string_lowering_then_host_boundary_with_an() {
    strlen_check(true, 65521, true);
}

#[test]
fn string_lowering_then_host_boundary_various_an_constants() {
    for &a in &[1u64, 7, 1009, 65521, 16_777_215] {
        strlen_check(true, a, true);
    }
}

// The guest seeds a slot; the host lowers a byte and a half word into it, with a padding byte
// between them that the host may tamper with.
fn lower_pair(tamper: Option<u8>) -> (AnMemory, Result<(), Trap>) {
    let mut m = memory(true, 65521);
    store(&mut m, 64, 4, 0xFFFF_FFFF);
    if let Some(b) = tamper {
        m.raw[65] = b;
    }
    let mut cx = LowerContext::new_without_realloc(Some(m));
    *cx.get(64) = 0x11u8.to_le_bytes();
    *cx.get(66) = 0x2233u16.to_le_bytes();
    let r = cx.an_flush_dirty();
    (cx.memory.take().unwrap(), r)
}

#[test]
fn component_lowering_disjoint_same_slot_writes_resync() {
    let (m, r) = lower_pair(None);
    assert_eq!(r, Ok(()));
    let x = m.load(W32, enc(m.codec, 64), 0, 4, false).unwrap();
    assert_eq!(m.codec.decode(W32, x), Ok(0x2233_ff11));
}

#[test]
fn component_lowering_disjoint_same_slot_writes_reject_corrupt_padding() {
    let (m, r) = lower_pair(Some(0xEE));
    assert_eq!(r, Err(Trap::AnMemoryMismatch));
    assert_eq!(m.shadow[16], 65521 * 0xFFFF_FFFF);
}

fn hello() -> AnMemory {
    let mut m = memory(true, 65521);
    for (i, &b) in b"hello".iter().enumerate() {
        store(&mut m, 16 + i as u32, 1, b as u32);
    }
    m
}

#[test]
fn component_lift_clean_run_passes() {
    let m = hello();
    let cx = LiftContext::new(&m, 100);
    assert_eq!(cx.memory_checked(16, 5), Ok(b"hello".to_vec()));
}

#[test]
fn component_lift_tamper_traps() {
    let mut m = hello();
    m.raw[18] ^= 0x40;
    let cx = LiftContext::new(&m, 100);
    assert_eq!(cx.memory_checked(16, 5), Err(Trap::AnMemoryMismatch));
}

fn list() -> AnMemory {
    let mut m = memory(true, 65521);
    let data: Vec<u8> = (0u8..16).collect();
    let c = m.codec;
    m.init(&data, enc(c, 8), enc(c, 0), enc(c, 16)).unwrap();
    m
}

fn as_le_words(bytes: &[u8]) -> Vec<u32> {
    bytes.chunks_exact(4).map(|w| u32::from_le_bytes(w.try_into().unwrap())).collect()
}

#[test]
fn try_as_le_slice_clean_and_tamper() {
    let mut m = list();
    let bytes = LiftContext::new(&m, 100).memory_checked(8, 16).unwrap();
    assert_eq!(
        as_le_words(&bytes),
        vec![0x03_02_01_00, 0x07_06_05_04, 0x0b_0a_09_08, 0x0f_0e_0d_0c]
    );
    m.raw[10] ^= 0x40;
    assert_eq!(
        LiftContext::new(&m, 100).memory_checked(8, 16),
        Err(Trap::AnMemoryMismatch)
    );
}

#[test]
#[should_panic(expected = "AnMemoryMismatch")]
fn as_le_slice_panics_on_tamper() {
    let mut m = list();
    m.raw[10] ^= 0x40;
    LiftContext::new(&m, 100).memory_checked(8, 16).unwrap();
}

#[test]
fn lifting_stays_within_bounds() {
    let m = list();
    let cx = LiftContext::new(&m, 100);
    assert_eq!(cx.memory_checked(65_530, 7), Err(Trap::MemoryOutOfBounds));
    assert_eq!(cx.memory_checked(usize::MAX, 2), Err(Trap::MemoryOutOfBounds));
    assert_eq!(cx.memory().len(), 65_536);
}

#[test]
fn the_budget_of_a_host_call() {
    let m = list();
    let mut cx = LiftContext::new(&m, 100);
    assert_eq!(cx.consume_fuel(60), Ok(()));
    assert_eq!(cx.consume_fuel(41), Err(HostcallFuelExhausted));
    assert_eq!(cx.hostcall_fuel, 40);
    assert_eq!(cx.consume_fuel_array(10, 4), Ok(()));
    assert_eq!(cx.consume_fuel_array(usize::MAX, 2), Err(HostcallFuelExhausted));
    assert_eq!(cx.hostcall_fuel, 0);
    assert!(HostcallFuelExhausted.message().len() > 0);
}

#[test]
fn allocations_are_checked() {
    let mut cx = LowerContext::new(Some(memory(true, 65521)));
    assert_eq!(cx.realloc_result(6, 4, 1), Err(LowerError::ReallocNotAligned));
    assert_eq!(cx.realloc_result(65_532, 4, 5), Err(LowerError::ReallocBeyondMemory));
    assert_eq!(cx.realloc_result(65_532, 4, 4), Ok(65_532));
    assert_eq!(cx.realloc(0, 0, 4, 1 << 32), Err(LowerError::IntConversion));
    assert_eq!(LowerError::ReallocNotAligned.message(), "realloc return: result not aligned");
    assert_eq!(LowerError::ReallocBeyondMemory.message(), "realloc return: beyond end of memory");
    cx.slice_mut(4, 1)[0] = 1;
    cx.memory.as_mut().unwrap().raw[5] = 9;
    assert_eq!(cx.realloc(0, 0, 4, 4), Err(LowerError::Trap(Trap::AnMemoryMismatch)));
}

// A borrow of the whole memory is brought along as a whole.
#[test]
fn whole_memory_borrows_are_recorded() {
    let mut cx = LowerContext::new(Some(memory(true, 1009)));
    cx.as_slice_mut()[8] = 1;
    assert_eq!(cx.an_flush_dirty(), Ok(()));
    assert_eq!(cx.memory.as_ref().unwrap().shadow[2], 1009);
}

#[test]
fn borrows_of_own_resources_are_raw() {
    let cx = LowerContext::new(None);
    assert_eq!(cx.guest_resource_lower_borrow(true, 9), BorrowLowering::Raw(9));
    assert_eq!(cx.guest_resource_lower_borrow(false, 9), BorrowLowering::Entry);
}

// A borrow of the whole memory is refused where a fault is there already, and the fault stays.
#[test]
fn whole_memory_borrows_hide_no_fault() {
    let mut m = memory(true, 1009);
    store(&mut m, 8, 4, 7);
    m.raw[9] ^= 0x20;
    let mut cx = LowerContext::new(Some(m));
    assert_eq!(cx.try_as_slice_mut().err(), Some(Trap::AnMemoryMismatch));
    assert_eq!(cx.an_flush_dirty(), Ok(()));
    let m = cx.memory.as_ref().unwrap();
    assert_eq!(m.shadow[2], 7 * 1009);
    assert_eq!(m.try_data().err(), Some(Trap::AnMemoryMismatch));
}

#[test]
fn whole_memory_borrows_of_a_sound_memory() {
    for an in [false, true] {
        let mut cx = LowerContext::new(Some(memory(an, 1009)));
        cx.try_as_slice_mut().unwrap()[20] = 3;
        assert_eq!(cx.an_flush_dirty(), Ok(()));
        let m = cx.memory.as_ref().unwrap();
        assert_eq!(m.raw[20], 3);
        assert!(m.try_data().is_ok());
    }
}
