//! Tables, whose operands are encoded.
use an_encoding::codec::Codec;
use an_encoding::table::AnTable;
use an_encoding::traps::Trap;
use an_encoding::wasm::Width;

fn enc(c: Codec, n: u32) -> u128 {
    c.encode(Width::W32, n as u64)
}

fn dec(c: Codec, x: u128) -> i32 {
    c.decode(Width::W32, x).unwrap() as u32 as i32
}

// Four elements; the functions 0, 1 and 2 fill the first three.
fn table_setup(an: bool) -> AnTable {
    let c = Codec { a: if an { 65521 } else { 1 } };
    let mut t = AnTable::new(c, 4, 100);
    let segment = vec![Some(0), Some(1), Some(2)];
    t.init(&segment, enc(c, 0), enc(c, 0), enc(c, 3)).unwrap();
    t
}

fn call_idx(t: &AnTable, i: u32) -> Result<i32, Trap> {
    t.call_indirect(enc(t.codec, i)).map(|f| [100, 200, 300][f as usize])
}

#[test]
fn table_size_under_an() {
    let t = table_setup(true);
    assert_eq!(t.size(), 4 * 65521);
    assert_eq!(dec(t.codec, t.size()), 4);
}

#[test]
fn table_grow_under_an() {
    let mut t = table_setup(true);
    let c = t.codec;
    assert_eq!(dec(c, t.grow(None, enc(c, 2)).unwrap()), 4);
    assert_eq!(dec(c, t.size()), 6);
}

#[test]
fn table_fill_under_an() {
    let mut t = table_setup(true);
    let c = t.codec;
    t.fill(enc(c, 2), Some(2), enc(c, 2)).unwrap();
    assert_eq!(call_idx(&t, 2), Ok(300));
    assert_eq!(call_idx(&t, 3), Ok(300));
}

#[test]
fn table_copy_under_an() {
    let mut t = table_setup(true);
    let c = t.codec;
    t.copy(enc(c, 3), enc(c, 1), enc(c, 1)).unwrap();
    assert_eq!(call_idx(&t, 3), Ok(200));
}

#[test]
fn call_indirect_under_an() {
    let t = table_setup(true);
    assert_eq!(call_idx(&t, 1), Ok(200));
    assert_eq!(call_idx(&t, 2), Ok(300));
}

#[test]
fn table_ops_match_without_an() {
    let mut t = table_setup(false);
    let c = t.codec;
    assert_eq!(dec(c, t.size()), 4);
    assert_eq!(dec(c, t.grow(None, enc(c, 2)).unwrap()), 4);
    assert_eq!(dec(c, t.size()), 6);
    assert_eq!(call_idx(&t, 1), Ok(200));
    assert_eq!(call_idx(&t, 2), Ok(300));
}

#[test]
fn table_init_under_an() {
    let c = Codec { a: 65521 };
    let mut t = AnTable::new(c, 4, 4);
    let segment = vec![Some(0), Some(1), Some(2)];
    t.init(&segment, enc(c, 1), enc(c, 1), enc(c, 2)).unwrap();
    let call_at = |i: u32| t.call_indirect(enc(c, i)).map(|f| [11, 22, 33][f as usize]);
    assert_eq!(call_at(1), Ok(22));
    assert_eq!(call_at(2), Ok(33));
}

#[test]
fn table_operations_stay_within_bounds() {
    let mut t = table_setup(true);
    let c = t.codec;
    assert_eq!(t.fill(enc(c, 3), None, enc(c, 2)), Err(Trap::TableOutOfBounds));
    assert_eq!(t.copy(enc(c, 0), enc(c, 3), enc(c, 2)), Err(Trap::TableOutOfBounds));
    assert_eq!(
        t.init(&vec![None], enc(c, 0), enc(c, 1), enc(c, 1)),
        Err(Trap::TableOutOfBounds)
    );
    assert_eq!(call_idx(&t, 4), Err(Trap::TableOutOfBounds));
    assert_eq!(call_idx(&t, 3), Err(Trap::IndirectCallToNull));
    assert_eq!(dec(c, t.grow(None, enc(c, 97)).unwrap()), -1);
    assert_eq!(dec(c, t.size()), 4);
}

#[test]
fn faulty_table_operands_trap() {
    let mut t = table_setup(true);
    let c = t.codec;
    let bad = enc(c, 1) + 1;
    assert_eq!(t.call_indirect(bad), Err(Trap::AnCodewordInvalid));
    assert_eq!(t.grow(None, bad), Err(Trap::AnCodewordInvalid));
    assert_eq!(t.fill(bad, None, enc(c, 0)), Err(Trap::AnCodewordInvalid));
    assert_eq!(t.copy(enc(c, 0), bad, enc(c, 0)), Err(Trap::AnCodewordInvalid));
    assert_eq!(t.init(&vec![], enc(c, 0), enc(c, 0), bad), Err(Trap::AnCodewordInvalid));
}
