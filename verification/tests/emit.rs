//! Emitted code, checked by Cranelift's verifier and run by its interpreter.
use an_encoding::clif::machine::Value;
use an_encoding::emit::bitwise::{emit_an_bitwise_i32, AnBitwiseOp};
use an_encoding::emit::codeword::{
    emit_an_codeword_validity_check, emit_an_conversion_decode_i32, emit_an_encode_raw_i32,
    encode_wasm_i32_bool, encode_wasm_i32_raw,
};
use an_encoding::emit::env::{FuncEnvironment, MemoryOffsets, TableOffsets, Tunables};
use an_encoding::emit::memory::{
    check_one_slot_validity, emit_an_byte_store_rmw, emit_an_enc_base_pointer,
    emit_an_enc_offset_from_effective_addr, emit_an_load_validity_check,
    emit_an_multi_byte_decomposed_store,
};
use an_encoding::emit::shift::{emit_an_mul_i32, emit_an_shl_i32, emit_an_shr_u_i32};
use an_encoding::emit::wide::{
    div2by1_mg, ishl_pair, udiv_u128_by_u64_const, umod_u128_by_u64_const_to_i64, ushr_pair,
};
use an_encoding::traps::{
    TRAP_AN_CODEWORD_INVALID, TRAP_AN_I64_WIDEN_OVERFLOW, TRAP_AN_MEMORY_MISMATCH,
};
use cranelift_codegen::data_value::DataValue;
use cranelift_codegen::ir::condcodes::IntCC;
use cranelift_codegen::ir::{
    self, types, AbiParam, ArgumentPurpose, Function, GlobalValueData, InstBuilder, MemFlags,
    Opcode, Signature, StackSlotData, StackSlotKind, UserFuncName,
};
use cranelift_codegen::isa::CallConv;
use cranelift_codegen::settings;
use cranelift_codegen::verifier::verify_function;
use cranelift_frontend::{FunctionBuilder, FunctionBuilderContext};
use cranelift_interpreter::environment::FunctionStore;
use cranelift_interpreter::interpreter::{Interpreter, InterpreterState};
use cranelift_interpreter::step::{ControlFlow, CraneliftTrap};

// The memory of a run, and of one with tables: addresses count from zero.
const MEMORY: u32 = 0x2000;
const TABLE_MEMORY: u32 = 0x10_0000;

fn ours(v: ir::Value) -> Value {
    Value(v.as_u32())
}

fn theirs(v: Value) -> ir::Value {
    ir::Value::from_u32(v.0)
}

fn env(a: u64) -> FuncEnvironment {
    FuncEnvironment {
        tunables: Tunables { an_encoding: true, an_constant: a, an_inject_conversion_fault: 0 },
        vmctx: 0,
        tables: TableOffsets { an_and_table: 8, an_or_table: 16, an_xor_table: 24 },
        memories: vec![
            MemoryOffsets::Defined { an_enc_memory_base: 32 },
            MemoryOffsets::Imported { vmmemory_import: 40, an_enc_base_slot: 8 },
        ],
    }
}

fn off(a: u64) -> FuncEnvironment {
    let mut e = env(a);
    e.tunables.an_encoding = false;
    e
}

fn build<B>(params: usize, emit: B) -> Function
where
    B: Fn(&mut FunctionBuilder<'_>, &[Value]) -> Vec<Value>,
{
    build_with(MEMORY, params, emit)
}

// Builds a function of 64-bit parameters with some memory, and checks it.
fn build_with<B>(memory: u32, params: usize, emit: B) -> Function
where
    B: Fn(&mut FunctionBuilder<'_>, &[Value]) -> Vec<Value>,
{
    let mut sig = Signature::new(CallConv::Fast);
    sig.params.push(AbiParam::special(types::I64, ArgumentPurpose::VMContext));
    for _ in 0..params {
        sig.params.push(AbiParam::new(types::I64));
    }
    let mut func = Function::with_name_signature(UserFuncName::user(0, 0), sig);
    let vmctx = func.create_global_value(GlobalValueData::VMContext);
    assert_eq!(vmctx.as_u32(), 0);
    func.create_sized_stack_slot(StackSlotData::new(StackSlotKind::ExplicitSlot, memory, 3));
    let mut context = FunctionBuilderContext::new();
    let mut builder = FunctionBuilder::new(&mut func, &mut context);
    let entry = builder.create_block();
    builder.append_block_params_for_function_params(entry);
    builder.switch_to_block(entry);
    builder.seal_block(entry);
    let args: Vec<Value> =
        builder.block_params(entry)[1..].iter().map(|&v| ours(v)).collect();
    let results: Vec<ir::Value> = emit(&mut builder, &args).into_iter().map(theirs).collect();
    for &r in &results {
        let ty = builder.func.dfg.value_type(r);
        builder.func.signature.returns.push(AbiParam::new(ty));
    }
    builder.ins().return_(&results);
    builder.finalize();
    verify_function(&func, &settings::Flags::new(settings::builder())).expect("valid code");
    func
}

// Runs a function: its results, or the code of its trap.
fn call(func: &Function, args: &[u64]) -> Result<Vec<u64>, u8> {
    let mut store = FunctionStore::default();
    store.add("f".to_string(), func);
    let state = InterpreterState::default().with_function_store(store);
    let mut values = vec![DataValue::I64(0)];
    values.extend(args.iter().map(|&a| DataValue::I64(a as i64)));
    match Interpreter::new(state).call_by_name("f", &values).expect("the run goes through") {
        ControlFlow::Return(results) => Ok(results
            .iter()
            .map(|v| match v {
                DataValue::I8(n) => *n as u8 as u64,
                DataValue::I32(n) => *n as u32 as u64,
                DataValue::I64(n) => *n as u64,
                other => panic!("unexpected value {other}"),
            })
            .collect()),
        ControlFlow::Trap(CraneliftTrap::User(code)) => Err(code.as_raw().get()),
        other => panic!("unexpected end {other:?}"),
    }
}

fn run<B>(args: &[u64], emit: B) -> Result<Vec<u64>, u8>
where
    B: Fn(&mut FunctionBuilder<'_>, &[Value]) -> Vec<Value>,
{
    call(&build(args.len(), emit), args)
}

// Emits the store of a constant at a constant address, to set memory up.
fn poke(b: &mut FunctionBuilder<'_>, ty: ir::Type, addr: u64, v: u64) {
    let p = b.ins().iconst(types::I64, addr as i64);
    let x = b.ins().iconst(ty, v as i64);
    b.ins().store(MemFlags::new(), x, p, 0);
}

// Emits the load of a word at a constant address.
fn peek(b: &mut FunctionBuilder<'_>, addr: u64) -> Value {
    let p = b.ins().iconst(types::I64, addr as i64);
    ours(b.ins().load(types::I64, MemFlags::new(), p, 0))
}

fn constant(b: &mut FunctionBuilder<'_>, v: u64) -> Value {
    ours(b.ins().iconst(types::I64, v as i64))
}

const WORDS: [u64; 9] = [
    0,
    1,
    2,
    0xffff_ffff,
    0x1_0000_0000,
    0x0123_4567_89ab_cdef,
    0x8000_0000_0000_0000,
    u64::MAX - 1,
    u64::MAX,
];

fn wide(hi: u64, lo: u64) -> u128 {
    ((hi as u128) << 64) | lo as u128
}

#[test]
fn shifts_of_two_words() {
    for k in [0, 1, 5, 31, 63, 64, 65, 100, 127, 128, 200] {
        let right = build(2, |b, v| {
            let (hi, lo) = ushr_pair(b, v[0], v[1], k);
            vec![hi, lo]
        });
        let left = build(2, |b, v| {
            let (hi, lo) = ishl_pair(b, v[0], v[1], k);
            vec![hi, lo]
        });
        for hi in WORDS {
            for lo in WORDS {
                let n = wide(hi, lo);
                let (r, l) = if k < 128 { (n >> k, n << k) } else { (0, 0) };
                let got = call(&right, &[hi, lo]).unwrap();
                assert_eq!(wide(got[0], got[1]), r, "{n:#x} >> {k}");
                let got = call(&left, &[hi, lo]).unwrap();
                assert_eq!(wide(got[0], got[1]), l, "{n:#x} << {k}");
            }
        }
    }
}

const DIVISORS: [u64; 10] =
    [1, 2, 3, 7, 10, 65521, 1 << 32, 65521 << 32, 0x8000_0000_0000_0001, u64::MAX];

#[test]
fn divisions_of_two_words() {
    for d in DIVISORS {
        let div = build(2, |b, v| {
            let (hi, lo) = udiv_u128_by_u64_const(b, v[0], v[1], d);
            vec![hi, lo]
        });
        let rem = build(2, |b, v| vec![umod_u128_by_u64_const_to_i64(b, v[0], v[1], d)]);
        let narrow = build(2, |b, v| {
            let (q, r) = div2by1_mg(b, v[0], v[1], d);
            vec![q, r]
        });
        for hi in WORDS {
            for lo in WORDS {
                let n = wide(hi, lo);
                let got = call(&div, &[hi, lo]).unwrap();
                assert_eq!(wide(got[0], got[1]), n / d as u128, "{n:#x} / {d}");
                assert_eq!(call(&rem, &[hi, lo]), Ok(vec![(n % d as u128) as u64]), "{n:#x} % {d}");
                if hi < d {
                    let got = call(&narrow, &[hi, lo]).unwrap();
                    assert_eq!(got[0] as u128, n / d as u128, "{n:#x} / {d}");
                    assert_eq!(got[1] as u128, n % d as u128, "{n:#x} % {d}");
                }
            }
        }
    }
}

#[test]
fn codewords_pass_and_others_trap() {
    let f = build(1, |b, v| {
        emit_an_codeword_validity_check(b, 7, v[0]);
        vec![v[0]]
    });
    assert_eq!(call(&f, &[21]), Ok(vec![21]));
    assert_eq!(call(&f, &[0]), Ok(vec![0]));
    assert_eq!(call(&f, &[22]), Err(TRAP_AN_CODEWORD_INVALID));
    let f = build(1, |b, v| {
        emit_an_codeword_validity_check(b, 1, v[0]);
        vec![]
    });
    assert_eq!(call(&f, &[22]), Ok(vec![]));
    assert_eq!(f.layout.block_insts(f.layout.entry_block().unwrap()).count(), 1);
}

#[test]
fn decoding_checks_and_divides() {
    for a in [1, 7, 65521] {
        let f = build(1, |b, v| vec![emit_an_conversion_decode_i32(b, &env(a), v[0])]);
        for n in [0, 1, 0x1234_5678, 0xffff_ffff] {
            assert_eq!(call(&f, &[a * n]), Ok(vec![n]));
        }
    }
    let f = build(1, |b, v| vec![emit_an_conversion_decode_i32(b, &env(65521), v[0])]);
    assert_eq!(call(&f, &[65522]), Err(TRAP_AN_CODEWORD_INVALID));
}

#[test]
fn injected_faults_are_found() {
    let mut e = env(65521);
    e.tunables.an_inject_conversion_fault = 1;
    let f = build(1, |b, v| vec![emit_an_conversion_decode_i32(b, &e, v[0])]);
    assert_eq!(call(&f, &[3 * 65521]), Err(TRAP_AN_CODEWORD_INVALID));
    assert_eq!(call(&f, &[3 * 65521 - 1]), Ok(vec![3]));
}

#[test]
fn encoding_multiplies() {
    let raw = |b: &mut FunctionBuilder<'_>, v: Value| ours(b.ins().ireduce(types::I32, theirs(v)));
    let f = build(1, |b, v| {
        let x = raw(b, v[0]);
        vec![emit_an_encode_raw_i32(b, &env(65521), x)]
    });
    let g = build(1, |b, v| {
        let x = raw(b, v[0]);
        vec![encode_wasm_i32_raw(b, &env(65521), x)]
    });
    let h = build(1, |b, v| {
        let x = raw(b, v[0]);
        let r = encode_wasm_i32_raw(b, &off(65521), x);
        assert_eq!(r, x);
        vec![r]
    });
    for n in [0, 1, 42, 0xffff_ffff] {
        assert_eq!(call(&f, &[n]), Ok(vec![65521 * n]));
        assert_eq!(call(&g, &[n]), Ok(vec![65521 * n]));
        assert_eq!(call(&h, &[n]), Ok(vec![n]));
    }
}

#[test]
fn truth_values_are_encoded() {
    let test = |e: FuncEnvironment| {
        build(2, move |b, v| {
            let c = b.ins().icmp(IntCC::Equal, theirs(v[0]), theirs(v[1]));
            vec![encode_wasm_i32_bool(b, &e, ours(c))]
        })
    };
    let (with, without) = (test(env(65521)), test(off(65521)));
    assert_eq!(call(&with, &[3, 3]), Ok(vec![65521]));
    assert_eq!(call(&with, &[3, 4]), Ok(vec![0]));
    assert_eq!(call(&without, &[3, 3]), Ok(vec![1]));
    assert_eq!(call(&without, &[3, 4]), Ok(vec![0]));
    assert_eq!(with.signature.returns[0].value_type, types::I64);
    assert_eq!(without.signature.returns[0].value_type, types::I32);
}

const VALUES: [u32; 7] = [0, 1, 5, 0x1234_5678, 0x8000_0000, 0xdead_beef, 0xffff_ffff];

#[test]
fn encoded_shifts() {
    for a in [1u64, 7, 65521, 16_777_215] {
        let shl = build(2, |b, v| vec![emit_an_shl_i32(b, &env(a), v[0], v[1])]);
        let shr = build(2, |b, v| vec![emit_an_shr_u_i32(b, &env(a), v[0], v[1])]);
        for n in VALUES {
            for k in [0u64, 1, 7, 16, 31] {
                let x = a * n as u64;
                assert_eq!(call(&shl, &[x, k]), Ok(vec![a * (n << k) as u64]), "A={a} {n} << {k}");
                assert_eq!(call(&shr, &[x, k]), Ok(vec![a * (n >> k) as u64]), "A={a} {n} >> {k}");
            }
        }
    }
    assert_eq!(
        run(&[65521 * 8 + 1, 2], |b, v| vec![emit_an_shr_u_i32(b, &env(65521), v[0], v[1])]),
        Err(TRAP_AN_CODEWORD_INVALID)
    );
    // A left shift keeps the fault for the next check.
    let r = run(&[65521 * 8 + 1, 2], |b, v| vec![emit_an_shl_i32(b, &env(65521), v[0], v[1])]);
    assert_eq!(r, Ok(vec![65521 * 32 + 4]));
}

#[test]
fn encoded_products() {
    for a in [1u64, 7, 65521, 16_777_215] {
        let f = build(2, |b, v| vec![emit_an_mul_i32(b, &env(a), v[0], v[1])]);
        for x in VALUES {
            for y in VALUES {
                assert_eq!(
                    call(&f, &[a * x as u64, a * y as u64]),
                    Ok(vec![a * x.wrapping_mul(y) as u64]),
                    "A={a} {x} * {y}"
                );
            }
        }
    }
    // A product keeps the fault for the next check.
    let bad = run(&[65521 * 3 + 1, 65521 * 5], |b, v| {
        vec![emit_an_mul_i32(b, &env(65521), v[0], v[1])]
    });
    assert_eq!(bad, Ok(vec![65521 * 15 + 5]));
}

// A byte table entry lies at four times 256 times the first byte plus the second.
fn poke_entries(b: &mut FunctionBuilder<'_>, base: u64, a: u64, op: AnBitwiseOp, x: u32, y: u32) {
    for i in 0..4 {
        let (c1, c2) = ((x >> (8 * i)) & 0xff, (y >> (8 * i)) & 0xff);
        let r = match op {
            AnBitwiseOp::And => c1 & c2,
            AnBitwiseOp::Or => c1 | c2,
            AnBitwiseOp::Xor => c1 ^ c2,
        };
        poke(b, types::I32, base + 4 * (0x100 * c1 + c2) as u64, a * r as u64);
    }
}

#[test]
fn encoded_bitwise_operations() {
    let bases = [0x1000u64, 0x4_2000, 0x8_4000];
    let ops = [AnBitwiseOp::And, AnBitwiseOp::Or, AnBitwiseOp::Xor];
    for a in [1u64, 7, 65521, 16_777_215] {
        for (x, y) in [
            (0u32, 0u32),
            (0x1234_5678, 0x0ff0_0ff0),
            (0xdead_beef, 0xcafe_babe),
            (0xffff_ffff, 0xaaaa_aaaa),
            (0x00ff_00ff, 0xff00_ff00),
        ] {
            for (op, base) in ops.into_iter().zip(bases) {
                let offset = op.vmctx_offset(&env(a).tables) as u64;
                let f = build_with(TABLE_MEMORY, 2, |b, v| {
                    poke(b, types::I64, offset, base);
                    poke_entries(b, base, a, op, x, y);
                    vec![emit_an_bitwise_i32(b, &env(a), op, v[0], v[1])]
                });
                let got = call(&f, &[a * x as u64, a * y as u64]);
                let want = match op {
                    AnBitwiseOp::And => x & y,
                    AnBitwiseOp::Or => x | y,
                    AnBitwiseOp::Xor => x ^ y,
                };
                assert_eq!(got, Ok(vec![a * want as u64]), "A={a} {op:?} {x:#x} {y:#x}");
            }
        }
    }
    for (x, y) in [(1, 0), (0, 1)] {
        let got = run(&[x, y], |b, v| {
            poke(b, types::I64, 8, 0x1000);
            vec![emit_an_bitwise_i32(b, &env(65521), AnBitwiseOp::And, v[0], v[1])]
        });
        assert_eq!(got, Err(TRAP_AN_CODEWORD_INVALID));
    }
}

#[test]
fn shadow_bases_are_found() {
    let defined = run(&[], |b, _| {
        poke(b, types::I64, 32, 0x777_0000);
        vec![emit_an_enc_base_pointer(b, &env(7), 0).unwrap()]
    });
    assert_eq!(defined, Ok(vec![0x777_0000]));
    let imported = run(&[], |b, _| {
        poke(b, types::I64, 48, 0x200);
        poke(b, types::I64, 0x200, 0x888_0000);
        vec![emit_an_enc_base_pointer(b, &env(7), 1).unwrap()]
    });
    assert_eq!(imported, Ok(vec![0x888_0000]));
    run(&[], |b, _| {
        assert_eq!(emit_an_enc_base_pointer(b, &off(7), 0), None);
        assert_eq!(emit_an_enc_base_pointer(b, &off(7), 9), None);
        vec![]
    })
    .unwrap();
    // The load of the base itself may not be taken for read-only.
    let f = build(0, |b, _| vec![emit_an_enc_base_pointer(b, &env(7), 1).unwrap()]);
    assert_eq!(readonly_loads(&f), vec![true, false]);
}

// Whether each load of a function is read-only.
fn readonly_loads(f: &Function) -> Vec<bool> {
    let entry = f.layout.entry_block().unwrap();
    f.layout
        .block_insts(entry)
        .filter(|&i| f.dfg.insts[i].opcode() == Opcode::Load)
        .map(|i| f.dfg.insts[i].memflags().unwrap().readonly())
        .collect()
}

#[test]
fn only_the_tables_are_read_only() {
    let f = build(3, |b, v| {
        emit_an_byte_store_rmw(b, &env(7), v[0], v[1], v[2]);
        vec![]
    });
    assert_eq!(readonly_loads(&f), vec![false]);
    let f = build(3, |b, v| {
        emit_an_multi_byte_decomposed_store(b, &env(7), v[0], v[1], v[2], 3);
        vec![]
    });
    assert_eq!(readonly_loads(&f), vec![false; 3]);
    for (n, want) in [(1, 2), (2, 4), (4, 4)] {
        let f = build(3, |b, v| {
            emit_an_load_validity_check(b, &env(7), v[0], v[1], v[2], n);
            vec![]
        });
        assert_eq!(readonly_loads(&f), vec![false; want]);
    }
    let f = build(2, |b, v| vec![emit_an_bitwise_i32(b, &env(7), AnBitwiseOp::Or, v[0], v[1])]);
    assert_eq!(readonly_loads(&f), vec![true; 5]);
}

// Emitters add to the block that the builder is at: they make no blocks and move nowhere.
#[test]
fn emitters_stay_in_their_block() {
    let f = build(3, |b, v| {
        let (at, blocks) = (b.current_block(), b.func.dfg.num_blocks());
        emit_an_codeword_validity_check(b, 7, v[0]);
        emit_an_byte_store_rmw(b, &env(7), v[0], v[1], v[2]);
        emit_an_load_validity_check(b, &env(7), v[0], v[1], v[2], 4);
        let r = emit_an_bitwise_i32(b, &env(7), AnBitwiseOp::Xor, v[0], v[1]);
        let r = emit_an_mul_i32(b, &env(7), r, v[2]);
        assert_eq!((b.current_block(), b.func.dfg.num_blocks()), (at, blocks));
        vec![r]
    });
    let entry = f.layout.entry_block().unwrap();
    assert_eq!(f.dfg.block_params(entry).len(), 4);
}

#[test]
fn shadow_offsets_are_twice_the_addresses() {
    let f = build(1, |b, v| vec![emit_an_enc_offset_from_effective_addr(b, v[0])]);
    for (addr, want) in [(0, 0), (4, 8), (0x1_0004, 0x2_0008)] {
        assert_eq!(call(&f, &[addr]), Ok(vec![want]));
    }
    let f = build(1, |b, v| {
        let x = ours(b.ins().ireduce(types::I32, theirs(v[0])));
        vec![emit_an_enc_offset_from_effective_addr(b, x)]
    });
    assert_eq!(call(&f, &[0xffff_fffc]), Ok(vec![0x1_ffff_fff8]));
}

const BASE: u64 = 0x1000;

#[test]
fn bytes_are_mirrored() {
    let a = 1009;
    for pos in 0..4u64 {
        let got = run(&[8 + pos, 0x5_ab], |b, v| {
            poke(b, types::I64, BASE + 16, a * 0x1122_3344);
            poke(b, types::I64, BASE + 24, 99);
            let base = constant(b, BASE);
            emit_an_byte_store_rmw(b, &env(a), base, v[0], v[1]);
            vec![peek(b, BASE + 16), peek(b, BASE + 24)]
        });
        let word = 0x1122_3344 & !(0xff << (8 * pos)) | 0xab << (8 * pos);
        assert_eq!(got, Ok(vec![a * word, 99]), "position {pos}");
    }
    let got = run(&[8], |b, v| {
        poke(b, types::I64, BASE + 16, 1);
        let base = constant(b, BASE);
        emit_an_byte_store_rmw(b, &env(a), base, v[0], v[0]);
        vec![]
    });
    assert_eq!(got, Err(TRAP_AN_CODEWORD_INVALID));
}

#[test]
fn stores_are_mirrored_byte_by_byte() {
    let a = 65521;
    for addr in 8..12u64 {
        for n in 1..=4u8 {
            let value = 0xa1b2_c3d4u64;
            let got = run(&[addr, value], |b, v| {
                poke(b, types::I64, BASE + 16, a * 0x0403_0201);
                poke(b, types::I64, BASE + 24, a * 0x0807_0605);
                let base = constant(b, BASE);
                emit_an_multi_byte_decomposed_store(b, &env(a), base, v[0], v[1], n);
                vec![peek(b, BASE + 16), peek(b, BASE + 24)]
            });
            let mut bytes = [1, 2, 3, 4, 5, 6, 7, 8];
            for i in 0..n as usize {
                bytes[(addr - 8) as usize + i] = (value >> (8 * i)) as u8;
            }
            let word = |b: &[u8]| u32::from_le_bytes(b.try_into().unwrap()) as u64;
            assert_eq!(
                got,
                Ok(vec![a * word(&bytes[..4]), a * word(&bytes[4..])]),
                "{n} bytes at {addr}"
            );
        }
    }
}

#[test]
fn loads_compare_the_slots_they_touch() {
    let a = 65521;
    let raw = 0x400u64;
    let check = |addr: u64, n: u8, tampered: Option<u64>| {
        run(&[raw + addr, addr], |b, v| {
            for slot in 0..3u64 {
                let word = 0x0101_0101 * (slot + 1);
                poke(b, types::I32, raw + 4 * slot, word);
                poke(b, types::I64, BASE + 8 * slot, a * word);
            }
            if let Some(at) = tampered {
                poke(b, types::I8, raw + at, 0x7e);
            }
            let base = constant(b, BASE);
            emit_an_load_validity_check(b, &env(a), base, v[0], v[1], n);
            vec![]
        })
    };
    for addr in 0..8 {
        for n in [1u8, 2, 4] {
            assert_eq!(check(addr, n, None), Ok(vec![]));
            for at in 0..12 {
                let touched = addr / 4 <= at / 4 && at / 4 <= (addr + n as u64 - 1) / 4;
                let want = if touched { Err(TRAP_AN_MEMORY_MISMATCH) } else { Ok(vec![]) };
                assert_eq!(check(addr, n, Some(at)), want, "{n} bytes at {addr}, {at} tampered");
            }
        }
    }
    // A slot alone, with the constant as a value.
    for (shadow, want) in [(a * 5, Ok(vec![])), (a * 5 + 1, Err(TRAP_AN_MEMORY_MISMATCH))] {
        let got = run(&[raw + 2, 2, a], |b, v| {
            poke(b, types::I32, raw, 5);
            poke(b, types::I64, BASE, shadow);
            let base = constant(b, BASE);
            check_one_slot_validity(b, base, v[0], v[1], v[2]);
            vec![]
        });
        assert_eq!(got, want);
    }
}

#[test]
fn trap_codes_are_distinct() {
    assert_ne!(TRAP_AN_MEMORY_MISMATCH, TRAP_AN_CODEWORD_INVALID);
    assert_ne!(TRAP_AN_CODEWORD_INVALID, TRAP_AN_I64_WIDEN_OVERFLOW);
    assert_ne!(TRAP_AN_MEMORY_MISMATCH, TRAP_AN_I64_WIDEN_OVERFLOW);
}
