//! Types and blocks of translated functions.
use an_encoding::clif::machine::{Block, Ty};
use an_encoding::immediates::{f32_translation, f64_translation};
use an_encoding::translation::{
    block_with_params, blocktype_params_results, enter_block, get_vmctx_value_label,
    wasm_int_stack_type, BlockParam, BlockType, RefLowering, RefType, SubType, ValType, WasmError,
};
use cranelift_codegen::ir::{self, types, Function, InstBuilder, Signature, UserFuncName};
use cranelift_codegen::isa::CallConv;
use cranelift_frontend::{FunctionBuilder, FunctionBuilderContext};

fn with_builder<F: FnOnce(&mut FunctionBuilder<'_>)>(f: F) {
    let sig = Signature::new(CallConv::Fast);
    let mut func = Function::with_name_signature(UserFuncName::user(0, 0), sig);
    let mut context = FunctionBuilderContext::new();
    let mut builder = FunctionBuilder::new(&mut func, &mut context);
    f(&mut builder);
}

fn param_types(b: &FunctionBuilder<'_>, block: Block) -> Vec<ir::Type> {
    let block = ir::Block::from_u32(block.0);
    b.block_params(block).iter().map(|&v| b.func.dfg.value_type(v)).collect()
}

#[test]
fn block_types_give_their_signatures() {
    let types = vec![
        SubType::Other,
        SubType::Func {
            params: vec![ValType::I32, ValType::Ref(RefType(5))],
            results: vec![ValType::I64],
        },
    ];
    assert_eq!(blocktype_params_results(&types, BlockType::Empty), (vec![], vec![]));
    assert_eq!(
        blocktype_params_results(&types, BlockType::Type(ValType::F64)),
        (vec![], vec![ValType::F64])
    );
    assert_eq!(
        blocktype_params_results(&types, BlockType::FuncType(1)),
        (vec![ValType::I32, ValType::Ref(RefType(5))], vec![ValType::I64])
    );
}

#[test]
fn encoded_integers_take_twice_the_width() {
    assert_eq!(wasm_int_stack_type(false, ValType::I32), Ty::I32);
    assert_eq!(wasm_int_stack_type(false, ValType::I64), Ty::I64);
    assert_eq!(wasm_int_stack_type(true, ValType::I32), Ty::I64);
    assert_eq!(wasm_int_stack_type(true, ValType::I64), Ty::I128);
}

#[test]
fn blocks_have_their_parameters() {
    let reference =
        BlockParam::Ref(Ok(RefLowering { ty: Ty::I32, needs_stack_map: true }));
    let params = vec![
        BlockParam::I32,
        BlockParam::I64,
        BlockParam::F32,
        BlockParam::F64,
        BlockParam::V128,
        reference,
    ];
    with_builder(|b| {
        let with = block_with_params(b, &params, true).unwrap();
        let without = block_with_params(b, &params, false).unwrap();
        assert_ne!(with, without);
        assert_eq!(
            param_types(b, with),
            vec![types::I64, types::I128, types::F32, types::F64, types::I8X16, types::I32]
        );
        assert_eq!(
            param_types(b, without),
            vec![types::I32, types::I64, types::F32, types::F64, types::I8X16, types::I32]
        );
    });
}

#[test]
fn a_failed_parameter_fails_the_block() {
    let params = vec![
        BlockParam::I32,
        BlockParam::Ref(Err(WasmError::Unsupported)),
        BlockParam::Ref(Err(WasmError::User)),
    ];
    with_builder(|b| {
        assert_eq!(block_with_params(b, &params, true), Err(WasmError::Unsupported));
    });
}

#[test]
fn blocks_are_entered_once() {
    with_builder(|b| {
        let first = block_with_params(b, &vec![BlockParam::I32], true).unwrap();
        let second = block_with_params(b, &vec![], true).unwrap();
        assert!(enter_block(b, first));
        assert_eq!(b.current_block().map(|x| x.as_u32()), Some(first.0));
        assert!(!enter_block(b, second));
        assert_eq!(b.current_block().map(|x| x.as_u32()), Some(first.0));
        b.ins().return_(&[]);
    });
}

#[test]
fn the_label_of_the_context() {
    assert_eq!(get_vmctx_value_label().0, 0xffff_fffe);
}

#[test]
fn immediates_keep_their_bits() {
    for x in [0.0f32, -0.0, 1.5, f32::NAN, f32::INFINITY, f32::from_bits(0x7fa0_0001)] {
        assert_eq!(f32_translation(wasmparser::Ieee32::from(x)).bits(), x.to_bits());
    }
    for x in [0.0f64, -0.0, -2.25, f64::NAN, f64::from_bits(0x7ff4_0000_0000_0001)] {
        assert_eq!(f64_translation(wasmparser::Ieee64::from(x)).bits(), x.to_bits());
    }
}

// A reference that must appear in stack maps does so where a call is made while it is live.
#[test]
fn references_are_recorded_in_stack_maps() {
    for needs_stack_map in [true, false] {
        let sig = Signature::new(CallConv::Fast);
        let mut func = Function::with_name_signature(UserFuncName::user(0, 0), sig);
        let mut context = FunctionBuilderContext::new();
        let mut b = FunctionBuilder::new(&mut func, &mut context);
        let entry = b.create_block();
        b.switch_to_block(entry);
        b.seal_block(entry);
        let params = vec![BlockParam::Ref(Ok(RefLowering { ty: Ty::I32, needs_stack_map }))];
        let block = ir::Block::from_u32(block_with_params(&mut b, &params, true).unwrap().0);
        let x = b.ins().iconst(types::I32, 7);
        b.ins().jump(block, &[x.into()]);
        b.switch_to_block(block);
        b.seal_block(block);
        let callee = b.ins().iconst(types::I64, 64);
        let sig = b.import_signature(Signature::new(CallConv::Fast));
        let call = b.ins().call_indirect(sig, callee, &[]);
        let reference = b.block_params(block)[0];
        b.func.signature.returns.push(ir::AbiParam::new(types::I32));
        b.ins().return_(&[reference]);
        b.finalize();
        let entries = func.dfg.user_stack_map_entries(call).map_or(0, |e| e.len());
        assert_eq!(entries, needs_stack_map as usize);
    }
}
