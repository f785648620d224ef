//! What can be configured and compiled.
use an_encoding::codec::Codec;
use an_encoding::config::{Config, ConfigError, Strategy};
use an_encoding::policy::{check_module, Construct, Operator, Refusal, TableElement};
use an_encoding::translation::{RefType, ValType};

const I32: Construct = Construct::Value(ValType::I32);
const I64: Construct = Construct::Value(ValType::I64);
const F32: Construct = Construct::Value(ValType::F32);
const F64: Construct = Construct::Value(ValType::F64);
const EXTERNREF: Construct = Construct::Value(ValType::Ref(RefType(1)));
const INTEGER: Construct = Construct::Operator(Operator::Integer);
const FLOAT: Construct = Construct::Operator(Operator::FloatingPoint);
const ATOMIC: Construct = Construct::Operator(Operator::Atomic);
const MEMORY: Construct = Construct::Memory { shared: false };

fn refusal(module: &[Construct]) -> Refusal {
    assert_eq!(check_module(false, &module.to_vec()), Ok(()));
    check_module(true, &module.to_vec()).expect_err("the module should be refused")
}

fn assert_an_refusal(module: &[Construct]) {
    assert!(refusal(module).message().contains("AN-encoding"));
}

fn assert_an_float_refusal(module: &[Construct]) {
    let s = refusal(module).message();
    assert!(s.contains("AN-encoding") && s.contains("floating-point"), "{s}");
}

fn assert_an_ref_refusal(module: &[Construct]) {
    let s = refusal(module).message();
    assert!(s.contains("AN-encoding") && s.contains("reference type"), "{s}");
}

fn assert_compiles(module: &[Construct]) {
    assert_eq!(check_module(true, &module.to_vec()), Ok(()));
}

#[test]
fn refuse_float_param_under_an() {
    assert_an_float_refusal(&[F32, I32, INTEGER]);
}

#[test]
fn refuse_float_result_under_an() {
    assert_an_float_refusal(&[F64, FLOAT]);
}

#[test]
fn refuse_float_local_under_an() {
    assert_an_float_refusal(&[I32, F32, INTEGER]);
}

#[test]
fn refuse_float_global_under_an() {
    assert_an_float_refusal(&[F64, I32, INTEGER]);
}

#[test]
fn refuse_float_op_under_an() {
    assert_an_float_refusal(&[I32, FLOAT, INTEGER, INTEGER]);
}

#[test]
fn refuse_externref_param_under_an() {
    assert_an_ref_refusal(&[EXTERNREF, I32, INTEGER]);
}

#[test]
fn refuse_externref_result_under_an() {
    assert_an_ref_refusal(&[EXTERNREF, Construct::Operator(Operator::Reference)]);
}

#[test]
fn refuse_externref_local_under_an() {
    assert_an_ref_refusal(&[I32, EXTERNREF, INTEGER]);
}

#[test]
fn refuse_externref_global_under_an() {
    assert_an_ref_refusal(&[EXTERNREF, I32, INTEGER]);
}

#[test]
fn refuse_externref_table_under_an() {
    assert_an_ref_refusal(&[Construct::Table(TableElement::Other), I32, INTEGER]);
}

#[test]
fn funcref_table_compiles_under_an() {
    assert_compiles(&[Construct::Table(TableElement::FuncRef), I32, INTEGER, INTEGER]);
}

#[test]
fn imported_memory_compiles_under_an() {
    assert_compiles(&[MEMORY, I32, I32, INTEGER, I32, I32, INTEGER]);
}

#[test]
fn multi_memory_compiles_under_an() {
    assert_compiles(&[MEMORY, MEMORY, I32, INTEGER]);
}

#[test]
fn refuse_shared_memory_under_an() {
    assert_an_refusal(&[Construct::Memory { shared: true }, I32, INTEGER]);
}

#[test]
fn refuse_atomic_load_under_an() {
    assert_an_refusal(&[MEMORY, I32, INTEGER, ATOMIC]);
}

#[test]
fn refuse_atomic_store_under_an() {
    assert_an_refusal(&[MEMORY, INTEGER, INTEGER, ATOMIC]);
}

#[test]
fn refuse_atomic_rmw_add_under_an() {
    assert_an_refusal(&[MEMORY, I32, INTEGER, INTEGER, ATOMIC]);
}

#[test]
fn refuse_atomic_rmw_cmpxchg_under_an() {
    assert_an_refusal(&[MEMORY, I32, INTEGER, INTEGER, INTEGER, ATOMIC]);
}

#[test]
fn refuse_atomic_fence_under_an() {
    assert_an_refusal(&[MEMORY, ATOMIC]);
}

#[test]
fn refuse_memory_atomic_wait32_under_an() {
    assert_an_refusal(&[MEMORY, I32, INTEGER, INTEGER, INTEGER, ATOMIC]);
}

#[test]
fn refuse_memory_atomic_notify_under_an() {
    assert_an_refusal(&[MEMORY, I32, INTEGER, INTEGER, ATOMIC]);
}

// The bulk operations: fill, copy, init, grow, size, byte and word accesses, and a host call.
const BULK: [Construct; 12] =
    [MEMORY, I32, I32, I32, INTEGER, INTEGER, INTEGER, INTEGER, INTEGER, INTEGER, INTEGER, I64];

#[test]
fn bulk_wat_compiles_without_an() {
    assert_eq!(check_module(false, &BULK.to_vec()), Ok(()));
}

#[test]
fn bulk_wat_compiles_with_an() {
    assert_compiles(&BULK);
}

// The core modules of two components, one of which hands a string to the other: memories and
// functions on pairs of integers.
const TRANSCODE: [Construct; 10] =
    [I32, I32, INTEGER, I32, I32, I32, I32, I32, MEMORY, MEMORY];

#[test]
fn transcode_component_compiles_without_an() {
    assert!(Config::new().build().is_ok());
    assert_eq!(check_module(false, &TRANSCODE.to_vec()), Ok(()));
}

#[test]
fn transcode_component_compiles_with_an() {
    for a in [1u64, 7, 65521, 16_777_215] {
        let mut config = an_config();
        config.an_constant = a;
        assert_eq!(config.build(), Ok(Codec { a }), "A={a}");
        assert_compiles(&TRANSCODE);
    }
}

#[test]
fn conversions_refused_under_an() {
    assert_an_float_refusal(&[I32, INTEGER, I64, INTEGER, F32, FLOAT, F64, FLOAT]);
}

#[test]
fn simd_refused_under_an() {
    let s = refusal(&[I32, Construct::Operator(Operator::Simd)]).message().to_lowercase();
    assert!(s.contains("simd"), "{s}");
    assert_eq!(refusal(&[Construct::Value(ValType::V128)]), Refusal::Simd);
}

#[test]
fn gc_ops_refused_under_an() {
    assert_eq!(refusal(&[I32, INTEGER, Construct::Operator(Operator::Gc)]), Refusal::Gc);
}

#[test]
fn exceptions_refused_under_an() {
    assert_eq!(
        refusal(&[I32, INTEGER, Construct::Operator(Operator::Exception)]),
        Refusal::Exceptions
    );
}

#[test]
fn component_core_module_float_refused_under_an() {
    let s = refusal(&[F32, F32, INTEGER]).message();
    assert!(s.contains("floating-point"), "{s}");
}

#[test]
fn the_first_refused_construct_decides() {
    assert_eq!(refusal(&[I32, ATOMIC, F32]), Refusal::Atomic);
    assert_eq!(refusal(&[I32, F32, ATOMIC]), Refusal::FloatingPoint);
}

fn an_config() -> Config {
    let mut config = Config::new();
    config.an_encoding = true;
    config
}

#[test]
fn explicit_simd_enable_conflicts_with_an() {
    let mut config = an_config();
    config.enabled.simd = true;
    let err = config.build().unwrap_err();
    assert!(err.message().contains("AN-encoding"));
    config.an_encoding = false;
    assert!(config.build().is_ok());
}

#[test]
fn explicit_component_model_async_conflicts_with_an() {
    let mut config = an_config();
    config.enabled.component_model_async = true;
    let err = config.build().unwrap_err();
    assert!(err.message().contains("AN-encoding"));
}

#[test]
fn winch_strategy_refused_under_an() {
    let mut config = an_config();
    config.strategy = Strategy::Winch;
    assert_eq!(config.build(), Err(ConfigError::WinchStrategy));
}

#[test]
fn the_constant_is_bounded() {
    let mut config = an_config();
    assert_eq!(config.build(), Ok(Codec { a: 65521 }));
    for a in [0, 1 << 24, u64::MAX] {
        config.an_constant = a;
        assert_eq!(config.build(), Err(ConfigError::InvalidConstant(a)));
    }
    for a in [1, (1 << 24) - 1] {
        config.an_constant = a;
        assert_eq!(config.build(), Ok(Codec { a }));
    }
    assert_eq!(Config::new().build(), Ok(Codec { a: 1 }));
}
