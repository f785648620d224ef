//! Configuration, refusals, lookup tables and translation.
use crate::clif::builder::{
    accepting, block_params, code, has_type, position, pristine_blocks, stack_map_values,
    value_types,
};
use crate::clif::machine::{Block, Ty, Value};
use crate::codec::Codec;
use crate::config::{Config, ConfigError};
use crate::hostcall::{view_kind, HostcallError, MemoryExport, ViewKind};
use crate::immediates::{
    f32_translation, f64_translation, immediate32, immediate64, parsed32, parsed64,
};
use crate::lut::{generate, validate_a, AnLutError, AnLuts, BinOp};
use crate::policy::{check_module, Construct, Operator, Refusal, TableElement};
use crate::translation::{
    block_with_params, blocktype_params_results, enter_block, get_vmctx_value_label,
    wasm_int_stack_type, BlockParam, BlockType, SubType, ValType, ValueLabel, WasmError,
};
use crate::traps::Trap;
use cranelift_codegen::ir::immediates::{Ieee32, Ieee64};
use cranelift_frontend::FunctionBuilder;
use vstd::prelude::*;

verus! {

/// A configuration is accepted with every constant from one up to 2^24, exclusive; with encoding
/// it must be for Cranelift and have none of the features that exclude each other with it. The
/// constant is that of the configuration, without encoding one.
pub proof fn law_build(c: Config, r: Result<Codec, ConfigError>)
    requires
        call_ensures(Config::build, (&c,), r),
    ensures
        ({
            let masked = c.enabled.simd || c.enabled.relaxed_simd || c.enabled.gc
                || c.enabled.exceptions || c.enabled.stack_switching
                || c.enabled.shared_everything_threads || c.enabled.component_model_async;
            let fine = 1 <= c.an_constant < 0x100_0000;
            &&& !fine ==> r == Err::<Codec, ConfigError>(
                ConfigError::InvalidConstant(c.an_constant),
            )
            &&& fine && !c.an_encoding ==> r is Ok && r->Ok_0.a == 1
            &&& fine && c.an_encoding && c.strategy is Winch ==> r == Err::<Codec, ConfigError>(
                ConfigError::WinchStrategy,
            )
            &&& fine && c.an_encoding && c.strategy is Cranelift && masked ==> r == Err::<
                Codec,
                ConfigError,
            >(ConfigError::MaskedFeature)
            &&& fine && c.an_encoding && c.strategy is Cranelift && !masked ==> r is Ok
                && r->Ok_0.a == c.an_constant
        }),
{
}

/// The default is no encoding and the constant 65521, with nothing switched on.
pub proof fn law_default(c: Config)
    requires
        call_ensures(Config::new, (), c),
    ensures
        !c.an_encoding,
        c.an_constant == 65521,
        c.strategy is Cranelift,
        !c.enabled.simd && !c.enabled.relaxed_simd && !c.enabled.gc && !c.enabled.exceptions
            && !c.enabled.stack_switching && !c.enabled.shared_everything_threads
            && !c.enabled.component_model_async,
{
}

/// The traps of encoded code have numbers of their own, and no other trap has one.
pub proof fn law_trap_codes(t: Trap, r: Option<u8>)
    requires
        call_ensures(Trap::code, (t,), r),
    ensures
        t is AnMemoryMismatch <==> r == Some(48u8),
        t is AnCodewordInvalid <==> r == Some(49u8),
        t is AnI64WidenOverflow <==> r == Some(50u8),
        r is None <==> !(t is AnMemoryMismatch || t is AnCodewordInvalid
            || t is AnI64WidenOverflow),
{
}

/// What can be encoded: integers, tables of functions, memories that are not shared.
pub open spec fn encodable(c: Construct) -> bool {
    ||| c == Construct::Value(ValType::I32)
    ||| c == Construct::Value(ValType::I64)
    ||| c == Construct::Table(TableElement::FuncRef)
    ||| c == (Construct::Memory { shared: false })
    ||| c == Construct::Operator(Operator::Integer)
}

/// Whether a refusal is the one for a construct.
pub open spec fn fitting(c: Construct, e: Refusal) -> bool {
    match e {
        Refusal::FloatingPoint => c == Construct::Value(ValType::F32) || c == Construct::Value(
            ValType::F64,
        ) || c == Construct::Operator(Operator::FloatingPoint),
        Refusal::Simd => c == Construct::Value(ValType::V128) || c == Construct::Operator(
            Operator::Simd,
        ),
        Refusal::ReferenceType => (c matches Construct::Value(ValType::Ref(_))) || c
            == Construct::Table(TableElement::Other) || c == Construct::Operator(Operator::Reference),
        Refusal::SharedMemory => c == (Construct::Memory { shared: true }),
        Refusal::Atomic => c == Construct::Operator(Operator::Atomic),
        Refusal::Gc => c == Construct::Operator(Operator::Gc),
        Refusal::Exceptions => c == Construct::Operator(Operator::Exception),
    }
}

/// The refusal of a construct.
proof fn lemma_fitting(c: Construct)
    ensures
        crate::policy::refusal(c) is None <==> encodable(c),
        crate::policy::refusal(c) matches Some(e) ==> fitting(c, e),
{
}

/// Without encoding every module is accepted, with encoding one of which all can be encoded; else
/// the first part that cannot be decides the refusal.
pub proof fn law_check_module(an: bool, parts: Vec<Construct>, r: Result<(), Refusal>)
    requires
        call_ensures(check_module, (an, &parts), r),
    ensures
        !an ==> r is Ok,
        an && (forall|i: int| 0 <= i < parts@.len() ==> encodable(#[trigger] parts@[i])) ==> r is Ok,
        r matches Err(e) ==> exists|i: int|
            {
                &&& 0 <= i < parts@.len()
                &&& !encodable(#[trigger] parts@[i])
                &&& fitting(parts@[i], e)
                &&& forall|j: int| 0 <= j < i ==> encodable(#[trigger] parts@[j])
            },
        an && r is Ok ==> forall|i: int| 0 <= i < parts@.len() ==> encodable(#[trigger] parts@[i]),
{
    assert forall|c: Construct| #[trigger] crate::policy::refusal(c) is None <==> encodable(c) by {
        lemma_fitting(c);
    }
    if let Err(e) = r {
        let i = choose|i: int|
            {
                &&& 0 <= i < parts@.len()
                &&& crate::policy::refusal(#[trigger] parts@[i]) == Some(e)
                &&& forall|j: int|
                    0 <= j < i ==> crate::policy::refusal(#[trigger] parts@[j]) is None
            };
        lemma_fitting(parts@[i]);
        assert forall|j: int| 0 <= j < i implies encodable(#[trigger] parts@[j]) by {
            lemma_fitting(parts@[j]);
        }
    }
}

/// The tables of a constant hold, for every two bytes, the constant times the operation on them.
/// They are built for the constants from one up to 2^31, exclusive.
pub proof fn law_tables(a: u64, r: Result<AnLuts, AnLutError>, v: Result<(), AnLutError>)
    requires
        call_ensures(generate, (a,), r),
        call_ensures(validate_a, (a,), v),
    ensures
        r is Ok <==> 1 <= a < 0x8000_0000,
        v is Ok <==> 1 <= a < 0x8000_0000,
        r matches Err(e) ==> e == AnLutError::InvalidA(a),
        v matches Err(e) ==> e == AnLutError::InvalidA(a),
        r matches Ok(t) ==> {
            &&& t.and@.len() == 0x1_0000 && t.or@.len() == 0x1_0000 && t.xor@.len() == 0x1_0000
            &&& forall|x: u8, y: u8|
                t.and@[0x100 * (x as int) + y as int] == a * #[trigger] (x & y)
            &&& forall|x: u8, y: u8|
                t.or@[0x100 * (x as int) + y as int] == a * #[trigger] (x | y)
            &&& forall|x: u8, y: u8|
                t.xor@[0x100 * (x as int) + y as int] == a * #[trigger] (x ^ y)
        },
{
    if let Ok(t) = r {
        assert forall|x: u8, y: u8| t.and@[0x100 * (x as int) + y as int] == a * #[trigger] (x
            & y) by {
            assert((x as u32) & (y as u32) == (x & y) as u32) by (bit_vector);
        }
        assert forall|x: u8, y: u8| t.or@[0x100 * (x as int) + y as int] == a * #[trigger] (x
            | y) by {
            assert((x as u32) | (y as u32) == (x | y) as u32) by (bit_vector);
        }
        assert forall|x: u8, y: u8| t.xor@[0x100 * (x as int) + y as int] == a * #[trigger] (x
            ^ y) by {
            assert((x as u32) ^ (y as u32) == (x ^ y) as u32) by (bit_vector);
        }
    }
}

/// The operations that the tables are built for.
pub proof fn law_apply(x: u32, y: u32, and: u32, or: u32, xor: u32)
    requires
        call_ensures(BinOp::apply, (BinOp::And, x, y), and),
        call_ensures(BinOp::apply, (BinOp::Or, x, y), or),
        call_ensures(BinOp::apply, (BinOp::Xor, x, y), xor),
    ensures
        and == x & y,
        or == x | y,
        xor == x ^ y,
{
}

/// A call works on a view that compares and notes where the memory has a shadow, on a plain one
/// where it has none, and on a shared one; it fails without a memory.
pub proof fn law_view_kind(
    verified: Result<ViewKind, HostcallError>,
    plain: Result<ViewKind, HostcallError>,
    shared: Result<ViewKind, HostcallError>,
    none: Result<ViewKind, HostcallError>,
)
    requires
        call_ensures(view_kind, (MemoryExport::Memory { shadow: true },), verified),
        call_ensures(view_kind, (MemoryExport::Memory { shadow: false },), plain),
        call_ensures(view_kind, (MemoryExport::SharedMemory,), shared),
        call_ensures(view_kind, (MemoryExport::Missing,), none),
    ensures
        verified is Ok && verified->Ok_0 is Verified,
        plain is Ok && plain->Ok_0 is Unshared,
        shared is Ok && shared->Ok_0 is Shared,
        none is Err && none->Err_0 is MissingMemory,
{
}

/// Immediates pass bit by bit.
pub proof fn law_immediates(x: wasmparser::Ieee32, y: Ieee32, u: wasmparser::Ieee64, v: Ieee64)
    requires
        call_ensures(f32_translation, (x,), y),
        call_ensures(f64_translation, (u,), v),
    ensures
        immediate32(y) == parsed32(x),
        immediate64(v) == parsed64(u),
{
}

/// An encoded integer stands in twice the bits of a plain one, which stands in its own.
pub proof fn law_stack_type(narrow: Ty, wide: Ty, enc_narrow: Ty, enc_wide: Ty)
    requires
        call_ensures(wasm_int_stack_type, (false, ValType::I32), narrow),
        call_ensures(wasm_int_stack_type, (false, ValType::I64), wide),
        call_ensures(wasm_int_stack_type, (true, ValType::I32), enc_narrow),
        call_ensures(wasm_int_stack_type, (true, ValType::I64), enc_wide),
    ensures
        narrow == Ty::I32,
        wide == Ty::I64,
        enc_narrow == Ty::I64,
        enc_wide == Ty::I128,
{
}

/// The signature of a block: nothing, one result, or those of the function type at the index.
pub proof fn law_blocktype(
    types: Vec<SubType>,
    t: ValType,
    i: u32,
    empty: (Vec<ValType>, Vec<ValType>),
    single: (Vec<ValType>, Vec<ValType>),
    func: (Vec<ValType>, Vec<ValType>),
)
    requires
        call_ensures(blocktype_params_results, (&types, BlockType::Empty), empty),
        call_ensures(blocktype_params_results, (&types, BlockType::Type(t)), single),
        call_ensures(blocktype_params_results, (&types, BlockType::FuncType(i)), func),
    ensures
        empty.0@.len() == 0 && empty.1@.len() == 0,
        single.0@.len() == 0 && single.1@.len() == 1 && single.1@[0] == t,
        types@[i as int] matches SubType::Func { params, results } ==> func.0@ == params@
            && func.1@ == results@,
{
}

/// A parameter of this type.
pub open spec fn stands_as(an: bool, p: BlockParam, ty: Ty) -> bool {
    match p {
        BlockParam::I32 => ty == if an {
            Ty::I64
        } else {
            Ty::I32
        },
        BlockParam::I64 => ty == if an {
            Ty::I128
        } else {
            Ty::I64
        },
        BlockParam::F32 => ty == Ty::F32,
        BlockParam::F64 => ty == Ty::F64,
        BlockParam::V128 => ty == Ty::I8X16,
        BlockParam::Ref(Ok(l)) => ty == l.ty,
        BlockParam::Ref(Err(_)) => false,
    }
}

/// A parameter that comes into the stack maps.
pub open spec fn in_maps(p: BlockParam) -> bool {
    p matches BlockParam::Ref(Ok(l)) && l.needs_stack_map
}

/// A block has one new value for each parameter, of the parameter's type and in order; those of
/// references that need it, and no others, come into the stack maps. The builder stays where it
/// is. The first reference that could not be translated is the error.
pub proof fn law_block_with_params(
    b: &mut FunctionBuilder<'_>,
    params: Vec<BlockParam>,
    an: bool,
    r: Result<Block, WasmError>,
)
    requires
        call_ensures(block_with_params, (b, &params, an), r),
    ensures
        r matches Ok(block) ==> {
            let vals = block_params(*final(b))[block];
            &&& !block_params(*old(b)).contains_key(block)
            &&& block_params(*final(b)).contains_key(block)
            &&& pristine_blocks(*final(b)).contains(block)
            &&& vals.len() == params@.len()
            &&& forall|i: int|
                0 <= i < vals.len() ==> {
                    &&& !value_types(*old(b)).contains_key(#[trigger] vals[i])
                    &&& value_types(*final(b)).contains_key(vals[i])
                    &&& stands_as(an, params@[i], value_types(*final(b))[vals[i]])
                }
            &&& forall|x: Value|
                stack_map_values(*final(b)).contains(x) <==> stack_map_values(*old(b)).contains(x)
                    || exists|i: int|
                    0 <= i < vals.len() && #[trigger] vals[i] == x && in_maps(
                        params@[i],
                    )
        },
        r matches Err(e) ==> exists|n: int|
            {
                &&& 0 <= n < params@.len()
                &&& #[trigger] params@[n] == BlockParam::Ref(Err(e))
                &&& forall|i: int|
                    0 <= i < n ==> !(#[trigger] params@[i] matches BlockParam::Ref(Err(_)))
            },
        r is Ok <==> forall|i: int|
            0 <= i < params@.len() ==> !(#[trigger] params@[i] matches BlockParam::Ref(Err(_))),
        position(*final(b)) == position(*old(b)),
        accepting(*final(b)) == accepting(*old(b)),
        code(*final(b)) == code(*old(b)),
{
    reveal(has_type);
    let (b0, t) = (*old(b), *final(b));
    if let Err(e) = r {
        let (block, n) = choose|block: Block, n: int|
            {
                &&& 0 <= n < params@.len()
                &&& params@[n] == BlockParam::Ref(Err(e))
                &&& forall|i: int|
                    0 <= i < n ==> !crate::translation::is_error(#[trigger] params@[i])
                &&& #[trigger] crate::translation::has_block(b0, t, block, an, params@, n)
            };
        assert(params@[n] == BlockParam::Ref(Err(e)));
    }
    if let Ok(block) = r {
        let vals = block_params(t)[block];
        assert forall|i: int| 0 <= i < vals.len() implies {
            &&& !value_types(b0).contains_key(#[trigger] vals[i])
            &&& value_types(t).contains_key(vals[i])
            &&& stands_as(an, params@[i], value_types(t)[vals[i]])
        } by {
            assert(!crate::translation::is_error(params@[i]));
        }
        assert forall|x: Value| stack_map_values(t).contains(x) <==> stack_map_values(b0).contains(
            x,
        ) || exists|i: int|
            0 <= i < vals.len() && #[trigger] vals[i] == x && in_maps(
                        params@[i],
                    ) by {
            let mapped = crate::translation::mapped_values(vals, params@);
            assert(stack_map_values(t).contains(x) <==> stack_map_values(b0).contains(x)
                || mapped.contains(x));
            if mapped.contains(x) {
                let i = choose|i: int|
                    0 <= i < vals.len() && #[trigger] vals[i] == x
                        && crate::translation::is_mapped(params@[i]);
                assert(vals[i] == x);
            }
            if exists|i: int|
                0 <= i < vals.len() && #[trigger] vals[i] == x && in_maps(
                        params@[i],
                    ) {
                let i = choose|i: int|
                    0 <= i < vals.len() && #[trigger] vals[i] == x && in_maps(
                        params@[i],
                    );
                assert(crate::translation::is_mapped(params@[i]));
            }
        }
    }
}

/// A builder that is at no block comes to be at the one given, which then takes instructions; one
/// that is at a block stays there.
pub proof fn law_enter_block(b: &mut FunctionBuilder<'_>, block: Block, entered: bool)
    requires
        call_ensures(enter_block, (b, block), entered),
    ensures
        entered == position(*old(b)) is None,
        entered ==> position(*final(b)) == Some(block) && accepting(*final(b)) && code(
            *final(b),
        ).len() == 0,
        !entered ==> *final(b) == *old(b),
        value_types(*final(b)) == value_types(*old(b)),
        block_params(*final(b)) == block_params(*old(b)),
{
}

/// The label of the context is the largest number but one.
pub proof fn law_label(r: ValueLabel)
    requires
        call_ensures(get_vmctx_value_label, (), r),
    ensures
        r.0 == u32::MAX - 1,
{
}

} // verus!
