//! The parts of function translation that depend on the encoding: the types in which values
//! stand on the operand stack, and the blocks that take them as parameters.
use crate::clif::builder::{
    accepting, append_block_param, block_params, code, create_block, current_block,
    declare_value_needs_stack_map, has_type, position, pristine_blocks, stack_map_values,
    switch_to_block, value_types,
};
use crate::clif::machine::{Block, Instr, Ty, Value};
use cranelift_frontend::FunctionBuilder;
use vstd::prelude::*;

verus! {

/// A reference type, by number.
#[derive(Clone, Copy, Debug, PartialEq, Eq, Structural)]
pub struct RefType(pub u32);

/// The type of a value.
#[derive(Clone, Copy, Debug, PartialEq, Eq, Structural)]
pub enum ValType {
    I32,
    I64,
    F32,
    F64,
    V128,
    Ref(RefType),
}

/// The type of a block.
#[derive(Clone, Copy, Debug, PartialEq, Eq, Structural)]
pub enum BlockType {
    /// No parameters and no results.
    Empty,
    /// No parameters and one result.
    Type(ValType),
    /// The function type of this index.
    FuncType(u32),
}

/// A type of the module's type section.
pub enum SubType {
    Func { params: Vec<ValType>, results: Vec<ValType> },
    Other,
}

/// Why a reference type cannot be translated.
#[derive(Clone, Copy, Debug, PartialEq, Eq, Structural)]
pub enum WasmError {
    InvalidWebAssembly,
    Unsupported,
    ImplLimitExceeded,
    User,
}

/// How values of a reference type are held, and whether they must appear in stack maps.
#[derive(Clone, Copy, Debug, PartialEq, Eq, Structural)]
pub struct RefLowering {
    pub ty: Ty,
    pub needs_stack_map: bool,
}

/// A block parameter; a reference type comes with what its translation gave.
#[derive(Clone, Copy, Debug)]
pub enum BlockParam {
    I32,
    I64,
    F32,
    F64,
    V128,
    Ref(Result<RefLowering, WasmError>),
}

/// The parameter and result types of a block type.
pub open spec fn signature(types: Seq<SubType>, ty: BlockType) -> (Seq<ValType>, Seq<ValType>) {
    match ty {
        BlockType::Empty => (Seq::empty(), Seq::empty()),
        BlockType::Type(t) => (Seq::empty(), seq![t]),
        BlockType::FuncType(i) => match types[i as int] {
            SubType::Func { params, results } => (params@, results@),
            SubType::Other => (Seq::empty(), Seq::empty()),
        },
    }
}

/// A copy of a list of types.
fn copy_types(types: &Vec<ValType>) -> (r: Vec<ValType>)
    ensures
        r@ == types@,
{
    let mut out: Vec<ValType> = Vec::new();
    let mut i: usize = 0;
    while i < types.len()
        invariant
            i <= types@.len(),
            out@ == types@.take(i as int),
        decreases types@.len() - i,
    {
        out.push(types[i]);
        i = i + 1;
        assert(out@ =~= types@.take(i as int));
    }
    assert(types@.take(i as int) =~= types@);
    out
}

/// The parameter and result types of a block type, which refers to a function type where it
/// refers to a type of the module.
pub fn blocktype_params_results(types: &Vec<SubType>, ty: BlockType) -> (r: (
    Vec<ValType>,
    Vec<ValType>,
))
    requires
        ty matches BlockType::FuncType(i) ==> i < types@.len() && types@[i as int] is Func,
    ensures
        (r.0@, r.1@) == signature(types@, ty),
{
    match ty {
        BlockType::Empty => (Vec::new(), Vec::new()),
        BlockType::Type(t) => {
            let mut results: Vec<ValType> = Vec::new();
            results.push(t);
            assert(results@ =~= seq![t]);
            (Vec::new(), results)
        },
        BlockType::FuncType(ty_index) => match &types[ty_index as usize] {
            SubType::Func { params, results } => (copy_types(params), copy_types(results)),
            SubType::Other => (Vec::new(), Vec::new()),
        },
    }
}

/// The type in which an integer stands on the operand stack. Encoded integers take twice the
/// width, so that the product with the constant fits.
pub open spec fn stack_type(an_encoding: bool, ty: ValType) -> Ty {
    match (an_encoding, ty) {
        (true, ValType::I32) => Ty::I64,
        (true, ValType::I64) => Ty::I128,
        (false, ValType::I32) => Ty::I32,
        (false, _) => Ty::I64,
        (true, _) => Ty::I128,
    }
}

/// The type in which an integer stands on the operand stack.
pub fn wasm_int_stack_type(an_encoding: bool, ty: ValType) -> (r: Ty)
    requires
        ty is I32 || ty is I64,
    ensures
        r == stack_type(an_encoding, ty),
{
    match ty {
        ValType::I32 => if an_encoding {
            Ty::I64
        } else {
            Ty::I32
        },
        _ => if an_encoding {
            Ty::I128
        } else {
            Ty::I64
        },
    }
}

/// The type of a block parameter.
pub open spec fn param_type(an_encoding: bool, p: BlockParam) -> Ty {
    match p {
        BlockParam::I32 => stack_type(an_encoding, ValType::I32),
        BlockParam::I64 => stack_type(an_encoding, ValType::I64),
        BlockParam::F32 => Ty::F32,
        BlockParam::F64 => Ty::F64,
        BlockParam::V128 => Ty::I8X16,
        BlockParam::Ref(Ok(l)) => l.ty,
        BlockParam::Ref(Err(_)) => Ty::I64,
    }
}

/// A parameter that could not be translated.
pub open spec fn is_error(p: BlockParam) -> bool {
    p matches BlockParam::Ref(Err(_))
}

/// A parameter that must appear in stack maps.
pub open spec fn is_mapped(p: BlockParam) -> bool {
    p matches BlockParam::Ref(Ok(l)) && l.needs_stack_map
}

/// The values of those parameters that must appear in stack maps.
pub open spec fn mapped_values(vals: Seq<Value>, params: Seq<BlockParam>) -> Set<Value> {
    Set::new(|x: Value| exists|i: int| 0 <= i < vals.len() && #[trigger] vals[i] == x && is_mapped(params[i]))
}

/// The builder has one more block, `block`, with the first `n` parameters, each a new value of
/// its type; those that need it are recorded for stack maps, and nothing else has changed.
pub open spec fn has_block(
    b: FunctionBuilder<'_>,
    after: FunctionBuilder<'_>,
    block: Block,
    an_encoding: bool,
    params: Seq<BlockParam>,
    n: int,
) -> bool {
    let vals = block_params(after)[block];
    &&& !block_params(b).contains_key(block)
    &&& block_params(after) == block_params(b).insert(block, vals)
    &&& pristine_blocks(after) == pristine_blocks(b).insert(block)
    &&& vals.len() == n
    &&& forall|i: int|
        0 <= i < n ==> {
            &&& !value_types(b).contains_key(#[trigger] vals[i])
            &&& has_type(after, vals[i], param_type(an_encoding, params[i]))
        }
    &&& forall|x: Value, ty: Ty| has_type(b, x, ty) ==> #[trigger] has_type(after, x, ty)
    &&& stack_map_values(after) == stack_map_values(b).union(mapped_values(vals, params))
    &&& position(after) == position(b)
    &&& accepting(after) == accepting(b)
    &&& code(after) == code(b)
}

/// One more parameter adds its value where it must appear in stack maps.
proof fn lemma_mapped_push(vals: Seq<Value>, v: Value, params: Seq<BlockParam>)
    ensures
        mapped_values(vals.push(v), params) == if is_mapped(params[vals.len() as int]) {
            mapped_values(vals, params).insert(v)
        } else {
            mapped_values(vals, params)
        },
{
    let after = mapped_values(vals.push(v), params);
    let n = vals.len() as int;
    assert forall|x: Value| mapped_values(vals, params).contains(x) implies after.contains(x) by {
        let i = choose|i: int| 0 <= i < n && #[trigger] vals[i] == x && is_mapped(params[i]);
        assert(vals.push(v)[i] == x);
    }
    if is_mapped(params[n]) {
        assert(vals.push(v)[n] == v);
        assert(after =~= mapped_values(vals, params).insert(v));
    } else {
        assert(after =~= mapped_values(vals, params));
    }
}

/// Creates a block with the given parameters, of which there are at most 65536. Where the translation of a parameter failed, the
/// first such error is returned; the block then has the parameters before it.
pub fn block_with_params(
    builder: &mut FunctionBuilder<'_>,
    params: &Vec<BlockParam>,
    an_encoding: bool,
) -> (r: Result<Block, WasmError>)
    requires
        params@.len() <= 0x1_0000,
    ensures
        match r {
            Ok(block) => {
                &&& forall|i: int| 0 <= i < params@.len() ==> !is_error(#[trigger] params@[i])
                &&& has_block(
                    *old(builder),
                    *final(builder),
                    block,
                    an_encoding,
                    params@,
                    params@.len() as int,
                )
            },
            Err(e) => exists|block: Block, n: int|
                {
                    &&& 0 <= n < params@.len()
                    &&& params@[n] == BlockParam::Ref(Err(e))
                    &&& forall|i: int| 0 <= i < n ==> !is_error(#[trigger] params@[i])
                    &&& #[trigger] has_block(
                        *old(builder),
                        *final(builder),
                        block,
                        an_encoding,
                        params@,
                        n,
                    )
                },
        },
{
    let ghost b0 = *old(builder);
    let block = create_block(builder);
    proof {
        reveal(has_type);
        assert(block_params(*builder) =~= block_params(b0).insert(
            block,
            block_params(*builder)[block],
        ));
        assert(stack_map_values(*builder) =~= stack_map_values(b0).union(
            mapped_values(Seq::empty(), params@),
        ));
    }
    let mut i: usize = 0;
    while i < params.len()
        invariant
            b0 == *old(builder),
            i <= params@.len() <= 0x1_0000,
            forall|j: int| 0 <= j < i ==> !is_error(#[trigger] params@[j]),
            has_block(b0, *builder, block, an_encoding, params@, i as int),
        decreases params@.len() - i,
    {
        let ghost b1 = *builder;
        let (ty, mapped) = match params[i] {
            BlockParam::I32 => (wasm_int_stack_type(an_encoding, ValType::I32), false),
            BlockParam::I64 => (wasm_int_stack_type(an_encoding, ValType::I64), false),
            BlockParam::F32 => (Ty::F32, false),
            BlockParam::F64 => (Ty::F64, false),
            BlockParam::V128 => (Ty::I8X16, false),
            BlockParam::Ref(lowering) => match lowering {
                Ok(l) => (l.ty, l.needs_stack_map),
                Err(e) => {
                    assert(params@[i as int] == BlockParam::Ref(Err(e)));
                    assert(has_block(
                        *old(builder),
                        *builder,
                        block,
                        an_encoding,
                        params@,
                        i as int,
                    ));
                    return Err(e);
                },
            },
        };
        let val = append_block_param(builder, block, ty);
        if mapped {
            declare_value_needs_stack_map(builder, val);
        }
        proof {
            reveal(has_type);
            let vals = block_params(*builder)[block];
            assert(vals =~= block_params(b1)[block].push(val));
            assert(block_params(*builder) =~= block_params(b0).insert(block, vals));
            assert forall|j: int| 0 <= j < i + 1 implies {
                &&& !value_types(b0).contains_key(#[trigger] vals[j])
                &&& has_type(*builder, vals[j], param_type(an_encoding, params@[j]))
            } by {
                if j < i {
                    assert(vals[j] == block_params(b1)[block][j]);
                } else if value_types(b0).contains_key(val) {
                    let ty0 = value_types(b0)[val];
                    assert(has_type(b0, val, ty0) ==> has_type(b1, val, ty0));
                }
            }
            assert forall|x: Value, x_ty: Ty| has_type(b0, x, x_ty) implies #[trigger] has_type(
                *builder,
                x,
                x_ty,
            ) by {
                assert(has_type(b1, x, x_ty));
            }
            lemma_mapped_push(block_params(b1)[block], val, params@);
            assert(stack_map_values(*builder) =~= stack_map_values(b0).union(
                mapped_values(vals, params@),
            ));
        }
        i = i + 1;
    }
    Ok(block)
}

/// Positions a builder that is at no block at a block without instructions, where the emitters
/// can then add some. Returns whether the builder was at no block; else it stays where it is.
pub fn enter_block(builder: &mut FunctionBuilder<'_>, block: Block) -> (entered: bool)
    requires
        block_params(*old(builder)).contains_key(block),
        pristine_blocks(*old(builder)).contains(block),
    ensures
        entered <==> position(*old(builder)) is None,
        !entered ==> *final(builder) == *old(builder),
        entered ==> {
            &&& accepting(*final(builder))
            &&& position(*final(builder)) == Some(block)
            &&& code(*final(builder)) == Seq::<Instr>::empty()
            &&& block_params(*final(builder)) == block_params(*old(builder))
            &&& pristine_blocks(*final(builder)) == pristine_blocks(*old(builder))
            &&& stack_map_values(*final(builder)) == stack_map_values(*old(builder))
            &&& value_types(*final(builder)) == value_types(*old(builder))
            &&& forall|x: Value, ty: Ty|
                has_type(*old(builder), x, ty) <==> #[trigger] has_type(*final(builder), x, ty)
        },
{
    if current_block(builder).is_some() {
        return false;
    }
    switch_to_block(builder, block);
    proof {
        reveal(has_type);
    }
    true
}

/// The label under which the VM context is tracked as a value.
#[derive(Clone, Copy, Debug, PartialEq, Eq, Structural)]
pub struct ValueLabel(pub u32);

/// The special label of the VM context.
pub fn get_vmctx_value_label() -> (r: ValueLabel)
    ensures
        r.0 == 0xffff_fffe,
{
    ValueLabel(0xffff_fffe)
}

} // verus!
