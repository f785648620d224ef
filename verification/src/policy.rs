//! Which modules can be compiled with the encoding.
use crate::translation::ValType;
use vstd::prelude::*;

verus! {

/// The classes of operators.
#[derive(Clone, Copy, Debug, PartialEq, Eq, Structural)]
pub enum Operator {
    /// On integers, memory, tables, locals, globals and control flow.
    Integer,
    FloatingPoint,
    Simd,
    Atomic,
    /// On references as values.
    Reference,
    Gc,
    Exception,
}

/// The element types of tables.
#[derive(Clone, Copy, Debug, PartialEq, Eq, Structural)]
pub enum TableElement {
    FuncRef,
    Other,
}

/// What a module is made of, as far as it matters to the encoding.
#[derive(Clone, Copy, Debug, PartialEq, Eq, Structural)]
pub enum Construct {
    /// The type of a parameter, a result, a local or a global.
    Value(ValType),
    Table(TableElement),
    Memory { shared: bool },
    Operator(Operator),
}

/// Why a module cannot be compiled with the encoding.
#[derive(Clone, Copy, Debug, PartialEq, Eq, Structural)]
pub enum Refusal {
    FloatingPoint,
    Simd,
    ReferenceType,
    SharedMemory,
    Atomic,
    Gc,
    Exceptions,
}

impl Refusal {
    /// The text of the refusal.
    pub open spec fn text(self) -> Seq<char> {
        match self {
            Refusal::FloatingPoint => "AN-encoding does not support floating-point"@,
            Refusal::Simd => "AN-encoding does not support SIMD"@,
            Refusal::ReferenceType => "AN-encoding does not support reference types as values"@,
            Refusal::SharedMemory => "AN-encoding does not support shared memories"@,
            Refusal::Atomic => "AN-encoding does not support atomic operators"@,
            Refusal::Gc => "AN-encoding does not support garbage-collected types"@,
            Refusal::Exceptions => "AN-encoding does not support exceptions"@,
        }
    }

    /// The text of the refusal.
    pub fn message(self) -> (r: &'static str)
        ensures
            r@ == self.text(),
    {
        match self {
            Refusal::FloatingPoint => "AN-encoding does not support floating-point",
            Refusal::Simd => "AN-encoding does not support SIMD",
            Refusal::ReferenceType => "AN-encoding does not support reference types as values",
            Refusal::SharedMemory => "AN-encoding does not support shared memories",
            Refusal::Atomic => "AN-encoding does not support atomic operators",
            Refusal::Gc => "AN-encoding does not support garbage-collected types",
            Refusal::Exceptions => "AN-encoding does not support exceptions",
        }
    }
}

/// Why a construct is refused, if it is. Integers can be encoded; references, which are handles
/// without an integer, and numbers of other kinds cannot. Tables of functions are allowed, as
/// they back the indirect calls.
pub open spec fn refusal(c: Construct) -> Option<Refusal> {
    match c {
        Construct::Value(ValType::I32) | Construct::Value(ValType::I64) => None,
        Construct::Value(ValType::F32) | Construct::Value(ValType::F64) => Some(
            Refusal::FloatingPoint,
        ),
        Construct::Value(ValType::V128) => Some(Refusal::Simd),
        Construct::Value(ValType::Ref(_)) => Some(Refusal::ReferenceType),
        Construct::Table(TableElement::FuncRef) => None,
        Construct::Table(TableElement::Other) => Some(Refusal::ReferenceType),
        Construct::Memory { shared } => if shared {
            Some(Refusal::SharedMemory)
        } else {
            None
        },
        Construct::Operator(Operator::Integer) => None,
        Construct::Operator(Operator::FloatingPoint) => Some(Refusal::FloatingPoint),
        Construct::Operator(Operator::Simd) => Some(Refusal::Simd),
        Construct::Operator(Operator::Atomic) => Some(Refusal::Atomic),
        Construct::Operator(Operator::Reference) => Some(Refusal::ReferenceType),
        Construct::Operator(Operator::Gc) => Some(Refusal::Gc),
        Construct::Operator(Operator::Exception) => Some(Refusal::Exceptions),
    }
}

/// Why a construct is refused, if it is.
fn refusal_of(c: Construct) -> (r: Option<Refusal>)
    ensures
        r == refusal(c),
{
    match c {
        Construct::Value(t) => match t {
            ValType::I32 | ValType::I64 => None,
            ValType::F32 | ValType::F64 => Some(Refusal::FloatingPoint),
            ValType::V128 => Some(Refusal::Simd),
            ValType::Ref(_) => Some(Refusal::ReferenceType),
        },
        Construct::Table(e) => match e {
            TableElement::FuncRef => None,
            TableElement::Other => Some(Refusal::ReferenceType),
        },
        Construct::Memory { shared } => if shared {
            Some(Refusal::SharedMemory)
        } else {
            None
        },
        Construct::Operator(op) => match op {
            Operator::Integer => None,
            Operator::FloatingPoint => Some(Refusal::FloatingPoint),
            Operator::Simd => Some(Refusal::Simd),
            Operator::Atomic => Some(Refusal::Atomic),
            Operator::Reference => Some(Refusal::ReferenceType),
            Operator::Gc => Some(Refusal::Gc),
            Operator::Exception => Some(Refusal::Exceptions),
        },
    }
}

/// Checks whether a module can be compiled: without encoding every module can, with encoding
/// one that holds nothing that is refused. The first construct that is decides the refusal.
pub fn check_module(an_encoding: bool, constructs: &Vec<Construct>) -> (r: Result<(), Refusal>)
    ensures
        r is Ok <==> !an_encoding || forall|i: int|
            0 <= i < constructs@.len() ==> refusal(#[trigger] constructs@[i]) is None,
        r matches Err(e) ==> exists|i: int|
            {
                &&& 0 <= i < constructs@.len()
                &&& refusal(#[trigger] constructs@[i]) == Some(e)
                &&& forall|j: int| 0 <= j < i ==> refusal(#[trigger] constructs@[j]) is None
            },
{
    if !an_encoding {
        return Ok(());
    }
    let mut i: usize = 0;
    while i < constructs.len()
        invariant
            an_encoding,
            i <= constructs@.len(),
            forall|j: int| 0 <= j < i ==> refusal(#[trigger] constructs@[j]) is None,
        decreases constructs@.len() - i,
    {
        match refusal_of(constructs[i]) {
            Some(e) => {
                assert(refusal(constructs@[i as int]) == Some(e));
                return Err(e);
            },
            None => {},
        }
        i = i + 1;
    }
    Ok(())
}

} // verus!
