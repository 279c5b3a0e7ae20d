//! Why a program stops with an error.
use vstd::prelude::*;
use crate::lixvm::value::{Value, ValueV};

verus! {

/// A run-time error of the VM. Each variant carries what its message shows; the message
/// itself (which prints values in their debug form) is written by the host.
#[derive(Debug)]
pub enum VmError {
    /// An operation on operands of the wrong kinds: the operation's name and the operands.
    OperandTypes(String, Value, Value),
    /// A condition that is not a boolean.
    ExpectedBool(Value),
    /// A built-in method given an argument of the wrong kind: the method and its first
    /// argument, if any.
    ArgumentType(String, Option<Value>),
    UndefinedVar(String),
    UndefinedFunc(String),
    /// A method that the object's type does not define: the type and the method.
    UndefinedMethod(String, String),
    /// A method called on a value that has no methods.
    NoMethod(String, Value),
    /// A method that a built-in kind does not have: the kind (`string`, `bytes`, `list`,
    /// `map`) and the method.
    UnknownMethod(String, String),
    /// A property that a string, bytes or list does not have: the kind and the property.
    NoProperty(String, String),
    /// A map read as `map.key` without that key.
    KeyNotInMap(String),
    /// An object without the field.
    NoField(String),
    /// A field read from a value that has none.
    CannotGetField(Value),
    /// A field written on a value that is not an object.
    CannotSetField,
    /// A map indexed with a key it does not hold.
    KeyNotFound(String),
    /// A value that cannot be indexed with the index.
    CannotIndex(Value, Value),
    /// A value whose element cannot be set at the index.
    CannotIndexSet(Value, Value),
    /// An index out of bounds; the payload is the index.
    IndexError(String),
    DivisionByZero,
    StackUnderflow,
    UncaughtError(Value),
    Other(String),
}

pub enum VmErrorV {
    OperandTypes(Seq<char>, ValueV, ValueV),
    ExpectedBool(ValueV),
    ArgumentType(Seq<char>, Option<ValueV>),
    UndefinedVar(Seq<char>),
    UndefinedFunc(Seq<char>),
    UndefinedMethod(Seq<char>, Seq<char>),
    NoMethod(Seq<char>, ValueV),
    UnknownMethod(Seq<char>, Seq<char>),
    NoProperty(Seq<char>, Seq<char>),
    KeyNotInMap(Seq<char>),
    NoField(Seq<char>),
    CannotGetField(ValueV),
    CannotSetField,
    KeyNotFound(Seq<char>),
    CannotIndex(ValueV, ValueV),
    CannotIndexSet(ValueV, ValueV),
    IndexError(Seq<char>),
    DivisionByZero,
    StackUnderflow,
    UncaughtError(ValueV),
    Other(Seq<char>),
}

impl View for VmError {
    type V = VmErrorV;

    open spec fn view(&self) -> VmErrorV {
        match self {
            VmError::OperandTypes(s, a, b) => VmErrorV::OperandTypes(s@, a@, b@),
            VmError::ExpectedBool(v) => VmErrorV::ExpectedBool(v@),
            VmError::ArgumentType(s, a) => VmErrorV::ArgumentType(
                s@,
                match a {
                    Some(v) => Some(v@),
                    None => None,
                },
            ),
            VmError::UndefinedVar(s) => VmErrorV::UndefinedVar(s@),
            VmError::UndefinedFunc(s) => VmErrorV::UndefinedFunc(s@),
            VmError::UndefinedMethod(t, m) => VmErrorV::UndefinedMethod(t@, m@),
            VmError::NoMethod(m, v) => VmErrorV::NoMethod(m@, v@),
            VmError::UnknownMethod(k, m) => VmErrorV::UnknownMethod(k@, m@),
            VmError::NoProperty(k, f) => VmErrorV::NoProperty(k@, f@),
            VmError::KeyNotInMap(s) => VmErrorV::KeyNotInMap(s@),
            VmError::NoField(s) => VmErrorV::NoField(s@),
            VmError::CannotGetField(v) => VmErrorV::CannotGetField(v@),
            VmError::CannotSetField => VmErrorV::CannotSetField,
            VmError::KeyNotFound(s) => VmErrorV::KeyNotFound(s@),
            VmError::CannotIndex(a, b) => VmErrorV::CannotIndex(a@, b@),
            VmError::CannotIndexSet(a, b) => VmErrorV::CannotIndexSet(a@, b@),
            VmError::IndexError(s) => VmErrorV::IndexError(s@),
            VmError::DivisionByZero => VmErrorV::DivisionByZero,
            VmError::StackUnderflow => VmErrorV::StackUnderflow,
            VmError::UncaughtError(v) => VmErrorV::UncaughtError(v@),
            VmError::Other(s) => VmErrorV::Other(s@),
        }
    }
}

} // verus!
