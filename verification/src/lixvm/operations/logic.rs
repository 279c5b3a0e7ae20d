//! `and`, `or`, `not` and truth of conditions: all on booleans only.
use vstd::prelude::*;
use crate::lixvm::value::{Value, ValueV, copy_value};
use crate::lixvm::error::{VmError, VmErrorV};
use crate::lixvm::operations::comparison::value_agrees;

verus! {

/// A boolean combination of two booleans, or a type error naming the operation.
pub open spec fn bool_spec(l: ValueV, r: ValueV, name: Seq<char>, f: spec_fn(bool, bool) -> bool) -> Result<ValueV, VmErrorV> {
    match (l, r) {
        (ValueV::Bool(a), ValueV::Bool(b)) => Ok(ValueV::Bool(f(a, b))),
        _ => Err(VmErrorV::OperandTypes(name, l, r)),
    }
}

/// `l and r`.
pub fn and(l: Value, r: Value) -> (res: Result<Value, VmError>)
    ensures
        value_agrees(res, bool_spec(l@, r@, "and"@, |a: bool, b: bool| a && b)),
{
    match (l, r) {
        (Value::Bool(a), Value::Bool(b)) => Ok(Value::Bool(a && b)),
        (a, b) => Err(VmError::OperandTypes("and".to_owned(), a, b)),
    }
}

/// `l or r`.
pub fn or(l: Value, r: Value) -> (res: Result<Value, VmError>)
    ensures
        value_agrees(res, bool_spec(l@, r@, "or"@, |a: bool, b: bool| a || b)),
{
    match (l, r) {
        (Value::Bool(a), Value::Bool(b)) => Ok(Value::Bool(a || b)),
        (a, b) => Err(VmError::OperandTypes("or".to_owned(), a, b)),
    }
}

/// `not v`.
pub fn not(v: Value) -> (res: Result<Value, VmError>)
    ensures
        match v@ {
            ValueV::Bool(b) => res matches Ok(x) && x@ == ValueV::Bool(!b),
            _ => res matches Err(x) && x@ == VmErrorV::OperandTypes("not"@, v@, ValueV::Bool(false)),
        },
{
    match v {
        Value::Bool(b) => Ok(Value::Bool(!b)),
        a => Err(VmError::OperandTypes("not".to_owned(), a, Value::Bool(false))),
    }
}

/// The truth of a condition, which must be a boolean.
pub fn is_truthy(v: &Value) -> (res: Result<bool, VmError>)
    ensures
        match v@ {
            ValueV::Bool(b) => res == Ok::<bool, VmError>(b),
            _ => res matches Err(x) && x@ == VmErrorV::ExpectedBool(v@),
        },
{
    match v {
        Value::Bool(b) => Ok(*b),
        _ => Err(VmError::ExpectedBool(copy_value(v))),
    }
}

} // verus!
