//! `== != < > <= >=` on values. Equality is defined on all values; ordering on ints.
use vstd::prelude::*;
use crate::lixvm::value::{Value, ValueV, value_eq, values_equal};
use crate::lixvm::error::{VmError, VmErrorV};

verus! {

/// `l == r`.
pub fn eq(l: Value, r: Value) -> (v: Value)
    ensures
        v@ == ValueV::Bool(value_eq(l@, r@)),
{
    Value::Bool(values_equal(&l, &r))
}

/// `l != r`.
pub fn not_eq(l: Value, r: Value) -> (v: Value)
    ensures
        v@ == ValueV::Bool(!value_eq(l@, r@)),
{
    Value::Bool(!values_equal(&l, &r))
}

/// An ordering of two ints, or a type error naming the operation.
pub open spec fn order_spec(l: ValueV, r: ValueV, name: Seq<char>, holds: spec_fn(i64, i64) -> bool) -> Result<ValueV, VmErrorV> {
    match (l, r) {
        (ValueV::Int(a), ValueV::Int(b)) => Ok(ValueV::Bool(holds(a, b))),
        _ => Err(VmErrorV::OperandTypes(name, l, r)),
    }
}

pub open spec fn value_agrees(res: Result<Value, VmError>, s: Result<ValueV, VmErrorV>) -> bool {
    match s {
        Ok(v) => res matches Ok(x) && x@ == v,
        Err(e) => res matches Err(x) && x@ == e,
    }
}

/// `l < r`.
pub fn lt(l: Value, r: Value) -> (res: Result<Value, VmError>)
    ensures
        value_agrees(res, order_spec(l@, r@, "lt"@, |a: i64, b: i64| a < b)),
{
    match (l, r) {
        (Value::Int(a), Value::Int(b)) => Ok(Value::Bool(a < b)),
        (a, b) => Err(VmError::OperandTypes("lt".to_owned(), a, b)),
    }
}

/// `l > r`.
pub fn gt(l: Value, r: Value) -> (res: Result<Value, VmError>)
    ensures
        value_agrees(res, order_spec(l@, r@, "gt"@, |a: i64, b: i64| a > b)),
{
    match (l, r) {
        (Value::Int(a), Value::Int(b)) => Ok(Value::Bool(a > b)),
        (a, b) => Err(VmError::OperandTypes("gt".to_owned(), a, b)),
    }
}

/// `l <= r`.
pub fn lt_eq(l: Value, r: Value) -> (res: Result<Value, VmError>)
    ensures
        value_agrees(res, order_spec(l@, r@, "le"@, |a: i64, b: i64| a <= b)),
{
    match (l, r) {
        (Value::Int(a), Value::Int(b)) => Ok(Value::Bool(a <= b)),
        (a, b) => Err(VmError::OperandTypes("le".to_owned(), a, b)),
    }
}

/// `l >= r`.
pub fn gt_eq(l: Value, r: Value) -> (res: Result<Value, VmError>)
    ensures
        value_agrees(res, order_spec(l@, r@, "ge"@, |a: i64, b: i64| a >= b)),
{
    match (l, r) {
        (Value::Int(a), Value::Int(b)) => Ok(Value::Bool(a >= b)),
        (a, b) => Err(VmError::OperandTypes("ge".to_owned(), a, b)),
    }
}

} // verus!
