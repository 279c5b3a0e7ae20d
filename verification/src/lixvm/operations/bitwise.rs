//! `& | ^ << >>` on integers.
use vstd::prelude::*;
use crate::lixvm::value::{Value, ValueV};
use crate::lixvm::error::{VmError, VmErrorV};
use crate::lixvm::operations::comparison::value_agrees;

verus! {

/// The bitwise operations.
#[derive(Debug, Clone, Copy, PartialEq, Eq, Structural)]
pub enum BitOp {
    And,
    Or,
    Xor,
    Shl,
    Shr,
}

/// The name of an operation in type errors.
pub open spec fn bit_name(op: BitOp) -> Seq<char> {
    match op {
        BitOp::And => "bitand"@,
        BitOp::Or => "bitor"@,
        BitOp::Xor => "bitxor"@,
        BitOp::Shl => "shl"@,
        BitOp::Shr => "shr"@,
    }
}

/// A bitwise operation on two ints; a shift by a count outside `0..64` is refused.
pub open spec fn bit_spec(op: BitOp, l: ValueV, r: ValueV) -> Result<ValueV, VmErrorV> {
    match (l, r) {
        (ValueV::Int(a), ValueV::Int(b)) => match op {
            BitOp::And => Ok(ValueV::Int(a & b)),
            BitOp::Or => Ok(ValueV::Int(a | b)),
            BitOp::Xor => Ok(ValueV::Int(a ^ b)),
            BitOp::Shl => if 0 <= b < 64 {
                Ok(ValueV::Int(a << (b as u32)))
            } else {
                Err(VmErrorV::Other("shift out of range"@))
            },
            BitOp::Shr => if 0 <= b < 64 {
                Ok(ValueV::Int(a >> (b as u32)))
            } else {
                Err(VmErrorV::Other("shift out of range"@))
            },
        },
        _ => Err(VmErrorV::OperandTypes(bit_name(op), l, r)),
    }
}

fn name_of(op: BitOp) -> (s: String)
    ensures
        s@ == bit_name(op),
{
    match op {
        BitOp::And => "bitand".to_owned(),
        BitOp::Or => "bitor".to_owned(),
        BitOp::Xor => "bitxor".to_owned(),
        BitOp::Shl => "shl".to_owned(),
        BitOp::Shr => "shr".to_owned(),
    }
}

/// `l op r` for a bitwise operation.
pub fn bitwise(op: BitOp, l: Value, r: Value) -> (res: Result<Value, VmError>)
    ensures
        value_agrees(res, bit_spec(op, l@, r@)),
{
    match (l, r) {
        (Value::Int(a), Value::Int(b)) => match op {
            BitOp::And => Ok(Value::Int(a & b)),
            BitOp::Or => Ok(Value::Int(a | b)),
            BitOp::Xor => Ok(Value::Int(a ^ b)),
            BitOp::Shl => if 0 <= b && b < 64 {
                Ok(Value::Int(a << (b as u32)))
            } else {
                Err(VmError::Other("shift out of range".to_owned()))
            },
            BitOp::Shr => if 0 <= b && b < 64 {
                Ok(Value::Int(a >> (b as u32)))
            } else {
                Err(VmError::Other("shift out of range".to_owned()))
            },
        },
        (a, b) => Err(VmError::OperandTypes(name_of(op), a, b)),
    }
}

} // verus!
