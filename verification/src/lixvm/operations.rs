//! The operators of the VM: arithmetic, comparison and logic.
pub mod arithmetic;
pub mod comparison;
pub mod logic;
pub mod bitwise;

use vstd::prelude::*;
use crate::lixvm::value::{Value, ValueV};

verus! {

/// A floating-point operation, left to the host.
#[derive(Debug, Clone, Copy, PartialEq, Eq, Structural)]
pub enum FloatOp {
    Add,
    Sub,
    Mul,
    Div,
    Rem,
}

/// What an arithmetic operation comes to: a value, or a floating-point operation on the
/// two operands (ints or floats) that the host carries out.
#[derive(Debug)]
pub enum Outcome {
    Value(Value),
    Float(FloatOp, Value, Value),
}

pub enum OutcomeV {
    Value(ValueV),
    Float(FloatOp, ValueV, ValueV),
}

impl View for Outcome {
    type V = OutcomeV;

    open spec fn view(&self) -> OutcomeV {
        match self {
            Outcome::Value(v) => OutcomeV::Value(v@),
            Outcome::Float(op, l, r) => OutcomeV::Float(*op, l@, r@),
        }
    }
}

} // verus!
