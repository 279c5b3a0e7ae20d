//! `+ - * / %` on values. Integer arithmetic is exact and fails on overflow; an operation
//! with a float operand is handed to the host.
use vstd::prelude::*;
use crate::lixvm::value::{Value, ValueV, is_zero_bits, float_is_zero};
use crate::lixvm::error::{VmError, VmErrorV};
use crate::lixvm::operations::{FloatOp, Outcome, OutcomeV};

verus! {

pub type ArithRes = Result<OutcomeV, VmErrorV>;

/// Whether a value is an int or a float.
pub open spec fn is_number(v: ValueV) -> bool {
    v is Int || v is Float
}

/// An integer result, or an overflow error.
pub open spec fn int_result(x: int) -> ArithRes {
    if i64::MIN <= x <= i64::MAX {
        Ok(OutcomeV::Value(ValueV::Int(x as i64)))
    } else {
        Err(VmErrorV::Other("integer overflow"@))
    }
}

/// Whether an operand is a zero divisor.
pub open spec fn is_zero_value(v: ValueV) -> bool {
    match v {
        ValueV::Int(n) => n == 0,
        ValueV::Float(b, _) => float_is_zero(b),
        _ => false,
    }
}

/// The quotient of integer division, rounded toward zero.
pub open spec fn trunc_div(a: int, b: int) -> int {
    let q = (if a < 0 { -a } else { a }) / (if b < 0 { -b } else { b });
    if (a < 0) != (b < 0) {
        -q
    } else {
        q
    }
}

/// The remainder of integer division rounded toward zero; it has the sign of `a`.
pub open spec fn trunc_rem(a: int, b: int) -> int {
    let r = (if a < 0 { -a } else { a }) % (if b < 0 { -b } else { b });
    if a < 0 {
        -r
    } else {
        r
    }
}

pub open spec fn add_spec(l: ValueV, r: ValueV) -> ArithRes {
    match (l, r) {
        (ValueV::Int(a), ValueV::Int(b)) => int_result(a + b),
        (ValueV::Str(a), ValueV::Str(b)) => Ok(OutcomeV::Value(ValueV::Str(a + b))),
        _ => if is_number(l) && is_number(r) {
            Ok(OutcomeV::Float(FloatOp::Add, l, r))
        } else {
            Err(VmErrorV::OperandTypes("add"@, l, r))
        },
    }
}

pub open spec fn sub_spec(l: ValueV, r: ValueV) -> ArithRes {
    match (l, r) {
        (ValueV::Int(a), ValueV::Int(b)) => int_result(a - b),
        _ => if is_number(l) && is_number(r) {
            Ok(OutcomeV::Float(FloatOp::Sub, l, r))
        } else {
            Err(VmErrorV::OperandTypes("sub"@, l, r))
        },
    }
}

pub open spec fn mul_spec(l: ValueV, r: ValueV) -> ArithRes {
    match (l, r) {
        (ValueV::Int(a), ValueV::Int(b)) => int_result(a * b),
        _ => if is_number(l) && is_number(r) {
            Ok(OutcomeV::Float(FloatOp::Mul, l, r))
        } else {
            Err(VmErrorV::OperandTypes("mul"@, l, r))
        },
    }
}

pub open spec fn div_spec(l: ValueV, r: ValueV) -> ArithRes {
    if !(is_number(l) && is_number(r)) {
        Err(VmErrorV::OperandTypes("div"@, l, r))
    } else if is_zero_value(r) {
        Err(VmErrorV::DivisionByZero)
    } else {
        match (l, r) {
            (ValueV::Int(a), ValueV::Int(b)) => int_result(trunc_div(a as int, b as int)),
            _ => Ok(OutcomeV::Float(FloatOp::Div, l, r)),
        }
    }
}

pub open spec fn rem_spec(l: ValueV, r: ValueV) -> ArithRes {
    if !(is_number(l) && is_number(r)) {
        Err(VmErrorV::OperandTypes("mod"@, l, r))
    } else if is_zero_value(r) {
        Err(VmErrorV::Other("modulo by zero"@))
    } else {
        match (l, r) {
            (ValueV::Int(a), ValueV::Int(b)) => if a == i64::MIN && b == -1 {
                Err(VmErrorV::Other("integer overflow"@))
            } else {
                Ok(OutcomeV::Value(ValueV::Int(trunc_rem(a as int, b as int) as i64)))
            },
            _ => Ok(OutcomeV::Float(FloatOp::Rem, l, r)),
        }
    }
}

pub open spec fn arith_agrees(res: Result<Outcome, VmError>, s: ArithRes) -> bool {
    match s {
        Ok(o) => res matches Ok(x) && x@ == o,
        Err(e) => res matches Err(x) && x@ == e,
    }
}

fn overflow() -> (e: VmError)
    ensures
        e@ == VmErrorV::Other("integer overflow"@),
{
    VmError::Other("integer overflow".to_owned())
}

fn number(v: &Value) -> (b: bool)
    ensures
        b == is_number(v@),
{
    match v {
        Value::Int(_) => true,
        Value::Float(_, _) => true,
        _ => false,
    }
}

fn zero_value(v: &Value) -> (b: bool)
    ensures
        b == is_zero_value(v@),
{
    match v {
        Value::Int(n) => *n == 0,
        Value::Float(b, _) => is_zero_bits(*b),
        _ => false,
    }
}

/// `l + r`: ints add, strings concatenate.
pub fn add(l: Value, r: Value) -> (res: Result<Outcome, VmError>)
    ensures
        arith_agrees(res, add_spec(l@, r@)),
{
    match (&l, &r) {
        (Value::Int(a), Value::Int(b)) => match a.checked_add(*b) {
            Some(x) => Ok(Outcome::Value(Value::Int(x))),
            None => Err(overflow()),
        },
        (Value::Str(a), Value::Str(b)) => {
            let mut out: Vec<char> = Vec::new();
            crate::text::push_str(&mut out, a.as_str());
            crate::text::push_str(&mut out, b.as_str());
            Ok(Outcome::Value(Value::Str(crate::text::chars_to_string(out.as_slice()))))
        },
        _ => if number(&l) && number(&r) {
            Ok(Outcome::Float(FloatOp::Add, l, r))
        } else {
            Err(VmError::OperandTypes("add".to_owned(), l, r))
        },
    }
}

/// `l - r`.
pub fn sub(l: Value, r: Value) -> (res: Result<Outcome, VmError>)
    ensures
        arith_agrees(res, sub_spec(l@, r@)),
{
    match (&l, &r) {
        (Value::Int(a), Value::Int(b)) => match a.checked_sub(*b) {
            Some(x) => Ok(Outcome::Value(Value::Int(x))),
            None => Err(overflow()),
        },
        _ => if number(&l) && number(&r) {
            Ok(Outcome::Float(FloatOp::Sub, l, r))
        } else {
            Err(VmError::OperandTypes("sub".to_owned(), l, r))
        },
    }
}

/// `l * r`.
pub fn mul(l: Value, r: Value) -> (res: Result<Outcome, VmError>)
    ensures
        arith_agrees(res, mul_spec(l@, r@)),
{
    match (&l, &r) {
        (Value::Int(a), Value::Int(b)) => match a.checked_mul(*b) {
            Some(x) => Ok(Outcome::Value(Value::Int(x))),
            None => Err(overflow()),
        },
        _ => if number(&l) && number(&r) {
            Ok(Outcome::Float(FloatOp::Mul, l, r))
        } else {
            Err(VmError::OperandTypes("mul".to_owned(), l, r))
        },
    }
}

/// The magnitude of an integer.
pub(crate) fn magnitude(a: i64) -> (m: u64)
    ensures
        m as int == (if a < 0 { -(a as int) } else { a as int }),
{
    if a < 0 {
        (0i128 - (a as i128)) as u64
    } else {
        a as u64
    }
}

/// `l / r`: integer division rounds toward zero.
pub fn div(l: Value, r: Value) -> (res: Result<Outcome, VmError>)
    ensures
        arith_agrees(res, div_spec(l@, r@)),
{
    if !(number(&l) && number(&r)) {
        return Err(VmError::OperandTypes("div".to_owned(), l, r));
    }
    if zero_value(&r) {
        return Err(VmError::DivisionByZero);
    }
    match (&l, &r) {
        (Value::Int(a), Value::Int(b)) => {
            let q = magnitude(*a) / magnitude(*b);
            let neg = (*a < 0) != (*b < 0);
            if neg {
                if q <= 9223372036854775808u64 {
                    let x = (0i128 - (q as i128)) as i64;
                    Ok(Outcome::Value(Value::Int(x)))
                } else {
                    Err(overflow())
                }
            } else if q <= 9223372036854775807u64 {
                Ok(Outcome::Value(Value::Int(q as i64)))
            } else {
                Err(overflow())
            }
        },
        _ => Ok(Outcome::Float(FloatOp::Div, l, r)),
    }
}

/// `l % r`: the integer remainder has the sign of `l`.
pub fn rem(l: Value, r: Value) -> (res: Result<Outcome, VmError>)
    ensures
        arith_agrees(res, rem_spec(l@, r@)),
{
    if !(number(&l) && number(&r)) {
        return Err(VmError::OperandTypes("mod".to_owned(), l, r));
    }
    if zero_value(&r) {
        return Err(VmError::Other("modulo by zero".to_owned()));
    }
    match (&l, &r) {
        (Value::Int(a), Value::Int(b)) => {
            if *a == i64::MIN && *b == -1 {
                return Err(overflow());
            }
            let mb = magnitude(*b);
            let m = magnitude(*a) % mb;
            assert(m < mb);
            if *a < 0 {
                Ok(Outcome::Value(Value::Int((0i128 - (m as i128)) as i64)))
            } else {
                Ok(Outcome::Value(Value::Int(m as i64)))
            }
        },
        _ => Ok(Outcome::Float(FloatOp::Rem, l, r)),
    }
}


proof fn lemma_quot_rem(x: int, y: int)
    requires
        x >= 0,
        y > 0,
    ensures
        (x / y) * y + x % y == x,
        0 <= x % y < y,
        0 <= x / y <= x,
{
    assert((x / y) * y + x % y == x && 0 <= x % y < y) by (nonlinear_arith)
        requires
            x >= 0,
            y > 0,
    ;
    assert(0 <= x / y <= x) by (nonlinear_arith)
        requires
            x >= 0,
            y > 0,
    ;
}

/// Integer division truncates toward zero, and the remainder goes with it: the quotient
/// times the divisor plus the remainder is the dividend, the remainder is smaller than
/// the divisor in size and has the sign of the dividend. Division by zero and the one
/// overflowing quotient are errors.
pub proof fn law_int_division(a: i64, b: i64)
    requires
        b != 0,
        !(a == i64::MIN && b == -1),
    ensures
        div_spec(ValueV::Int(a), ValueV::Int(b)) == Ok::<OutcomeV, VmErrorV>(
            OutcomeV::Value(ValueV::Int(trunc_div(a as int, b as int) as i64)),
        ),
        rem_spec(ValueV::Int(a), ValueV::Int(b)) == Ok::<OutcomeV, VmErrorV>(
            OutcomeV::Value(ValueV::Int(trunc_rem(a as int, b as int) as i64)),
        ),
        trunc_div(a as int, b as int) * b + trunc_rem(a as int, b as int) == a,
        trunc_rem(a as int, b as int) != 0 ==> ((trunc_rem(a as int, b as int) < 0) == (a < 0)),
        -(if b < 0 { -(b as int) } else { b as int }) < trunc_rem(a as int, b as int) < (if b < 0 {
            -(b as int)
        } else {
            b as int
        }),
{
    let x: int = if a < 0 { -(a as int) } else { a as int };
    let y: int = if b < 0 { -(b as int) } else { b as int };
    lemma_quot_rem(x, y);
    let q = x / y;
    let r = x % y;
    lemma_neg_mul(q, b as int);
    lemma_neg_mul(q, y);
    if b > 0 {
        assert(y == b);
    } else {
        assert(b as int == -y);
    }
    if q > i64::MAX {
        assert(x <= i64::MAX + 1);
        assert(q == x);
        lemma_unit_divisor(q, y, r);
        assert(y == 1);
        assert(a == i64::MIN);
        assert(b == 1);
    }
}

proof fn lemma_neg_mul(q: int, b: int)
    ensures
        (-q) * b == -(q * b),
        q * (-b) == -(q * b),
{
    assert((-q) * b == -(q * b)) by (nonlinear_arith);
    assert(q * (-b) == -(q * b)) by (nonlinear_arith);
}

proof fn lemma_unit_divisor(q: int, y: int, r: int)
    requires
        q > 0,
        y >= 1,
        r >= 0,
        q * y + r == q,
    ensures
        y == 1,
{
    assert(y == 1) by (nonlinear_arith)
        requires
            q > 0,
            y >= 1,
            r >= 0,
            q * y + r == q,
    ;
}

} // verus!
