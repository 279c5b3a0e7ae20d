//! Expressions of the first Julix dialect.
use vstd::prelude::*;

verus! {

/// An expression: an integer or string literal, a variable, or an arithmetic operation.
#[derive(Debug, PartialEq)]
pub enum Expression {
    Int(i64),
    Str(String),
    Ident(String),
    Add(Box<Expression>, Box<Expression>),
    Sub(Box<Expression>, Box<Expression>),
    Mul(Box<Expression>, Box<Expression>),
    Div(Box<Expression>, Box<Expression>),
    Mod(Box<Expression>, Box<Expression>),
}

/// The mathematical value of an [`Expression`].
pub enum ExprV {
    Int(i64),
    Str(Seq<char>),
    Ident(Seq<char>),
    Add(Box<ExprV>, Box<ExprV>),
    Sub(Box<ExprV>, Box<ExprV>),
    Mul(Box<ExprV>, Box<ExprV>),
    Div(Box<ExprV>, Box<ExprV>),
    Mod(Box<ExprV>, Box<ExprV>),
}

pub open spec fn expr_view(e: Expression) -> ExprV
    decreases e,
{
    match e {
        Expression::Int(n) => ExprV::Int(n),
        Expression::Str(s) => ExprV::Str(s@),
        Expression::Ident(s) => ExprV::Ident(s@),
        Expression::Add(l, r) => ExprV::Add(Box::new(expr_view(*l)), Box::new(expr_view(*r))),
        Expression::Sub(l, r) => ExprV::Sub(Box::new(expr_view(*l)), Box::new(expr_view(*r))),
        Expression::Mul(l, r) => ExprV::Mul(Box::new(expr_view(*l)), Box::new(expr_view(*r))),
        Expression::Div(l, r) => ExprV::Div(Box::new(expr_view(*l)), Box::new(expr_view(*r))),
        Expression::Mod(l, r) => ExprV::Mod(Box::new(expr_view(*l)), Box::new(expr_view(*r))),
    }
}

impl View for Expression {
    type V = ExprV;

    open spec fn view(&self) -> ExprV {
        expr_view(*self)
    }
}

} // verus!
