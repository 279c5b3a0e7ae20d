//! Statements of the first Julix dialect.
use vstd::prelude::*;
use crate::ast::expression::{Expression, ExprV};

verus! {

/// A statement: print a value (with or without a newline) or bind a name.
#[derive(Debug, PartialEq)]
pub enum Statement {
    Print(Expression),
    PrintLn(Expression),
    Let { name: String, expr: Expression },
    Const { name: String, expr: Expression },
}

/// The mathematical value of a [`Statement`].
pub enum StmtV {
    Print(ExprV),
    PrintLn(ExprV),
    Let { name: Seq<char>, expr: ExprV },
    Const { name: Seq<char>, expr: ExprV },
}

impl View for Statement {
    type V = StmtV;

    open spec fn view(&self) -> StmtV {
        match self {
            Statement::Print(e) => StmtV::Print(e@),
            Statement::PrintLn(e) => StmtV::PrintLn(e@),
            Statement::Let { name, expr } => StmtV::Let { name: name@, expr: expr@ },
            Statement::Const { name, expr } => StmtV::Const { name: name@, expr: expr@ },
        }
    }
}

pub open spec fn stmts_view(ss: Seq<Statement>) -> Seq<StmtV> {
    ss.map_values(|s: Statement| s@)
}

} // verus!
