//! The syntax tree that the parser builds and the compiler reads.
use vstd::prelude::*;
use crate::lixer::token::{FStrPart, FStrPartV, parts_view};
use crate::lixvm::operations::bitwise::BitOp;

verus! {

/// An expression. A float literal keeps its source text.
#[derive(Debug, PartialEq)]
pub enum Expression {
    Int(i64),
    Float(String),
    Null,
    Str(String),
    Bool(bool),
    Bytes(Vec<u8>),
    FString(Vec<FStrPart>),
    Ident(String),
    Add(Box<Expression>, Box<Expression>),
    Sub(Box<Expression>, Box<Expression>),
    Mul(Box<Expression>, Box<Expression>),
    Div(Box<Expression>, Box<Expression>),
    Mod(Box<Expression>, Box<Expression>),
    Eq(Box<Expression>, Box<Expression>),
    NotEq(Box<Expression>, Box<Expression>),
    Lt(Box<Expression>, Box<Expression>),
    Gt(Box<Expression>, Box<Expression>),
    LtEq(Box<Expression>, Box<Expression>),
    GtEq(Box<Expression>, Box<Expression>),
    And(Box<Expression>, Box<Expression>),
    Or(Box<Expression>, Box<Expression>),
    BitAnd(Box<Expression>, Box<Expression>),
    BitOr(Box<Expression>, Box<Expression>),
    BitXor(Box<Expression>, Box<Expression>),
    Shl(Box<Expression>, Box<Expression>),
    Shr(Box<Expression>, Box<Expression>),
    Not(Box<Expression>),
    Range(Box<Expression>, Box<Expression>),
    Call { callee: Box<Expression>, args: Vec<Expression> },
    FieldAccess { object: Box<Expression>, field: String },
    MethodCall { object: Box<Expression>, method: String, args: Vec<Expression> },
    Construct { type_ident: String, fields: Vec<(String, Expression)> },
    List(Vec<Expression>),
    Mapping(Vec<(Expression, Expression)>),
    Index { object: Box<Expression>, index: Box<Expression> },
    IndexSet { object: Box<Expression>, index: Box<Expression>, value: Box<Expression> },
}

/// The binary operators of the syntax tree.
#[derive(Debug, Clone, Copy, PartialEq, Eq, Structural)]
pub enum BinOp {
    Add,
    Sub,
    Mul,
    Div,
    Mod,
    Eq,
    NotEq,
    Lt,
    Gt,
    LtEq,
    GtEq,
    And,
    Or,
    Range,
    Bit(BitOp),
}

/// The mathematical value of an [`Expression`].
pub enum ExprV {
    Int(i64),
    Float(Seq<char>),
    Null,
    Str(Seq<char>),
    Bool(bool),
    Bytes(Seq<u8>),
    FString(Seq<FStrPartV>),
    Ident(Seq<char>),
    Binary(BinOp, Box<ExprV>, Box<ExprV>),
    Not(Box<ExprV>),
    Call { callee: Box<ExprV>, args: Seq<ExprV> },
    FieldAccess { object: Box<ExprV>, field: Seq<char> },
    MethodCall { object: Box<ExprV>, method: Seq<char>, args: Seq<ExprV> },
    Construct { type_ident: Seq<char>, fields: Seq<(Seq<char>, ExprV)> },
    List(Seq<ExprV>),
    Mapping(Seq<(ExprV, ExprV)>),
    Index { object: Box<ExprV>, index: Box<ExprV> },
    IndexSet { object: Box<ExprV>, index: Box<ExprV>, value: Box<ExprV> },
}

pub open spec fn bin(op: BinOp, l: ExprV, r: ExprV) -> ExprV {
    ExprV::Binary(op, Box::new(l), Box::new(r))
}

pub open spec fn expr_view(e: Expression) -> ExprV
    decreases e,
{
    match e {
        Expression::Int(n) => ExprV::Int(n),
        Expression::Float(s) => ExprV::Float(s@),
        Expression::Null => ExprV::Null,
        Expression::Str(s) => ExprV::Str(s@),
        Expression::Bool(b) => ExprV::Bool(b),
        Expression::Bytes(b) => ExprV::Bytes(b@),
        Expression::FString(p) => ExprV::FString(parts_view(p@)),
        Expression::Ident(s) => ExprV::Ident(s@),
        Expression::Add(l, r) => bin(BinOp::Add, expr_view(*l), expr_view(*r)),
        Expression::Sub(l, r) => bin(BinOp::Sub, expr_view(*l), expr_view(*r)),
        Expression::Mul(l, r) => bin(BinOp::Mul, expr_view(*l), expr_view(*r)),
        Expression::Div(l, r) => bin(BinOp::Div, expr_view(*l), expr_view(*r)),
        Expression::Mod(l, r) => bin(BinOp::Mod, expr_view(*l), expr_view(*r)),
        Expression::Eq(l, r) => bin(BinOp::Eq, expr_view(*l), expr_view(*r)),
        Expression::NotEq(l, r) => bin(BinOp::NotEq, expr_view(*l), expr_view(*r)),
        Expression::Lt(l, r) => bin(BinOp::Lt, expr_view(*l), expr_view(*r)),
        Expression::Gt(l, r) => bin(BinOp::Gt, expr_view(*l), expr_view(*r)),
        Expression::LtEq(l, r) => bin(BinOp::LtEq, expr_view(*l), expr_view(*r)),
        Expression::GtEq(l, r) => bin(BinOp::GtEq, expr_view(*l), expr_view(*r)),
        Expression::And(l, r) => bin(BinOp::And, expr_view(*l), expr_view(*r)),
        Expression::Or(l, r) => bin(BinOp::Or, expr_view(*l), expr_view(*r)),
        Expression::BitAnd(l, r) => bin(BinOp::Bit(BitOp::And), expr_view(*l), expr_view(*r)),
        Expression::BitOr(l, r) => bin(BinOp::Bit(BitOp::Or), expr_view(*l), expr_view(*r)),
        Expression::BitXor(l, r) => bin(BinOp::Bit(BitOp::Xor), expr_view(*l), expr_view(*r)),
        Expression::Shl(l, r) => bin(BinOp::Bit(BitOp::Shl), expr_view(*l), expr_view(*r)),
        Expression::Shr(l, r) => bin(BinOp::Bit(BitOp::Shr), expr_view(*l), expr_view(*r)),
        Expression::Range(l, r) => bin(BinOp::Range, expr_view(*l), expr_view(*r)),
        Expression::Not(e) => ExprV::Not(Box::new(expr_view(*e))),
        Expression::Call { callee, args } => ExprV::Call {
            callee: Box::new(expr_view(*callee)),
            args: exprs_view(args@),
        },
        Expression::FieldAccess { object, field } => ExprV::FieldAccess {
            object: Box::new(expr_view(*object)),
            field: field@,
        },
        Expression::MethodCall { object, method, args } => ExprV::MethodCall {
            object: Box::new(expr_view(*object)),
            method: method@,
            args: exprs_view(args@),
        },
        Expression::Construct { type_ident, fields } => ExprV::Construct {
            type_ident: type_ident@,
            fields: named_view(fields@),
        },
        Expression::List(items) => ExprV::List(exprs_view(items@)),
        Expression::Mapping(entries) => ExprV::Mapping(entries_view(entries@)),
        Expression::Index { object, index } => ExprV::Index {
            object: Box::new(expr_view(*object)),
            index: Box::new(expr_view(*index)),
        },
        Expression::IndexSet { object, index, value } => ExprV::IndexSet {
            object: Box::new(expr_view(*object)),
            index: Box::new(expr_view(*index)),
            value: Box::new(expr_view(*value)),
        },
    }
}

pub open spec fn exprs_view(s: Seq<Expression>) -> Seq<ExprV>
    decreases s,
{
    if s.len() == 0 {
        Seq::empty()
    } else {
        exprs_view(s.drop_last()).push(expr_view(s.last()))
    }
}

pub open spec fn named_view(s: Seq<(String, Expression)>) -> Seq<(Seq<char>, ExprV)>
    decreases s,
{
    if s.len() == 0 {
        Seq::empty()
    } else {
        named_view(s.drop_last()).push((s.last().0@, expr_view(s.last().1)))
    }
}

pub open spec fn entries_view(s: Seq<(Expression, Expression)>) -> Seq<(ExprV, ExprV)>
    decreases s,
{
    if s.len() == 0 {
        Seq::empty()
    } else {
        entries_view(s.drop_last()).push((expr_view(s.last().0), expr_view(s.last().1)))
    }
}

impl View for Expression {
    type V = ExprV;

    open spec fn view(&self) -> ExprV {
        expr_view(*self)
    }
}

/// A statement.
#[derive(Debug, PartialEq)]
pub enum Statement {
    Print(Expression),
    PrintLn(Expression),
    Let { name: String, expr: Expression },
    Const { name: String, expr: Expression },
    If {
        condition: Expression,
        then_body: Vec<Statement>,
        elif_branches: Vec<ElifBranch>,
        else_body: Option<Vec<Statement>>,
    },
    While { condition: Expression, body: Vec<Statement> },
    For { var: String, start: Expression, end: Expression, body: Vec<Statement> },
    Break,
    Continue,
    Assign { name: String, expr: Expression },
    FunctionDef { name: String, params: Vec<String>, body: Vec<Statement> },
    Return(Option<Expression>),
    Expr(Expression),
    TypeDef { name: String, fields: Vec<(String, String)>, methods: Vec<FunctionDef> },
    FieldAssign { object: Expression, field: String, expr: Expression },
    IndexAssign { object: Expression, index: Expression, expr: Expression },
    Try { body: Vec<Statement>, catch_var: Option<String>, catch_body: Vec<Statement> },
    Throw(Expression),
}

/// A method of a `type` definition.
#[derive(Debug, PartialEq)]
pub struct FunctionDef {
    pub name: String,
    pub params: Vec<String>,
    pub body: Vec<Statement>,
}

/// One `elif` branch of an `if` statement.
#[derive(Debug, PartialEq)]
pub struct ElifBranch {
    pub condition: Expression,
    pub body: Vec<Statement>,
}

/// The mathematical value of a [`Statement`].
pub enum StmtV {
    Print(ExprV),
    PrintLn(ExprV),
    Let { name: Seq<char>, expr: ExprV },
    Const { name: Seq<char>, expr: ExprV },
    If {
        condition: ExprV,
        then_body: Seq<StmtV>,
        elif_branches: Seq<(ExprV, Seq<StmtV>)>,
        else_body: Option<Seq<StmtV>>,
    },
    While { condition: ExprV, body: Seq<StmtV> },
    For { var: Seq<char>, start: ExprV, end: ExprV, body: Seq<StmtV> },
    Break,
    Continue,
    Assign { name: Seq<char>, expr: ExprV },
    FunctionDef { name: Seq<char>, params: Seq<Seq<char>>, body: Seq<StmtV> },
    Return(Option<ExprV>),
    Expr(ExprV),
    TypeDef {
        name: Seq<char>,
        fields: Seq<(Seq<char>, Seq<char>)>,
        methods: Seq<(Seq<char>, Seq<Seq<char>>, Seq<StmtV>)>,
    },
    FieldAssign { object: ExprV, field: Seq<char>, expr: ExprV },
    IndexAssign { object: ExprV, index: ExprV, expr: ExprV },
    Try { body: Seq<StmtV>, catch_var: Option<Seq<char>>, catch_body: Seq<StmtV> },
    Throw(ExprV),
}

pub open spec fn strings_view(s: Seq<String>) -> Seq<Seq<char>> {
    s.map_values(|x: String| x@)
}

pub open spec fn string_pairs_view(s: Seq<(String, String)>) -> Seq<(Seq<char>, Seq<char>)> {
    s.map_values(|x: (String, String)| (x.0@, x.1@))
}

pub open spec fn stmt_view(st: Statement) -> StmtV
    decreases st,
{
    match st {
        Statement::Print(e) => StmtV::Print(e@),
        Statement::PrintLn(e) => StmtV::PrintLn(e@),
        Statement::Let { name, expr } => StmtV::Let { name: name@, expr: expr@ },
        Statement::Const { name, expr } => StmtV::Const { name: name@, expr: expr@ },
        Statement::If { condition, then_body, elif_branches, else_body } => StmtV::If {
            condition: condition@,
            then_body: stmts_view(then_body@),
            elif_branches: elifs_view(elif_branches@),
            else_body: match else_body {
                Some(b) => Some(stmts_view(b@)),
                None => None,
            },
        },
        Statement::While { condition, body } => StmtV::While {
            condition: condition@,
            body: stmts_view(body@),
        },
        Statement::For { var, start, end, body } => StmtV::For {
            var: var@,
            start: start@,
            end: end@,
            body: stmts_view(body@),
        },
        Statement::Break => StmtV::Break,
        Statement::Continue => StmtV::Continue,
        Statement::Assign { name, expr } => StmtV::Assign { name: name@, expr: expr@ },
        Statement::FunctionDef { name, params, body } => StmtV::FunctionDef {
            name: name@,
            params: strings_view(params@),
            body: stmts_view(body@),
        },
        Statement::Return(e) => StmtV::Return(
            match e {
                Some(x) => Some(x@),
                None => None,
            },
        ),
        Statement::Expr(e) => StmtV::Expr(e@),
        Statement::TypeDef { name, fields, methods } => StmtV::TypeDef {
            name: name@,
            fields: string_pairs_view(fields@),
            methods: methods_view(methods@),
        },
        Statement::FieldAssign { object, field, expr } => StmtV::FieldAssign {
            object: object@,
            field: field@,
            expr: expr@,
        },
        Statement::IndexAssign { object, index, expr } => StmtV::IndexAssign {
            object: object@,
            index: index@,
            expr: expr@,
        },
        Statement::Try { body, catch_var, catch_body } => StmtV::Try {
            body: stmts_view(body@),
            catch_var: match catch_var {
                Some(v) => Some(v@),
                None => None,
            },
            catch_body: stmts_view(catch_body@),
        },
        Statement::Throw(e) => StmtV::Throw(e@),
    }
}

pub open spec fn stmts_view(s: Seq<Statement>) -> Seq<StmtV>
    decreases s,
{
    if s.len() == 0 {
        Seq::empty()
    } else {
        stmts_view(s.drop_last()).push(stmt_view(s.last()))
    }
}

pub open spec fn elifs_view(s: Seq<ElifBranch>) -> Seq<(ExprV, Seq<StmtV>)>
    decreases s,
{
    if s.len() == 0 {
        Seq::empty()
    } else {
        elifs_view(s.drop_last()).push((s.last().condition@, stmts_view(s.last().body@)))
    }
}

pub open spec fn methods_view(s: Seq<FunctionDef>) -> Seq<(Seq<char>, Seq<Seq<char>>, Seq<StmtV>)>
    decreases s,
{
    if s.len() == 0 {
        Seq::empty()
    } else {
        methods_view(s.drop_last()).push(
            (s.last().name@, strings_view(s.last().params@), stmts_view(s.last().body@)),
        )
    }
}

impl View for Statement {
    type V = StmtV;

    open spec fn view(&self) -> StmtV {
        stmt_view(*self)
    }
}

pub proof fn lemma_exprs_view_push(s: Seq<Expression>, x: Expression)
    ensures
        exprs_view(s.push(x)) == exprs_view(s).push(x@),
{
    assert(s.push(x).drop_last() =~= s);
}

pub proof fn lemma_named_view_push(s: Seq<(String, Expression)>, x: (String, Expression))
    ensures
        named_view(s.push(x)) == named_view(s).push((x.0@, x.1@)),
{
    assert(s.push(x).drop_last() =~= s);
}

pub proof fn lemma_entries_view_push(s: Seq<(Expression, Expression)>, x: (Expression, Expression))
    ensures
        entries_view(s.push(x)) == entries_view(s).push((x.0@, x.1@)),
{
    assert(s.push(x).drop_last() =~= s);
}

pub proof fn lemma_stmts_view_push(s: Seq<Statement>, x: Statement)
    ensures
        stmts_view(s.push(x)) == stmts_view(s).push(x@),
{
    assert(s.push(x).drop_last() =~= s);
}

pub proof fn lemma_elifs_view_push(s: Seq<ElifBranch>, x: ElifBranch)
    ensures
        elifs_view(s.push(x)) == elifs_view(s).push((x.condition@, stmts_view(x.body@))),
{
    assert(s.push(x).drop_last() =~= s);
}

pub proof fn lemma_exprs_view(s: Seq<Expression>)
    ensures
        exprs_view(s).len() == s.len(),
        forall|k: int| 0 <= k < s.len() ==> #[trigger] exprs_view(s)[k] == s[k]@,
    decreases s.len(),
{
    if s.len() > 0 {
        lemma_exprs_view(s.drop_last());
    }
}

pub proof fn lemma_named_view(s: Seq<(String, Expression)>)
    ensures
        named_view(s).len() == s.len(),
        forall|k: int| 0 <= k < s.len() ==> #[trigger] named_view(s)[k] == (s[k].0@, s[k].1@),
    decreases s.len(),
{
    if s.len() > 0 {
        lemma_named_view(s.drop_last());
    }
}

pub proof fn lemma_entries_view(s: Seq<(Expression, Expression)>)
    ensures
        entries_view(s).len() == s.len(),
        forall|k: int| 0 <= k < s.len() ==> #[trigger] entries_view(s)[k] == (s[k].0@, s[k].1@),
    decreases s.len(),
{
    if s.len() > 0 {
        lemma_entries_view(s.drop_last());
    }
}

pub proof fn lemma_stmts_view(s: Seq<Statement>)
    ensures
        stmts_view(s).len() == s.len(),
        forall|k: int| 0 <= k < s.len() ==> #[trigger] stmts_view(s)[k] == s[k]@,
    decreases s.len(),
{
    if s.len() > 0 {
        lemma_stmts_view(s.drop_last());
    }
}

pub proof fn lemma_elifs_view(s: Seq<ElifBranch>)
    ensures
        elifs_view(s).len() == s.len(),
        forall|k: int|
            0 <= k < s.len() ==> #[trigger] elifs_view(s)[k] == (s[k].condition@, stmts_view(
                s[k].body@,
            )),
    decreases s.len(),
{
    if s.len() > 0 {
        lemma_elifs_view(s.drop_last());
    }
}

pub proof fn lemma_methods_view(s: Seq<FunctionDef>)
    ensures
        methods_view(s).len() == s.len(),
        forall|k: int|
            0 <= k < s.len() ==> #[trigger] methods_view(s)[k] == (s[k].name@, strings_view(
                s[k].params@,
            ), stmts_view(s[k].body@)),
    decreases s.len(),
{
    if s.len() > 0 {
        lemma_methods_view(s.drop_last());
    }
}

} // verus!
