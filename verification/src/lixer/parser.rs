//! The Julix parser: recursive descent from tokens to statements.
use vstd::prelude::*;
use crate::lixer::token::{Token, TokenV, tokens_view, copy_token, token_eq, copy_parts};
use crate::lixer::ast::{
    Expression, ExprV, BinOp, bin, exprs_view, named_view, entries_view, Statement,
    lemma_exprs_view_push, lemma_named_view_push, lemma_entries_view_push,
};
use crate::text::{copy_string, copy_bytes};
use crate::lixvm::operations::bitwise::BitOp;

verus! {

/// What the parser was looking for when it stopped.
#[derive(Debug, Clone, PartialEq)]
pub enum Expected {
    Token(Token),
    Literal,
    FieldName,
    ArgumentName,
    Statement,
    Identifier,
    EndOfStatement,
}

/// A parse error: what was expected, and the token found instead.
#[derive(Debug, Clone, PartialEq)]
pub struct ParseError {
    pub expected: Expected,
    pub got: Token,
}

pub enum ExpectedV {
    Token(TokenV),
    Literal,
    FieldName,
    ArgumentName,
    Statement,
    Identifier,
    EndOfStatement,
}

pub struct ParseErrorV {
    pub expected: ExpectedV,
    pub got: TokenV,
}

impl View for ParseError {
    type V = ParseErrorV;

    open spec fn view(&self) -> ParseErrorV {
        ParseErrorV {
            expected: match self.expected {
                Expected::Token(t) => ExpectedV::Token(t@),
                Expected::Literal => ExpectedV::Literal,
                Expected::FieldName => ExpectedV::FieldName,
                Expected::ArgumentName => ExpectedV::ArgumentName,
                Expected::Statement => ExpectedV::Statement,
                Expected::Identifier => ExpectedV::Identifier,
                Expected::EndOfStatement => ExpectedV::EndOfStatement,
            },
            got: self.got@,
        }
    }
}

/// A token list that the parser can walk: it ends with `Eof`.
pub open spec fn tokens_wf(ts: Seq<TokenV>) -> bool {
    ts.len() > 0 && ts.last() == TokenV::Eof
}

pub open spec fn perr(e: ExpectedV, got: TokenV) -> ParseErrorV {
    ParseErrorV { expected: e, got }
}

/// The error the specification gives at a position outside the token list (never reached
/// from a position inside a list that ends with `Eof`).
pub open spec fn out_of_range() -> ParseErrorV {
    perr(ExpectedV::Literal, TokenV::Eof)
}

pub open spec fn p_expect(ts: Seq<TokenV>, p: int, t: TokenV) -> Result<int, ParseErrorV> {
    if !(0 <= p < ts.len()) {
        Err(out_of_range())
    } else if ts[p] == t {
        Ok(p + 1)
    } else {
        Err(perr(ExpectedV::Token(t), ts[p]))
    }
}

pub open spec fn cmp_op(t: TokenV) -> Option<BinOp> {
    match t {
        TokenV::EqEq => Some(BinOp::Eq),
        TokenV::NotEq => Some(BinOp::NotEq),
        TokenV::Lt => Some(BinOp::Lt),
        TokenV::Gt => Some(BinOp::Gt),
        TokenV::LtEq => Some(BinOp::LtEq),
        TokenV::GtEq => Some(BinOp::GtEq),
        _ => None,
    }
}

pub open spec fn add_op(t: TokenV) -> Option<BinOp> {
    match t {
        TokenV::Plus => Some(BinOp::Add),
        TokenV::Minus => Some(BinOp::Sub),
        _ => None,
    }
}

pub open spec fn mul_op(t: TokenV) -> Option<BinOp> {
    match t {
        TokenV::Star => Some(BinOp::Mul),
        TokenV::Slash => Some(BinOp::Div),
        TokenV::Percent => Some(BinOp::Mod),
        _ => None,
    }
}

pub open spec fn is_or(t: TokenV) -> bool {
    t == TokenV::OrOr || t == TokenV::Or
}

pub open spec fn is_and(t: TokenV) -> bool {
    t == TokenV::AndAnd || t == TokenV::And
}

pub open spec fn is_not(t: TokenV) -> bool {
    t == TokenV::Bang || t == TokenV::Not
}

/// Whether the call arguments that start at `q` are named (`ident :`).
pub open spec fn is_named_at(ts: Seq<TokenV>, q: int) -> bool {
    0 <= q && q + 1 < ts.len() && ts[q] is Ident && ts[q + 1] == TokenV::Colon
}

/// An expression parsed from position `p`: the expression and the position after it.
pub open spec fn p_expr(ts: Seq<TokenV>, p: int) -> Result<(ExprV, int), ParseErrorV>
    decreases ts.len() - p, 200int,
{
    if !(0 <= p < ts.len()) {
        Err(out_of_range())
    } else {
        p_or(ts, p)
    }
}

pub open spec fn p_or(ts: Seq<TokenV>, p: int) -> Result<(ExprV, int), ParseErrorV>
    decreases ts.len() - p, 190int,
{
    if !(0 <= p < ts.len()) {
        Err(out_of_range())
    } else {
        match p_and(ts, p) {
            Ok((l, q)) => if p <= q && q <= ts.len() {
                p_or_rest(ts, q, l)
            } else {
                Err(out_of_range())
            },
            Err(e) => Err(e),
        }
    }
}

pub open spec fn p_or_rest(ts: Seq<TokenV>, p: int, l: ExprV) -> Result<(ExprV, int), ParseErrorV>
    decreases ts.len() - p, 180int,
{
    if !(0 <= p < ts.len()) {
        Err(out_of_range())
    } else if is_or(ts[p]) {
        match p_and(ts, p + 1) {
            Ok((r, q)) => if p < q && q <= ts.len() {
                p_or_rest(ts, q, bin(BinOp::Or, l, r))
            } else {
                Err(out_of_range())
            },
            Err(e) => Err(e),
        }
    } else {
        Ok((l, p))
    }
}

pub open spec fn p_and(ts: Seq<TokenV>, p: int) -> Result<(ExprV, int), ParseErrorV>
    decreases ts.len() - p, 170int,
{
    if !(0 <= p < ts.len()) {
        Err(out_of_range())
    } else {
        match p_not(ts, p) {
            Ok((l, q)) => if p <= q && q <= ts.len() {
                p_and_rest(ts, q, l)
            } else {
                Err(out_of_range())
            },
            Err(e) => Err(e),
        }
    }
}

pub open spec fn p_and_rest(ts: Seq<TokenV>, p: int, l: ExprV) -> Result<(ExprV, int), ParseErrorV>
    decreases ts.len() - p, 160int,
{
    if !(0 <= p < ts.len()) {
        Err(out_of_range())
    } else if is_and(ts[p]) {
        match p_not(ts, p + 1) {
            Ok((r, q)) => if p < q && q <= ts.len() {
                p_and_rest(ts, q, bin(BinOp::And, l, r))
            } else {
                Err(out_of_range())
            },
            Err(e) => Err(e),
        }
    } else {
        Ok((l, p))
    }
}

pub open spec fn p_not(ts: Seq<TokenV>, p: int) -> Result<(ExprV, int), ParseErrorV>
    decreases ts.len() - p, 150int,
{
    if !(0 <= p < ts.len()) {
        Err(out_of_range())
    } else if is_not(ts[p]) {
        match p_not(ts, p + 1) {
            Ok((e, q)) => Ok((ExprV::Not(Box::new(e)), q)),
            Err(e) => Err(e),
        }
    } else {
        p_cmp(ts, p)
    }
}

pub open spec fn p_cmp(ts: Seq<TokenV>, p: int) -> Result<(ExprV, int), ParseErrorV>
    decreases ts.len() - p, 140int,
{
    if !(0 <= p < ts.len()) {
        Err(out_of_range())
    } else {
        match p_bits(ts, p, 0) {
            Ok((l, q)) => if p <= q && q < ts.len() {
                match cmp_op(ts[q]) {
                    Some(op) => match p_bits(ts, q + 1, 0) {
                        Ok((r, q2)) => Ok((bin(op, l, r), q2)),
                        Err(e) => Err(e),
                    },
                    None => Ok((l, q)),
                }
            } else {
                Err(out_of_range())
            },
            Err(e) => Err(e),
        }
    }
}

/// The operator of bitwise level `lvl` (0: `|`, 1: `^`, 2: `&`, 3: `<<` and `>>`) that the
/// token is, if any.
pub open spec fn bit_op_at(lvl: nat, t: TokenV) -> Option<BinOp> {
    if lvl == 0 && t == TokenV::Pipe {
        Some(BinOp::Bit(BitOp::Or))
    } else if lvl == 1 && t == TokenV::Caret {
        Some(BinOp::Bit(BitOp::Xor))
    } else if lvl == 2 && t == TokenV::Amp {
        Some(BinOp::Bit(BitOp::And))
    } else if lvl == 3 && t == TokenV::Shl {
        Some(BinOp::Bit(BitOp::Shl))
    } else if lvl == 3 && t == TokenV::Shr {
        Some(BinOp::Bit(BitOp::Shr))
    } else {
        None
    }
}

pub open spec fn bit_rank(lvl: nat) -> int {
    if lvl >= 4 {
        0
    } else {
        4 - lvl
    }
}

/// An expression at bitwise level `lvl` (levels past 3 are sums): operands of the next level
/// joined left to right by this level's operators.
pub open spec fn p_bits(ts: Seq<TokenV>, p: int, lvl: nat) -> Result<(ExprV, int), ParseErrorV>
    decreases ts.len() - p, 131 + 2 * bit_rank(lvl),
{
    if !(0 <= p < ts.len()) {
        Err(out_of_range())
    } else if lvl >= 4 {
        p_add(ts, p)
    } else {
        match p_bits(ts, p, lvl + 1) {
            Ok((l, q)) => if p <= q && q <= ts.len() {
                p_bits_rest(ts, q, l, lvl)
            } else {
                Err(out_of_range())
            },
            Err(e) => Err(e),
        }
    }
}

pub open spec fn p_bits_rest(ts: Seq<TokenV>, p: int, l: ExprV, lvl: nat) -> Result<(ExprV, int), ParseErrorV>
    decreases ts.len() - p, 130 + 2 * bit_rank(lvl),
{
    if !(0 <= p < ts.len()) || lvl >= 4 {
        Err(out_of_range())
    } else {
        match bit_op_at(lvl, ts[p]) {
            Some(op) => match p_bits(ts, p + 1, lvl + 1) {
                Ok((r, q)) => if p < q && q <= ts.len() {
                    p_bits_rest(ts, q, bin(op, l, r), lvl)
                } else {
                    Err(out_of_range())
                },
                Err(e) => Err(e),
            },
            None => Ok((l, p)),
        }
    }
}

pub open spec fn p_add(ts: Seq<TokenV>, p: int) -> Result<(ExprV, int), ParseErrorV>
    decreases ts.len() - p, 130int,
{
    if !(0 <= p < ts.len()) {
        Err(out_of_range())
    } else {
        match p_mul(ts, p) {
            Ok((l, q)) => if p <= q && q <= ts.len() {
                p_add_rest(ts, q, l)
            } else {
                Err(out_of_range())
            },
            Err(e) => Err(e),
        }
    }
}

pub open spec fn p_add_rest(ts: Seq<TokenV>, p: int, l: ExprV) -> Result<(ExprV, int), ParseErrorV>
    decreases ts.len() - p, 120int,
{
    if !(0 <= p < ts.len()) {
        Err(out_of_range())
    } else {
        match add_op(ts[p]) {
            Some(op) => match p_mul(ts, p + 1) {
                Ok((r, q)) => if p < q && q <= ts.len() {
                    p_add_rest(ts, q, bin(op, l, r))
                } else {
                    Err(out_of_range())
                },
                Err(e) => Err(e),
            },
            None => Ok((l, p)),
        }
    }
}

pub open spec fn p_mul(ts: Seq<TokenV>, p: int) -> Result<(ExprV, int), ParseErrorV>
    decreases ts.len() - p, 110int,
{
    if !(0 <= p < ts.len()) {
        Err(out_of_range())
    } else {
        match p_primary(ts, p) {
            Ok((l, q)) => if p <= q && q <= ts.len() {
                p_mul_rest(ts, q, l)
            } else {
                Err(out_of_range())
            },
            Err(e) => Err(e),
        }
    }
}

pub open spec fn p_mul_rest(ts: Seq<TokenV>, p: int, l: ExprV) -> Result<(ExprV, int), ParseErrorV>
    decreases ts.len() - p, 100int,
{
    if !(0 <= p < ts.len()) {
        Err(out_of_range())
    } else {
        match mul_op(ts[p]) {
            Some(op) => match p_primary(ts, p + 1) {
                Ok((r, q)) => if p < q && q <= ts.len() {
                    p_mul_rest(ts, q, bin(op, l, r))
                } else {
                    Err(out_of_range())
                },
                Err(e) => Err(e),
            },
            None => Ok((l, p)),
        }
    }
}

/// The expression that a single literal or identifier token makes, if it is one.
pub open spec fn atom(t: TokenV) -> Option<ExprV> {
    match t {
        TokenV::Int(n) => Some(ExprV::Int(n)),
        TokenV::Float(s) => Some(ExprV::Float(s)),
        TokenV::Str(s) => Some(ExprV::Str(s)),
        TokenV::Bytes(b) => Some(ExprV::Bytes(b)),
        TokenV::FStr(parts) => Some(ExprV::FString(parts)),
        TokenV::True => Some(ExprV::Bool(true)),
        TokenV::False => Some(ExprV::Bool(false)),
        TokenV::Null => Some(ExprV::Null),
        TokenV::Ident(n) => Some(ExprV::Ident(n)),
        _ => None,
    }
}

pub open spec fn p_primary(ts: Seq<TokenV>, p: int) -> Result<(ExprV, int), ParseErrorV>
    decreases ts.len() - p, 90int,
{
    if !(0 <= p < ts.len()) {
        Err(out_of_range())
    } else {
        match atom(ts[p]) {
            Some(e) => p_postfix(ts, p + 1, e),
            None => if ts[p] == TokenV::LParen {
                match p_expr(ts, p + 1) {
                    Ok((e, q)) => match p_expect(ts, q, TokenV::RParen) {
                        Ok(q2) => if p < q2 && q2 <= ts.len() {
                            p_postfix(ts, q2, e)
                        } else {
                            Err(out_of_range())
                        },
                        Err(x) => Err(x),
                    },
                    Err(x) => Err(x),
                }
            } else if ts[p] == TokenV::LBracket {
                if !(p + 1 < ts.len()) {
                    Err(out_of_range())
                } else {
                    let items = if ts[p + 1] == TokenV::RBracket {
                        Ok((Seq::<ExprV>::empty(), p + 1))
                    } else {
                        match p_expr(ts, p + 1) {
                            Ok((e, q)) => if p < q && q <= ts.len() {
                                p_list_rest(ts, q, seq![e])
                            } else {
                                Err(out_of_range())
                            },
                            Err(x) => Err(x),
                        }
                    };
                    match items {
                        Ok((es, q)) => match p_expect(ts, q, TokenV::RBracket) {
                            Ok(q2) => if p < q2 && q2 <= ts.len() {
                                p_postfix(ts, q2, ExprV::List(es))
                            } else {
                                Err(out_of_range())
                            },
                            Err(x) => Err(x),
                        },
                        Err(x) => Err(x),
                    }
                }
            } else if ts[p] == TokenV::LBrace {
                if !(p + 1 < ts.len()) {
                    Err(out_of_range())
                } else {
                    let entries = if ts[p + 1] == TokenV::RBrace {
                        Ok((Seq::<(ExprV, ExprV)>::empty(), p + 1))
                    } else {
                        match p_entry(ts, p + 1) {
                            Ok((e, q)) => if p < q && q <= ts.len() {
                                p_entries_rest(ts, q, seq![e])
                            } else {
                                Err(out_of_range())
                            },
                            Err(x) => Err(x),
                        }
                    };
                    match entries {
                        Ok((es, q)) => match p_expect(ts, q, TokenV::RBrace) {
                            Ok(q2) => if p < q2 && q2 <= ts.len() {
                                p_postfix(ts, q2, ExprV::Mapping(es))
                            } else {
                                Err(out_of_range())
                            },
                            Err(x) => Err(x),
                        },
                        Err(x) => Err(x),
                    }
                }
            } else {
                Err(perr(ExpectedV::Literal, ts[p]))
            },
        }
    }
}

pub open spec fn p_list_rest(ts: Seq<TokenV>, p: int, acc: Seq<ExprV>) -> Result<
    (Seq<ExprV>, int),
    ParseErrorV,
>
    decreases ts.len() - p, 70int,
{
    if !(0 <= p < ts.len()) {
        Err(out_of_range())
    } else if ts[p] == TokenV::Comma {
        match p_expr(ts, p + 1) {
            Ok((e, q)) => if p < q && q <= ts.len() {
                p_list_rest(ts, q, acc.push(e))
            } else {
                Err(out_of_range())
            },
            Err(x) => Err(x),
        }
    } else {
        Ok((acc, p))
    }
}

pub open spec fn p_entry(ts: Seq<TokenV>, p: int) -> Result<((ExprV, ExprV), int), ParseErrorV>
    decreases ts.len() - p, 210int,
{
    if !(0 <= p < ts.len()) {
        Err(out_of_range())
    } else {
        match p_expr(ts, p) {
            Ok((k, q)) => match p_expect(ts, q, TokenV::Colon) {
                Ok(q2) => if p < q2 && q2 <= ts.len() {
                    match p_expr(ts, q2) {
                        Ok((v, q3)) => Ok(((k, v), q3)),
                        Err(x) => Err(x),
                    }
                } else {
                    Err(out_of_range())
                },
                Err(x) => Err(x),
            },
            Err(x) => Err(x),
        }
    }
}

pub open spec fn p_entries_rest(ts: Seq<TokenV>, p: int, acc: Seq<(ExprV, ExprV)>) -> Result<
    (Seq<(ExprV, ExprV)>, int),
    ParseErrorV,
>
    decreases ts.len() - p, 70int,
{
    if !(0 <= p < ts.len()) {
        Err(out_of_range())
    } else if ts[p] == TokenV::Comma {
        match p_entry(ts, p + 1) {
            Ok((e, q)) => if p < q && q <= ts.len() {
                p_entries_rest(ts, q, acc.push(e))
            } else {
                Err(out_of_range())
            },
            Err(x) => Err(x),
        }
    } else {
        Ok((acc, p))
    }
}

pub open spec fn p_named_arg(ts: Seq<TokenV>, p: int) -> Result<((Seq<char>, ExprV), int), ParseErrorV>
    decreases ts.len() - p, 70int,
{
    if !(0 <= p < ts.len()) {
        Err(out_of_range())
    } else {
        match ts[p] {
            TokenV::Ident(name) => match p_expect(ts, p + 1, TokenV::Colon) {
                Ok(q) => if p < q && q <= ts.len() {
                    match p_expr(ts, q) {
                        Ok((e, r)) => Ok(((name, e), r)),
                        Err(x) => Err(x),
                    }
                } else {
                    Err(out_of_range())
                },
                Err(x) => Err(x),
            },
            t => Err(perr(ExpectedV::ArgumentName, t)),
        }
    }
}

pub open spec fn p_named_rest(ts: Seq<TokenV>, p: int, acc: Seq<(Seq<char>, ExprV)>) -> Result<
    (Seq<(Seq<char>, ExprV)>, int),
    ParseErrorV,
>
    decreases ts.len() - p, 70int,
{
    if !(0 <= p < ts.len()) {
        Err(out_of_range())
    } else if ts[p] == TokenV::Comma {
        match p_named_arg(ts, p + 1) {
            Ok((a, q)) => if p < q && q <= ts.len() {
                p_named_rest(ts, q, acc.push(a))
            } else {
                Err(out_of_range())
            },
            Err(x) => Err(x),
        }
    } else {
        Ok((acc, p))
    }
}

/// What a call with named arguments makes of the expression called: a constructor call when
/// it is a bare name, and the expression unchanged otherwise.
pub open spec fn apply_named(base: ExprV, args: Seq<(Seq<char>, ExprV)>) -> ExprV {
    match base {
        ExprV::Ident(name) => ExprV::Construct { type_ident: name, fields: args },
        _ => base,
    }
}

/// What a call with positional arguments makes of the expression called: a method call on
/// a field access, a plain call otherwise.
pub open spec fn apply_call(base: ExprV, args: Seq<ExprV>) -> ExprV {
    match base {
        ExprV::FieldAccess { object, field } => ExprV::MethodCall { object, method: field, args },
        _ => ExprV::Call { callee: Box::new(base), args },
    }
}

/// A call with named arguments whose first argument is at `q`: what it makes of `base`, and
/// the position after the closing parenthesis.
pub open spec fn p_call_named(ts: Seq<TokenV>, q: int, base: ExprV) -> Result<(ExprV, int), ParseErrorV>
    decreases ts.len() - q, 220int,
{
    if !(0 <= q < ts.len()) {
        Err(out_of_range())
    } else {
        match p_named_arg(ts, q) {
            Ok((a, r)) => if q < r && r <= ts.len() {
                match p_named_rest(ts, r, seq![a]) {
                    Ok((args, r2)) => match p_expect(ts, r2, TokenV::RParen) {
                        Ok(r3) => Ok((apply_named(base, args), r3)),
                        Err(x) => Err(x),
                    },
                    Err(x) => Err(x),
                }
            } else {
                Err(out_of_range())
            },
            Err(x) => Err(x),
        }
    }
}

/// A call with positional arguments that start at `q`: what it makes of `base`, and the
/// position after the closing parenthesis.
pub open spec fn p_call_pos(ts: Seq<TokenV>, q: int, base: ExprV) -> Result<(ExprV, int), ParseErrorV>
    decreases ts.len() - q, 220int,
{
    if !(0 <= q < ts.len()) {
        Err(out_of_range())
    } else {
        let args = if ts[q] == TokenV::RParen {
            Ok((Seq::<ExprV>::empty(), q))
        } else {
            match p_expr(ts, q) {
                Ok((a, r)) => if q < r && r <= ts.len() {
                    p_list_rest(ts, r, seq![a])
                } else {
                    Err(out_of_range())
                },
                Err(x) => Err(x),
            }
        };
        match args {
            Ok((es, r2)) => match p_expect(ts, r2, TokenV::RParen) {
                Ok(r3) => Ok((apply_call(base, es), r3)),
                Err(x) => Err(x),
            },
            Err(x) => Err(x),
        }
    }
}

/// Whether a token starts a postfix suffix: a call, a field access or an index.
pub open spec fn is_suffix_start(t: TokenV) -> bool {
    t == TokenV::LParen || t == TokenV::Dot || t == TokenV::LBracket
}

/// One postfix suffix at `p` applied to `base`.
pub open spec fn p_suffix(ts: Seq<TokenV>, p: int, base: ExprV) -> Result<(ExprV, int), ParseErrorV>
    decreases ts.len() - p, 70int,
{
    if !(0 <= p && p + 1 < ts.len()) {
        Err(out_of_range())
    } else if ts[p] == TokenV::LParen {
        if is_named_at(ts, p + 1) {
            p_call_named(ts, p + 1, base)
        } else {
            p_call_pos(ts, p + 1, base)
        }
    } else if ts[p] == TokenV::Dot {
        match ts[p + 1] {
            TokenV::Ident(f) => Ok((ExprV::FieldAccess { object: Box::new(base), field: f }, p + 2)),
            t => Err(perr(ExpectedV::FieldName, t)),
        }
    } else {
        match p_expr(ts, p + 1) {
            Ok((i, q)) => match p_expect(ts, q, TokenV::RBracket) {
                Ok(q2) => Ok((ExprV::Index { object: Box::new(base), index: Box::new(i) }, q2)),
                Err(x) => Err(x),
            },
            Err(x) => Err(x),
        }
    }
}

/// The postfix suffixes at `p` applied to `base`, left to right.
pub open spec fn p_postfix(ts: Seq<TokenV>, p: int, base: ExprV) -> Result<(ExprV, int), ParseErrorV>
    decreases ts.len() - p, 80int,
{
    if !(0 <= p < ts.len()) {
        Err(out_of_range())
    } else if is_suffix_start(ts[p]) {
        match p_suffix(ts, p, base) {
            Ok((nb, r)) => if p < r && r <= ts.len() {
                p_postfix(ts, r, nb)
            } else {
                Err(out_of_range())
            },
            Err(x) => Err(x),
        }
    } else {
        Ok((base, p))
    }
}

// ---------------------------------------------------------------------------
// The parser

/// Whether an exec parse result agrees with the specification's result, given the
/// position the parser ended at.
pub open spec fn expr_agrees(
    r: Result<Expression, ParseError>,
    at: int,
    s: Result<(ExprV, int), ParseErrorV>,
) -> bool {
    match s {
        Ok((e, q)) => r matches Ok(x) && x@ == e && at == q,
        Err(err) => r matches Err(x) && x@ == err,
    }
}

/// A cursor over a token list.
pub struct Parser<'a> {
    tokens: &'a [Token],
    pos: usize,
}

impl<'a> Parser<'a> {
    /// The tokens, by value.
    pub closed spec fn toks(&self) -> Seq<TokenV> {
        tokens_view(self.tokens@)
    }

    /// The current position.
    pub closed spec fn at(&self) -> int {
        self.pos as int
    }

    /// The token list ends with `Eof` and the position is inside it.
    pub open spec fn wf(&self) -> bool {
        tokens_wf(self.toks()) && 0 <= self.at() < self.toks().len()
    }

    pub fn new(tokens: &'a [Token]) -> (p: Self)
        ensures
            p.toks() == tokens_view(tokens@),
            p.at() == 0,
    {
        Parser { tokens, pos: 0 }
    }

    /// The current token.
    pub fn peek(&self) -> (t: &Token)
        requires
            0 <= self.at() < self.toks().len(),
        ensures
            t@ == self.toks()[self.at()],
    {
        &self.tokens[self.pos]
    }

    /// Takes the current token and moves past it.
    pub fn advance(&mut self) -> (t: Token)
        requires
            0 <= old(self).at() < old(self).toks().len(),
        ensures
            t@ == old(self).toks()[old(self).at()],
            final(self).toks() == old(self).toks(),
            final(self).at() == old(self).at() + 1,
    {
        let n = self.tokens.len();
        assert(self.toks().len() == n);
        let t = copy_token(&self.tokens[self.pos]);
        self.pos = self.pos + 1;
        t
    }

    /// Moves past the current token, which is not the final `Eof`.
    pub(crate) fn bump(&mut self)
        requires
            old(self).wf(),
            old(self).toks()[old(self).at()] != TokenV::Eof,
        ensures
            final(self).wf(),
            final(self).toks() == old(self).toks(),
            final(self).at() == old(self).at() + 1,
    {
        let n = self.tokens.len();
        assert(self.toks().len() == n);
        self.pos = self.pos + 1;
    }

    /// Whether the token after the current one is `=`.
    pub(crate) fn next_is_assign(&self) -> (r: bool)
        requires
            0 <= self.at() < self.toks().len(),
        ensures
            r == (self.at() + 1 < self.toks().len() && self.toks()[self.at() + 1] == TokenV::Assign),
    {
        let n = self.tokens.len();
        assert(self.toks().len() == n);
        self.pos + 1 < n && matches!(self.tokens[self.pos + 1], Token::Assign)
    }

    pub(crate) fn is_range(&self) -> (r: bool)
        requires
            0 <= self.at() < self.toks().len(),
        ensures
            r == (self.toks()[self.at()] == TokenV::Range),
    {
        matches!(self.tokens[self.pos], Token::Range)
    }

    pub fn is_eof(&self) -> (r: bool)
        requires
            0 <= self.at() < self.toks().len(),
        ensures
            r == (self.toks()[self.at()] == TokenV::Eof),
    {
        matches!(self.tokens[self.pos], Token::Eof)
    }

    #[verifier::rlimit(100)]
    pub fn skip_newlines(&mut self)
        requires
            old(self).wf(),
        ensures
            final(self).wf(),
            final(self).toks() == old(self).toks(),
            final(self).at() == skip_nl(old(self).toks(), old(self).at()),
    {
        proof {
            lemma_skip_nl(self.toks(), self.at());
        }
        while matches!(self.tokens[self.pos], Token::Newline)
            invariant
                self.wf(),
                self.toks() == old(self).toks(),
                skip_nl(self.toks(), self.at()) == skip_nl(old(self).toks(), old(self).at()),
            decreases self.toks().len() - self.at(),
        {
            self.pos = self.pos + 1;
        }
    }

    /// Takes the current token, which must be `expected`.
    pub fn expect(&mut self, expected: Token) -> (r: Result<(), ParseError>)
        requires
            old(self).wf(),
            expected@ != TokenV::Eof,
        ensures
            final(self).toks() == old(self).toks(),
            match p_expect(old(self).toks(), old(self).at(), expected@) {
                Ok(q) => r is Ok && final(self).wf() && final(self).at() == q,
                Err(e) => r matches Err(x) && x@ == e,
            },
    {
        if token_eq(&self.tokens[self.pos], &expected) {
            self.bump();
            Ok(())
        } else {
            Err(ParseError { expected: Expected::Token(expected), got: copy_token(&self.tokens[self.pos]) })
        }
    }

    pub(crate) fn error_here(&self, expected: Expected) -> (e: ParseError)
        requires
            0 <= self.at() < self.toks().len(),
        ensures
            e.got@ == self.toks()[self.at()],
            e.expected == expected,
    {
        ParseError { expected, got: copy_token(&self.tokens[self.pos]) }
    }

    /// Parses an expression.
    pub fn parse_expression(&mut self) -> (r: Result<Expression, ParseError>)
        requires
            old(self).wf(),
        ensures
            final(self).toks() == old(self).toks(),
            r is Ok ==> final(self).wf() && final(self).at() > old(self).at(),
            expr_agrees(r, final(self).at(), p_expr(old(self).toks(), old(self).at())),
        decreases old(self).toks().len() - old(self).at(), 200int,
    {
        self.parse_or()
    }

    #[verifier::rlimit(100)]
    fn parse_or(&mut self) -> (r: Result<Expression, ParseError>)
        requires
            old(self).wf(),
        ensures
            final(self).toks() == old(self).toks(),
            r is Ok ==> final(self).wf() && final(self).at() > old(self).at(),
            expr_agrees(r, final(self).at(), p_or(old(self).toks(), old(self).at())),
        decreases old(self).toks().len() - old(self).at(), 190int,
    {
        let ghost ts = self.toks();
        let ghost p0 = self.at();
        let mut left = self.parse_and()?;
        while matches!(self.tokens[self.pos], Token::OrOr | Token::Or)
            invariant
                self.wf(),
                self.toks() == ts,
                ts == old(self).toks(),
                p0 == old(self).at(),
                self.at() > p0,
                p_or(ts, p0) == p_or_rest(ts, self.at(), left@),
            decreases ts.len() - self.at(),
        {
            self.bump();
            let right = self.parse_and()?;
            left = Expression::Or(Box::new(left), Box::new(right));
        }
        Ok(left)
    }

    #[verifier::rlimit(100)]
    fn parse_and(&mut self) -> (r: Result<Expression, ParseError>)
        requires
            old(self).wf(),
        ensures
            final(self).toks() == old(self).toks(),
            r is Ok ==> final(self).wf() && final(self).at() > old(self).at(),
            expr_agrees(r, final(self).at(), p_and(old(self).toks(), old(self).at())),
        decreases old(self).toks().len() - old(self).at(), 170int,
    {
        let ghost ts = self.toks();
        let ghost p0 = self.at();
        let mut left = self.parse_not()?;
        while matches!(self.tokens[self.pos], Token::AndAnd | Token::And)
            invariant
                self.wf(),
                self.toks() == ts,
                ts == old(self).toks(),
                p0 == old(self).at(),
                self.at() > p0,
                p_and(ts, p0) == p_and_rest(ts, self.at(), left@),
            decreases ts.len() - self.at(),
        {
            self.bump();
            let right = self.parse_not()?;
            left = Expression::And(Box::new(left), Box::new(right));
        }
        Ok(left)
    }

    fn parse_not(&mut self) -> (r: Result<Expression, ParseError>)
        requires
            old(self).wf(),
        ensures
            final(self).toks() == old(self).toks(),
            r is Ok ==> final(self).wf() && final(self).at() > old(self).at(),
            expr_agrees(r, final(self).at(), p_not(old(self).toks(), old(self).at())),
        decreases old(self).toks().len() - old(self).at(), 150int,
    {
        if matches!(self.tokens[self.pos], Token::Bang | Token::Not) {
            self.bump();
            let e = self.parse_not()?;
            Ok(Expression::Not(Box::new(e)))
        } else {
            self.parse_comparison()
        }
    }

    fn parse_comparison(&mut self) -> (r: Result<Expression, ParseError>)
        requires
            old(self).wf(),
        ensures
            final(self).toks() == old(self).toks(),
            r is Ok ==> final(self).wf() && final(self).at() > old(self).at(),
            expr_agrees(r, final(self).at(), p_cmp(old(self).toks(), old(self).at())),
        decreases old(self).toks().len() - old(self).at(), 140int,
    {
        let left = self.parse_bits(0)?;
        match cmp_kind(&self.tokens[self.pos]) {
            None => Ok(left),
            Some(op) => {
                self.bump();
                let right = self.parse_bits(0)?;
                Ok(make_binary(op, left, right))
            },
        }
    }

    #[verifier::rlimit(100)]
    fn parse_bits(&mut self, lvl: usize) -> (r: Result<Expression, ParseError>)
        requires
            old(self).wf(),
            lvl <= 4,
        ensures
            final(self).toks() == old(self).toks(),
            r is Ok ==> final(self).wf() && final(self).at() > old(self).at(),
            expr_agrees(r, final(self).at(), p_bits(old(self).toks(), old(self).at(), lvl as nat)),
        decreases old(self).toks().len() - old(self).at(), 131 + 2 * bit_rank(lvl as nat),
    {
        if lvl >= 4 {
            return self.parse_additive();
        }
        let ghost ts = self.toks();
        let ghost p0 = self.at();
        let mut left = self.parse_bits(lvl + 1)?;
        loop
            invariant
                self.wf(),
                self.toks() == ts,
                ts == old(self).toks(),
                p0 == old(self).at(),
                self.at() > p0,
                lvl < 4,
                p_bits(ts, p0, lvl as nat) == p_bits_rest(ts, self.at(), left@, lvl as nat),
            decreases ts.len() - self.at(),
        {
            let op = match bit_kind(lvl, &self.tokens[self.pos]) {
                Some(op) => op,
                None => {
                    return Ok(left);
                },
            };
            self.bump();
            let right = self.parse_bits(lvl + 1)?;
            left = make_binary(op, left, right);
        }
    }

    #[verifier::rlimit(100)]
    fn parse_additive(&mut self) -> (r: Result<Expression, ParseError>)
        requires
            old(self).wf(),
        ensures
            final(self).toks() == old(self).toks(),
            r is Ok ==> final(self).wf() && final(self).at() > old(self).at(),
            expr_agrees(r, final(self).at(), p_add(old(self).toks(), old(self).at())),
        decreases old(self).toks().len() - old(self).at(), 130int,
    {
        let ghost ts = self.toks();
        let ghost p0 = self.at();
        let mut left = self.parse_multiplicative()?;
        while matches!(self.tokens[self.pos], Token::Plus | Token::Minus)
            invariant
                self.wf(),
                self.toks() == ts,
                ts == old(self).toks(),
                p0 == old(self).at(),
                self.at() > p0,
                p_add(ts, p0) == p_add_rest(ts, self.at(), left@),
            decreases ts.len() - self.at(),
        {
            let plus = matches!(self.tokens[self.pos], Token::Plus);
            self.bump();
            let right = self.parse_multiplicative()?;
            left = if plus {
                Expression::Add(Box::new(left), Box::new(right))
            } else {
                Expression::Sub(Box::new(left), Box::new(right))
            };
        }
        Ok(left)
    }

    #[verifier::rlimit(100)]
    fn parse_multiplicative(&mut self) -> (r: Result<Expression, ParseError>)
        requires
            old(self).wf(),
        ensures
            final(self).toks() == old(self).toks(),
            r is Ok ==> final(self).wf() && final(self).at() > old(self).at(),
            expr_agrees(r, final(self).at(), p_mul(old(self).toks(), old(self).at())),
        decreases old(self).toks().len() - old(self).at(), 110int,
    {
        let ghost ts = self.toks();
        let ghost p0 = self.at();
        let mut left = self.parse_primary()?;
        while matches!(self.tokens[self.pos], Token::Star | Token::Slash | Token::Percent)
            invariant
                self.wf(),
                self.toks() == ts,
                ts == old(self).toks(),
                p0 == old(self).at(),
                self.at() > p0,
                p_mul(ts, p0) == p_mul_rest(ts, self.at(), left@),
            decreases ts.len() - self.at(),
        {
            let kind: u8 = match &self.tokens[self.pos] {
                Token::Star => 0,
                Token::Slash => 1,
                _ => 2,
            };
            self.bump();
            let right = self.parse_primary()?;
            left = if kind == 0 {
                Expression::Mul(Box::new(left), Box::new(right))
            } else if kind == 1 {
                Expression::Div(Box::new(left), Box::new(right))
            } else {
                Expression::Mod(Box::new(left), Box::new(right))
            };
        }
        Ok(left)
    }

    /// Parses further expressions after commas, appending them to `items`.
    #[verifier::rlimit(100)]
    fn parse_list_rest(&mut self, items: &mut Vec<Expression>) -> (r: Result<(), ParseError>)
        requires
            old(self).wf(),
        ensures
            final(self).toks() == old(self).toks(),
            r is Ok ==> final(self).wf() && final(self).at() >= old(self).at(),
            match p_list_rest(old(self).toks(), old(self).at(), exprs_view(old(items)@)) {
                Ok((es, q)) => r is Ok && exprs_view(final(items)@) == es && final(self).at() == q,
                Err(e) => r matches Err(x) && x@ == e,
            },
        decreases old(self).toks().len() - old(self).at(), 70int,
    {
        let ghost ts = self.toks();
        let ghost p0 = self.at();
        let ghost items0 = exprs_view(items@);
        while matches!(self.tokens[self.pos], Token::Comma)
            invariant
                self.wf(),
                self.toks() == ts,
                ts == old(self).toks(),
                p0 == old(self).at(),
                self.at() >= p0,
                items0 == exprs_view(old(items)@),
                p_list_rest(ts, p0, items0) == p_list_rest(ts, self.at(), exprs_view(items@)),
            decreases ts.len() - self.at(),
        {
            self.bump();
            let e = self.parse_expression()?;
            proof {
                lemma_exprs_view_push(items@, e);
            }
            items.push(e);
        }
        Ok(())
    }

    fn parse_entry(&mut self) -> (r: Result<(Expression, Expression), ParseError>)
        requires
            old(self).wf(),
        ensures
            final(self).toks() == old(self).toks(),
            r is Ok ==> final(self).wf() && final(self).at() > old(self).at(),
            match p_entry(old(self).toks(), old(self).at()) {
                Ok((kv, q)) => r matches Ok(x) && (x.0@, x.1@) == kv && final(self).at() == q,
                Err(e) => r matches Err(x) && x@ == e,
            },
        decreases old(self).toks().len() - old(self).at(), 210int,
    {
        let key = self.parse_expression()?;
        self.expect(Token::Colon)?;
        let value = self.parse_expression()?;
        Ok((key, value))
    }

    #[verifier::rlimit(100)]
    fn parse_entries_rest(&mut self, entries: &mut Vec<(Expression, Expression)>) -> (r: Result<
        (),
        ParseError,
    >)
        requires
            old(self).wf(),
        ensures
            final(self).toks() == old(self).toks(),
            r is Ok ==> final(self).wf() && final(self).at() >= old(self).at(),
            match p_entries_rest(old(self).toks(), old(self).at(), entries_view(old(entries)@)) {
                Ok((es, q)) => r is Ok && entries_view(final(entries)@) == es && final(self).at()
                    == q,
                Err(e) => r matches Err(x) && x@ == e,
            },
        decreases old(self).toks().len() - old(self).at(), 70int,
    {
        let ghost ts = self.toks();
        let ghost p0 = self.at();
        let ghost entries0 = entries_view(entries@);
        while matches!(self.tokens[self.pos], Token::Comma)
            invariant
                self.wf(),
                self.toks() == ts,
                ts == old(self).toks(),
                p0 == old(self).at(),
                self.at() >= p0,
                entries0 == entries_view(old(entries)@),
                p_entries_rest(ts, p0, entries0) == p_entries_rest(
                    ts,
                    self.at(),
                    entries_view(entries@),
                ),
            decreases ts.len() - self.at(),
        {
            self.bump();
            let e = self.parse_entry()?;
            proof {
                lemma_entries_view_push(entries@, e);
            }
            entries.push(e);
        }
        Ok(())
    }

    #[verifier::rlimit(100)]
    #[verifier::spinoff_prover]
    fn parse_primary(&mut self) -> (r: Result<Expression, ParseError>)
        requires
            old(self).wf(),
        ensures
            final(self).toks() == old(self).toks(),
            r is Ok ==> final(self).wf() && final(self).at() > old(self).at(),
            expr_agrees(r, final(self).at(), p_primary(old(self).toks(), old(self).at())),
        decreases old(self).toks().len() - old(self).at(), 90int,
    {
        let ghost ts = self.toks();
        let ghost p0 = self.at();
        let lit = match &self.tokens[self.pos] {
            Token::Int(n) => Some(Expression::Int(*n)),
            Token::Float(s) => Some(Expression::Float(copy_string(s))),
            Token::Str(s) => Some(Expression::Str(copy_string(s))),
            Token::Bytes(b) => Some(Expression::Bytes(copy_bytes(b))),
            Token::FStr(parts) => Some(Expression::FString(copy_parts(parts))),
            Token::True => Some(Expression::Bool(true)),
            Token::False => Some(Expression::Bool(false)),
            Token::Null => Some(Expression::Null),
            Token::Ident(n) => Some(Expression::Ident(copy_string(n))),
            _ => None,
        };
        match lit {
            Some(e) => {
                assert(atom(ts[p0]) == Some(e@));
                self.bump();
                self.parse_postfix(e)
            },
            None => {
                if matches!(self.tokens[self.pos], Token::LParen) {
                    self.bump();
                    let e = self.parse_expression()?;
                    self.expect(Token::RParen)?;
                    self.parse_postfix(e)
                } else if matches!(self.tokens[self.pos], Token::LBracket) {
                    self.bump();
                    let mut items: Vec<Expression> = Vec::new();
                    if !matches!(self.tokens[self.pos], Token::RBracket) {
                        let first = self.parse_expression()?;
                        proof {
                            lemma_exprs_view_push(items@, first);
                            assert(exprs_view(items@) =~= Seq::<ExprV>::empty());
                        }
                        items.push(first);
                        self.parse_list_rest(&mut items)?;
                    } else {
                        assert(exprs_view(items@) =~= Seq::<ExprV>::empty());
                    }
                    self.expect(Token::RBracket)?;
                    self.parse_postfix(Expression::List(items))
                } else if matches!(self.tokens[self.pos], Token::LBrace) {
                    self.bump();
                    let mut entries: Vec<(Expression, Expression)> = Vec::new();
                    if !matches!(self.tokens[self.pos], Token::RBrace) {
                        let first = self.parse_entry()?;
                        proof {
                            lemma_entries_view_push(entries@, first);
                            assert(entries_view(entries@) =~= Seq::<(ExprV, ExprV)>::empty());
                        }
                        entries.push(first);
                        self.parse_entries_rest(&mut entries)?;
                    } else {
                        assert(entries_view(entries@) =~= Seq::<(ExprV, ExprV)>::empty());
                    }
                    self.expect(Token::RBrace)?;
                    self.parse_postfix(Expression::Mapping(entries))
                } else {
                    Err(self.error_here(Expected::Literal))
                }
            },
        }
    }

    fn is_named_args(&self) -> (r: bool)
        requires
            self.wf(),
        ensures
            r == is_named_at(self.toks(), self.at()),
    {
        self.pos + 1 < self.tokens.len() && matches!(self.tokens[self.pos], Token::Ident(_))
            && matches!(self.tokens[self.pos + 1], Token::Colon)
    }

    fn parse_named_arg(&mut self) -> (r: Result<(String, Expression), ParseError>)
        requires
            old(self).wf(),
        ensures
            final(self).toks() == old(self).toks(),
            r is Ok ==> final(self).wf() && final(self).at() > old(self).at(),
            match p_named_arg(old(self).toks(), old(self).at()) {
                Ok((a, q)) => r matches Ok(x) && (x.0@, x.1@) == a && final(self).at() == q,
                Err(e) => r matches Err(x) && x@ == e,
            },
        decreases old(self).toks().len() - old(self).at(), 70int,
    {
        let name = match &self.tokens[self.pos] {
            Token::Ident(n) => copy_string(n),
            _ => {
                return Err(self.error_here(Expected::ArgumentName));
            },
        };
        self.bump();
        self.expect(Token::Colon)?;
        let e = self.parse_expression()?;
        Ok((name, e))
    }

    #[verifier::rlimit(100)]
    fn parse_named_rest(&mut self, args: &mut Vec<(String, Expression)>) -> (r: Result<
        (),
        ParseError,
    >)
        requires
            old(self).wf(),
        ensures
            final(self).toks() == old(self).toks(),
            r is Ok ==> final(self).wf() && final(self).at() >= old(self).at(),
            match p_named_rest(old(self).toks(), old(self).at(), named_view(old(args)@)) {
                Ok((es, q)) => r is Ok && named_view(final(args)@) == es && final(self).at() == q,
                Err(e) => r matches Err(x) && x@ == e,
            },
        decreases old(self).toks().len() - old(self).at(), 70int,
    {
        let ghost ts = self.toks();
        let ghost p0 = self.at();
        let ghost args0 = named_view(args@);
        while matches!(self.tokens[self.pos], Token::Comma)
            invariant
                self.wf(),
                self.toks() == ts,
                ts == old(self).toks(),
                p0 == old(self).at(),
                self.at() >= p0,
                args0 == named_view(old(args)@),
                p_named_rest(ts, p0, args0) == p_named_rest(ts, self.at(), named_view(args@)),
            decreases ts.len() - self.at(),
        {
            self.bump();
            let a = self.parse_named_arg()?;
            proof {
                lemma_named_view_push(args@, a);
            }
            args.push(a);
        }
        Ok(())
    }

    #[verifier::rlimit(100)]
    fn parse_call_named(&mut self, base: Expression) -> (r: Result<Expression, ParseError>)
        requires
            old(self).wf(),
        ensures
            final(self).toks() == old(self).toks(),
            r is Ok ==> final(self).wf() && final(self).at() > old(self).at(),
            expr_agrees(r, final(self).at(), p_call_named(old(self).toks(), old(self).at(), base@)),
        decreases old(self).toks().len() - old(self).at(), 220int,
    {
        let mut named: Vec<(String, Expression)> = Vec::new();
        let first = self.parse_named_arg()?;
        proof {
            lemma_named_view_push(named@, first);
            assert(named_view(named@) =~= Seq::<(Seq<char>, ExprV)>::empty());
        }
        named.push(first);
        self.parse_named_rest(&mut named)?;
        self.expect(Token::RParen)?;
        Ok(
            match base {
                Expression::Ident(name) => Expression::Construct { type_ident: name, fields: named },
                other => other,
            },
        )
    }

    #[verifier::rlimit(30)]
    fn parse_call_pos(&mut self, base: Expression) -> (r: Result<Expression, ParseError>)
        requires
            old(self).wf(),
        ensures
            final(self).toks() == old(self).toks(),
            r is Ok ==> final(self).wf() && final(self).at() > old(self).at(),
            expr_agrees(r, final(self).at(), p_call_pos(old(self).toks(), old(self).at(), base@)),
        decreases old(self).toks().len() - old(self).at(), 220int,
    {
        let mut args: Vec<Expression> = Vec::new();
        if !matches!(self.tokens[self.pos], Token::RParen) {
            let first = self.parse_expression()?;
            proof {
                lemma_exprs_view_push(args@, first);
                assert(exprs_view(args@) =~= Seq::<ExprV>::empty());
            }
            args.push(first);
            self.parse_list_rest(&mut args)?;
        } else {
            assert(exprs_view(args@) =~= Seq::<ExprV>::empty());
        }
        self.expect(Token::RParen)?;
        Ok(
            match base {
                Expression::FieldAccess { object, field } => Expression::MethodCall {
                    object,
                    method: field,
                    args,
                },
                other => Expression::Call { callee: Box::new(other), args },
            },
        )
    }

    fn parse_suffix(&mut self, base: Expression) -> (r: Result<Expression, ParseError>)
        requires
            old(self).wf(),
            is_suffix_start(old(self).toks()[old(self).at()]),
        ensures
            final(self).toks() == old(self).toks(),
            r is Ok ==> final(self).wf() && final(self).at() > old(self).at(),
            expr_agrees(r, final(self).at(), p_suffix(old(self).toks(), old(self).at(), base@)),
        decreases old(self).toks().len() - old(self).at(), 70int,
    {
        let k = postfix_tag(&self.tokens[self.pos]);
        assert(self.tokens@[self.at()]@ == self.toks()[self.at()]);
        self.bump();
        if k == 1 {
            if self.is_named_args() {
                self.parse_call_named(base)
            } else {
                self.parse_call_pos(base)
            }
        } else if k == 2 {
            let field = match &self.tokens[self.pos] {
                Token::Ident(n) => copy_string(n),
                _ => {
                    return Err(self.error_here(Expected::FieldName));
                },
            };
            self.bump();
            Ok(Expression::FieldAccess { object: Box::new(base), field })
        } else {
            let index = self.parse_expression()?;
            self.expect(Token::RBracket)?;
            Ok(Expression::Index { object: Box::new(base), index: Box::new(index) })
        }
    }

    #[verifier::rlimit(60)]
    fn parse_postfix(&mut self, base: Expression) -> (r: Result<Expression, ParseError>)
        requires
            old(self).wf(),
        ensures
            final(self).toks() == old(self).toks(),
            r is Ok ==> final(self).wf() && final(self).at() >= old(self).at(),
            expr_agrees(r, final(self).at(), p_postfix(old(self).toks(), old(self).at(), base@)),
        decreases old(self).toks().len() - old(self).at(), 80int,
    {
        let ghost cur = self.toks()[self.at()];
        assert(cur == self.tokens@[self.at()]@);
        let k = postfix_tag(&self.tokens[self.pos]);
        if k == 0 || k == 4 {
            return Ok(base);
        }
        let next = self.parse_suffix(base)?;
        self.parse_postfix(next)
    }
}

/// The position after the newline tokens at `p`.
pub open spec fn skip_nl(ts: Seq<TokenV>, p: int) -> int
    decreases ts.len() - p,
{
    if 0 <= p < ts.len() && ts[p] == TokenV::Newline {
        skip_nl(ts, p + 1)
    } else {
        p
    }
}

pub proof fn lemma_skip_nl(ts: Seq<TokenV>, p: int)
    requires
        tokens_wf(ts),
        0 <= p < ts.len(),
    ensures
        p <= skip_nl(ts, p) < ts.len(),
        ts[skip_nl(ts, p)] != TokenV::Newline,
    decreases ts.len() - p,
{
    if ts[p] == TokenV::Newline {
        lemma_skip_nl(ts, p + 1);
    }
}

pub proof fn lemma_skip_nl_bounds(ts: Seq<TokenV>, p: int)
    requires
        0 <= p <= ts.len(),
    ensures
        p <= skip_nl(ts, p) <= ts.len(),
    decreases ts.len() - p,
{
    if 0 <= p < ts.len() && ts[p] == TokenV::Newline {
        lemma_skip_nl_bounds(ts, p + 1);
    }
}


fn postfix_tag(t: &Token) -> (k: u8)
    ensures
        (k == 0) == (t@ == TokenV::Eof),
        (k == 1) == (t@ == TokenV::LParen),
        (k == 2) == (t@ == TokenV::Dot),
        (k == 3) == (t@ == TokenV::LBracket),
        k <= 4,
{
    match t {
        Token::Eof => 0,
        Token::LParen => 1,
        Token::Dot => 2,
        Token::LBracket => 3,
        _ => 4,
    }
}

fn cmp_kind(t: &Token) -> (r: Option<BinOp>)
    ensures
        r == cmp_op(t@),
{
    match t {
        Token::EqEq => Some(BinOp::Eq),
        Token::NotEq => Some(BinOp::NotEq),
        Token::Lt => Some(BinOp::Lt),
        Token::Gt => Some(BinOp::Gt),
        Token::LtEq => Some(BinOp::LtEq),
        Token::GtEq => Some(BinOp::GtEq),
        _ => None,
    }
}

fn bit_kind(lvl: usize, t: &Token) -> (r: Option<BinOp>)
    ensures
        r == bit_op_at(lvl as nat, t@),
{
    match t {
        Token::Pipe => if lvl == 0 { Some(BinOp::Bit(BitOp::Or)) } else { None },
        Token::Caret => if lvl == 1 { Some(BinOp::Bit(BitOp::Xor)) } else { None },
        Token::Amp => if lvl == 2 { Some(BinOp::Bit(BitOp::And)) } else { None },
        Token::Shl => if lvl == 3 { Some(BinOp::Bit(BitOp::Shl)) } else { None },
        Token::Shr => if lvl == 3 { Some(BinOp::Bit(BitOp::Shr)) } else { None },
        _ => None,
    }
}

/// The binary expression `l op r`.
pub fn make_binary(op: BinOp, l: Expression, r: Expression) -> (e: Expression)
    ensures
        e@ == bin(op, l@, r@),
{
    let (l, r) = (Box::new(l), Box::new(r));
    match op {
        BinOp::Add => Expression::Add(l, r),
        BinOp::Sub => Expression::Sub(l, r),
        BinOp::Mul => Expression::Mul(l, r),
        BinOp::Div => Expression::Div(l, r),
        BinOp::Mod => Expression::Mod(l, r),
        BinOp::Eq => Expression::Eq(l, r),
        BinOp::NotEq => Expression::NotEq(l, r),
        BinOp::Lt => Expression::Lt(l, r),
        BinOp::Gt => Expression::Gt(l, r),
        BinOp::LtEq => Expression::LtEq(l, r),
        BinOp::GtEq => Expression::GtEq(l, r),
        BinOp::And => Expression::And(l, r),
        BinOp::Or => Expression::Or(l, r),
        BinOp::Range => Expression::Range(l, r),
        BinOp::Bit(BitOp::And) => Expression::BitAnd(l, r),
        BinOp::Bit(BitOp::Or) => Expression::BitOr(l, r),
        BinOp::Bit(BitOp::Xor) => Expression::BitXor(l, r),
        BinOp::Bit(BitOp::Shl) => Expression::Shl(l, r),
        BinOp::Bit(BitOp::Shr) => Expression::Shr(l, r),
    }
}

/// `+` and `-` group to the left: three multiplicative operands joined by two additive
/// operators make `(e1 op1 e2) op2 e3`, never `e1 op1 (e2 op2 e3)`.
pub proof fn law_additive_left_assoc(ts: Seq<TokenV>, p: int, e1: ExprV, q1: int, e2: ExprV, q2: int, e3: ExprV, q3: int)
    requires
        p_mul(ts, p) == Ok::<(ExprV, int), ParseErrorV>((e1, q1)),
        p_mul(ts, q1 + 1) == Ok::<(ExprV, int), ParseErrorV>((e2, q2)),
        p_mul(ts, q2 + 1) == Ok::<(ExprV, int), ParseErrorV>((e3, q3)),
        0 <= p < q1 < q2 < q3 < ts.len(),
        add_op(ts[q1]) is Some,
        add_op(ts[q2]) is Some,
        add_op(ts[q3]) is None,
    ensures
        p_add(ts, p) == Ok::<(ExprV, int), ParseErrorV>((
            bin(add_op(ts[q2])->0, bin(add_op(ts[q1])->0, e1, e2), e3),
            q3,
        )),
{
    let o1 = add_op(ts[q1])->0;
    let o2 = add_op(ts[q2])->0;
    assert(p_add_rest(ts, q3, bin(o2, bin(o1, e1, e2), e3)) == Ok::<(ExprV, int), ParseErrorV>((bin(o2, bin(o1, e1, e2), e3), q3)));
    assert(p_add_rest(ts, q2, bin(o1, e1, e2)) == p_add_rest(ts, q3, bin(o2, bin(o1, e1, e2), e3)));
    assert(p_add_rest(ts, q1, e1) == p_add_rest(ts, q2, bin(o1, e1, e2)));
}

/// `*`, `/` and `%` group to the left: three primaries joined by two multiplicative
/// operators make `(e1 op1 e2) op2 e3`.
pub proof fn law_multiplicative_left_assoc(ts: Seq<TokenV>, p: int, e1: ExprV, q1: int, e2: ExprV, q2: int, e3: ExprV, q3: int)
    requires
        p_primary(ts, p) == Ok::<(ExprV, int), ParseErrorV>((e1, q1)),
        p_primary(ts, q1 + 1) == Ok::<(ExprV, int), ParseErrorV>((e2, q2)),
        p_primary(ts, q2 + 1) == Ok::<(ExprV, int), ParseErrorV>((e3, q3)),
        0 <= p < q1 < q2 < q3 < ts.len(),
        mul_op(ts[q1]) is Some,
        mul_op(ts[q2]) is Some,
        mul_op(ts[q3]) is None,
    ensures
        p_mul(ts, p) == Ok::<(ExprV, int), ParseErrorV>((
            bin(mul_op(ts[q2])->0, bin(mul_op(ts[q1])->0, e1, e2), e3),
            q3,
        )),
{
    let o1 = mul_op(ts[q1])->0;
    let o2 = mul_op(ts[q2])->0;
    assert(p_mul_rest(ts, q3, bin(o2, bin(o1, e1, e2), e3)) == Ok::<(ExprV, int), ParseErrorV>((bin(o2, bin(o1, e1, e2), e3), q3)));
    assert(p_mul_rest(ts, q2, bin(o1, e1, e2)) == p_mul_rest(ts, q3, bin(o2, bin(o1, e1, e2), e3)));
    assert(p_mul_rest(ts, q1, e1) == p_mul_rest(ts, q2, bin(o1, e1, e2)));
}

/// An int token followed by a token that continues no product is a product on its own.
proof fn lemma_int_operand(ts: Seq<TokenV>, p: int, n: i64)
    requires
        0 <= p,
        p + 1 < ts.len(),
        ts[p] == TokenV::Int(n),
        !is_suffix_start(ts[p + 1]),
        mul_op(ts[p + 1]) is None,
    ensures
        p_mul(ts, p) == Ok::<(ExprV, int), ParseErrorV>((ExprV::Int(n), p + 1)),
{
    assert(p_postfix(ts, p + 1, ExprV::Int(n)) == Ok::<(ExprV, int), ParseErrorV>((ExprV::Int(n), p + 1)));
    assert(p_primary(ts, p) == Ok::<(ExprV, int), ParseErrorV>((ExprV::Int(n), p + 1)));
    assert(p_mul_rest(ts, p + 1, ExprV::Int(n)) == Ok::<(ExprV, int), ParseErrorV>((ExprV::Int(n), p + 1)));
}

/// A sum that runs up to the final `Eof` is the whole expression.
proof fn lemma_sum_is_expression(ts: Seq<TokenV>, p: int, e: ExprV, q: int)
    requires
        0 <= p < q < ts.len(),
        ts[q] == TokenV::Eof,
        !is_not(ts[p]),
        p_add(ts, p) == Ok::<(ExprV, int), ParseErrorV>((e, q)),
    ensures
        p_expr(ts, p) == Ok::<(ExprV, int), ParseErrorV>((e, q)),
{
    assert(p_bits(ts, p, 4) == Ok::<(ExprV, int), ParseErrorV>((e, q)));
    assert(p_bits_rest(ts, q, e, 3) == Ok::<(ExprV, int), ParseErrorV>((e, q)));
    assert(p_bits(ts, p, 3) == Ok::<(ExprV, int), ParseErrorV>((e, q)));
    assert(p_bits_rest(ts, q, e, 2) == Ok::<(ExprV, int), ParseErrorV>((e, q)));
    assert(p_bits(ts, p, 2) == Ok::<(ExprV, int), ParseErrorV>((e, q)));
    assert(p_bits_rest(ts, q, e, 1) == Ok::<(ExprV, int), ParseErrorV>((e, q)));
    assert(p_bits(ts, p, 1) == Ok::<(ExprV, int), ParseErrorV>((e, q)));
    assert(p_bits_rest(ts, q, e, 0) == Ok::<(ExprV, int), ParseErrorV>((e, q)));
    assert(p_bits(ts, p, 0) == Ok::<(ExprV, int), ParseErrorV>((e, q)));
    assert(p_cmp(ts, p) == Ok::<(ExprV, int), ParseErrorV>((e, q)));
    assert(p_not(ts, p) == Ok::<(ExprV, int), ParseErrorV>((e, q)));
    assert(p_and_rest(ts, q, e) == Ok::<(ExprV, int), ParseErrorV>((e, q)));
    assert(p_and(ts, p) == Ok::<(ExprV, int), ParseErrorV>((e, q)));
    assert(p_or_rest(ts, q, e) == Ok::<(ExprV, int), ParseErrorV>((e, q)));
    assert(p_or(ts, p) == Ok::<(ExprV, int), ParseErrorV>((e, q)));
}

/// The tokens of `a o1 b o2 c` for three ints and two of `+ -` parse as `(a o1 b) o2 c`:
/// `10 - 3 - 2` is `(10 - 3) - 2`, and `10 - 3 + 2` is `(10 - 3) + 2`.
pub proof fn law_sum_of_ints_groups_left(a: i64, t1: TokenV, b: i64, t2: TokenV, c: i64)
    requires
        t1 == TokenV::Plus || t1 == TokenV::Minus,
        t2 == TokenV::Plus || t2 == TokenV::Minus,
    ensures
        p_expr(seq![TokenV::Int(a), t1, TokenV::Int(b), t2, TokenV::Int(c), TokenV::Eof], 0)
            == Ok::<(ExprV, int), ParseErrorV>((
            bin(
                if t2 == TokenV::Plus { BinOp::Add } else { BinOp::Sub },
                bin(if t1 == TokenV::Plus { BinOp::Add } else { BinOp::Sub }, ExprV::Int(a), ExprV::Int(b)),
                ExprV::Int(c),
            ),
            5,
        )),
{
    let ts = seq![TokenV::Int(a), t1, TokenV::Int(b), t2, TokenV::Int(c), TokenV::Eof];
    lemma_int_operand(ts, 0, a);
    lemma_int_operand(ts, 2, b);
    lemma_int_operand(ts, 4, c);
    law_additive_left_assoc(ts, 0, ExprV::Int(a), 1, ExprV::Int(b), 3, ExprV::Int(c), 5);
    let e = bin(add_op(t2)->0, bin(add_op(t1)->0, ExprV::Int(a), ExprV::Int(b)), ExprV::Int(c));
    lemma_sum_is_expression(ts, 0, e, 5);
}

/// An int token followed by a token that continues no expression is a primary on its own.
proof fn lemma_int_primary(ts: Seq<TokenV>, p: int, n: i64)
    requires
        0 <= p,
        p + 1 < ts.len(),
        ts[p] == TokenV::Int(n),
        !is_suffix_start(ts[p + 1]),
    ensures
        p_primary(ts, p) == Ok::<(ExprV, int), ParseErrorV>((ExprV::Int(n), p + 1)),
{
    assert(p_postfix(ts, p + 1, ExprV::Int(n)) == Ok::<(ExprV, int), ParseErrorV>((ExprV::Int(n), p + 1)));
}

/// The tokens of `a o1 b o2 c` for three ints and two of `* / %` parse as `(a o1 b) o2 c`.
pub proof fn law_product_of_ints_groups_left(a: i64, t1: TokenV, b: i64, t2: TokenV, c: i64)
    requires
        mul_op(t1) is Some,
        mul_op(t2) is Some,
    ensures
        p_expr(seq![TokenV::Int(a), t1, TokenV::Int(b), t2, TokenV::Int(c), TokenV::Eof], 0)
            == Ok::<(ExprV, int), ParseErrorV>((
            bin(mul_op(t2)->0, bin(mul_op(t1)->0, ExprV::Int(a), ExprV::Int(b)), ExprV::Int(c)),
            5,
        )),
{
    let ts = seq![TokenV::Int(a), t1, TokenV::Int(b), t2, TokenV::Int(c), TokenV::Eof];
    lemma_int_primary(ts, 0, a);
    lemma_int_primary(ts, 2, b);
    lemma_int_primary(ts, 4, c);
    law_multiplicative_left_assoc(ts, 0, ExprV::Int(a), 1, ExprV::Int(b), 3, ExprV::Int(c), 5);
    let e = bin(mul_op(t2)->0, bin(mul_op(t1)->0, ExprV::Int(a), ExprV::Int(b)), ExprV::Int(c));
    assert(p_add_rest(ts, 5, e) == Ok::<(ExprV, int), ParseErrorV>((e, 5)));
    assert(p_add(ts, 0) == Ok::<(ExprV, int), ParseErrorV>((e, 5)));
    lemma_sum_is_expression(ts, 0, e, 5);
}

/// A product binds tighter than a sum on either side: `a + b * c` is `a + (b * c)` and
/// `a * b + c` is `(a * b) + c`, for any ints and any of `+ -` and `* / %`.
pub proof fn law_product_binds_tighter(a: i64, t1: TokenV, b: i64, t2: TokenV, c: i64)
    requires
        add_op(t1) is Some && mul_op(t2) is Some || mul_op(t1) is Some && add_op(t2) is Some,
    ensures
        add_op(t1) is Some ==> p_expr(seq![TokenV::Int(a), t1, TokenV::Int(b), t2, TokenV::Int(c), TokenV::Eof], 0)
            == Ok::<(ExprV, int), ParseErrorV>((
            bin(add_op(t1)->0, ExprV::Int(a), bin(mul_op(t2)->0, ExprV::Int(b), ExprV::Int(c))),
            5,
        )),
        mul_op(t1) is Some ==> p_expr(seq![TokenV::Int(a), t1, TokenV::Int(b), t2, TokenV::Int(c), TokenV::Eof], 0)
            == Ok::<(ExprV, int), ParseErrorV>((
            bin(add_op(t2)->0, bin(mul_op(t1)->0, ExprV::Int(a), ExprV::Int(b)), ExprV::Int(c)),
            5,
        )),
{
    let ts = seq![TokenV::Int(a), t1, TokenV::Int(b), t2, TokenV::Int(c), TokenV::Eof];
    lemma_int_primary(ts, 0, a);
    lemma_int_primary(ts, 2, b);
    lemma_int_primary(ts, 4, c);
    if add_op(t1) is Some {
        let o1 = add_op(t1)->0;
        let o2 = mul_op(t2)->0;
        let r = bin(o2, ExprV::Int(b), ExprV::Int(c));
        lemma_int_operand(ts, 0, a);
        assert(p_mul_rest(ts, 5, r) == Ok::<(ExprV, int), ParseErrorV>((r, 5)));
        assert(p_mul_rest(ts, 3, ExprV::Int(b)) == Ok::<(ExprV, int), ParseErrorV>((r, 5)));
        assert(p_mul(ts, 2) == Ok::<(ExprV, int), ParseErrorV>((r, 5)));
        let e = bin(o1, ExprV::Int(a), r);
        assert(p_add_rest(ts, 5, e) == Ok::<(ExprV, int), ParseErrorV>((e, 5)));
        assert(p_add_rest(ts, 1, ExprV::Int(a)) == Ok::<(ExprV, int), ParseErrorV>((e, 5)));
        assert(p_add(ts, 0) == Ok::<(ExprV, int), ParseErrorV>((e, 5)));
        lemma_sum_is_expression(ts, 0, e, 5);
    } else {
        let o1 = mul_op(t1)->0;
        let o2 = add_op(t2)->0;
        let l = bin(o1, ExprV::Int(a), ExprV::Int(b));
        assert(p_mul_rest(ts, 3, l) == Ok::<(ExprV, int), ParseErrorV>((l, 3)));
        assert(p_mul_rest(ts, 1, ExprV::Int(a)) == Ok::<(ExprV, int), ParseErrorV>((l, 3)));
        assert(p_mul(ts, 0) == Ok::<(ExprV, int), ParseErrorV>((l, 3)));
        lemma_int_operand(ts, 4, c);
        let e = bin(o2, l, ExprV::Int(c));
        assert(p_add_rest(ts, 5, e) == Ok::<(ExprV, int), ParseErrorV>((e, 5)));
        assert(p_add_rest(ts, 3, l) == Ok::<(ExprV, int), ParseErrorV>((e, 5)));
        assert(p_add(ts, 0) == Ok::<(ExprV, int), ParseErrorV>((e, 5)));
        lemma_sum_is_expression(ts, 0, e, 5);
    }
}

/// The operator that a comparison, additive or multiplicative token stands for.
pub open spec fn binary_token_op(t: TokenV) -> Option<BinOp> {
    match cmp_op(t) {
        Some(op) => Some(op),
        None => match add_op(t) {
            Some(op) => Some(op),
            None => mul_op(t),
        },
    }
}

/// A sum followed by `Eof` or by a comparison is an operand of every bitwise level on its
/// own.
proof fn lemma_sum_bits_operand(ts: Seq<TokenV>, p: int, e: ExprV, q: int)
    requires
        0 <= p < q < ts.len(),
        ts[q] == TokenV::Eof || cmp_op(ts[q]) is Some,
        p_add(ts, p) == Ok::<(ExprV, int), ParseErrorV>((e, q)),
    ensures
        p_bits(ts, p, 0) == Ok::<(ExprV, int), ParseErrorV>((e, q)),
{
    let t = ts[q];
    assert(bit_op_at(0, t) is None && bit_op_at(1, t) is None && bit_op_at(2, t) is None && bit_op_at(3, t) is None);
    assert(p_bits(ts, p, 4) == Ok::<(ExprV, int), ParseErrorV>((e, q)));
    assert(p_bits_rest(ts, q, e, 3) == Ok::<(ExprV, int), ParseErrorV>((e, q)));
    assert(p_bits(ts, p, 3) == Ok::<(ExprV, int), ParseErrorV>((e, q)));
    assert(p_bits_rest(ts, q, e, 2) == Ok::<(ExprV, int), ParseErrorV>((e, q)));
    assert(p_bits(ts, p, 2) == Ok::<(ExprV, int), ParseErrorV>((e, q)));
    assert(p_bits_rest(ts, q, e, 1) == Ok::<(ExprV, int), ParseErrorV>((e, q)));
    assert(p_bits(ts, p, 1) == Ok::<(ExprV, int), ParseErrorV>((e, q)));
    assert(p_bits_rest(ts, q, e, 0) == Ok::<(ExprV, int), ParseErrorV>((e, q)));
}

/// An int followed by `Eof` or by a comparison is an operand of every bitwise level on its
/// own.
proof fn lemma_int_bits_operand(ts: Seq<TokenV>, p: int, n: i64)
    requires
        0 <= p,
        p + 1 < ts.len(),
        ts[p] == TokenV::Int(n),
        ts[p + 1] == TokenV::Eof || cmp_op(ts[p + 1]) is Some,
    ensures
        p_bits(ts, p, 0) == Ok::<(ExprV, int), ParseErrorV>((ExprV::Int(n), p + 1)),
{
    let e = ExprV::Int(n);
    let q = p + 1;
    let t = ts[q];
    assert(add_op(t) is None && mul_op(t) is None && !is_suffix_start(t));
    lemma_int_operand(ts, p, n);
    assert(p_add_rest(ts, q, e) == Ok::<(ExprV, int), ParseErrorV>((e, q)));
    assert(p_add(ts, p) == Ok::<(ExprV, int), ParseErrorV>((e, q)));
    lemma_sum_bits_operand(ts, p, e, q);
}

/// Two ints joined by one comparison, additive or multiplicative operator parse as that one
/// binary expression over the two ints.
pub proof fn law_binary_of_two_ints(a: i64, t: TokenV, b: i64)
    requires
        binary_token_op(t) is Some,
    ensures
        p_expr(seq![TokenV::Int(a), t, TokenV::Int(b), TokenV::Eof], 0) == Ok::<(ExprV, int), ParseErrorV>((
            bin(binary_token_op(t)->0, ExprV::Int(a), ExprV::Int(b)),
            3,
        )),
{
    let ts = seq![TokenV::Int(a), t, TokenV::Int(b), TokenV::Eof];
    let op = binary_token_op(t)->0;
    let e = bin(op, ExprV::Int(a), ExprV::Int(b));
    lemma_int_bits_operand(ts, 2, b);
    lemma_int_primary(ts, 0, a);
    lemma_int_primary(ts, 2, b);
    if cmp_op(t) is Some {
        lemma_int_bits_operand(ts, 0, a);
        assert(p_cmp(ts, 0) == Ok::<(ExprV, int), ParseErrorV>((e, 3)));
    } else if add_op(t) is Some {
        lemma_int_operand(ts, 0, a);
        lemma_int_operand(ts, 2, b);
        assert(p_add_rest(ts, 3, e) == Ok::<(ExprV, int), ParseErrorV>((e, 3)));
        assert(p_add_rest(ts, 1, ExprV::Int(a)) == Ok::<(ExprV, int), ParseErrorV>((e, 3)));
        assert(p_add(ts, 0) == Ok::<(ExprV, int), ParseErrorV>((e, 3)));
    } else {
        assert(p_mul_rest(ts, 3, e) == Ok::<(ExprV, int), ParseErrorV>((e, 3)));
        assert(p_mul_rest(ts, 1, ExprV::Int(a)) == Ok::<(ExprV, int), ParseErrorV>((e, 3)));
        assert(p_mul(ts, 0) == Ok::<(ExprV, int), ParseErrorV>((e, 3)));
        assert(p_add_rest(ts, 3, e) == Ok::<(ExprV, int), ParseErrorV>((e, 3)));
        assert(p_add(ts, 0) == Ok::<(ExprV, int), ParseErrorV>((e, 3)));
    }
    if cmp_op(t) is None {
        lemma_sum_is_expression(ts, 0, e, 3);
    } else {
        assert(p_not(ts, 0) == Ok::<(ExprV, int), ParseErrorV>((e, 3)));
        assert(p_and_rest(ts, 3, e) == Ok::<(ExprV, int), ParseErrorV>((e, 3)));
        assert(p_and(ts, 0) == Ok::<(ExprV, int), ParseErrorV>((e, 3)));
        assert(p_or_rest(ts, 3, e) == Ok::<(ExprV, int), ParseErrorV>((e, 3)));
        assert(p_or(ts, 0) == Ok::<(ExprV, int), ParseErrorV>((e, 3)));
    }
}

} // verus!
