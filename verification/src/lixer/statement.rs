//! The statement half of the Julix parser.
use vstd::prelude::*;
use crate::lixer::token::{Token, TokenV};
use crate::lixer::ast::{
    Expression, ExprV, Statement, StmtV, ElifBranch, stmts_view, elifs_view, lemma_stmts_view_push,
    lemma_elifs_view_push, strings_view, string_pairs_view, methods_view, FunctionDef,
};
use crate::lixer::parser::{
    Parser, ParseError, ParseErrorV, Expected, ExpectedV, tokens_wf, perr, out_of_range, p_expect,
    p_expr, skip_nl, lemma_skip_nl_bounds, lemma_skip_nl,
};
use crate::text::copy_string;

verus! {

// ---------------------------------------------------------------------------
// Statements: specification

/// The end of a statement: `;` or a newline is taken, `Eof` is left.
pub open spec fn p_end(ts: Seq<TokenV>, p: int) -> Result<int, ParseErrorV> {
    if !(0 <= p < ts.len()) {
        Err(out_of_range())
    } else if ts[p] == TokenV::Semicolon || ts[p] == TokenV::Newline {
        Ok(p + 1)
    } else if ts[p] == TokenV::Eof {
        Ok(p)
    } else {
        Err(perr(ExpectedV::EndOfStatement, ts[p]))
    }
}

pub open spec fn p_ident(ts: Seq<TokenV>, p: int) -> Result<(Seq<char>, int), ParseErrorV> {
    if !(0 <= p < ts.len()) {
        Err(out_of_range())
    } else {
        match ts[p] {
            TokenV::Ident(n) => Ok((n, p + 1)),
            t => Err(perr(ExpectedV::Identifier, t)),
        }
    }
}

/// `( expr )` at `p`: the expression, and the position after the parenthesis.
pub open spec fn p_paren_expr(ts: Seq<TokenV>, p: int) -> Result<(ExprV, int), ParseErrorV> {
    match p_expect(ts, p, TokenV::LParen) {
        Ok(q) => match p_expr(ts, q) {
            Ok((e, r)) => match p_expect(ts, r, TokenV::RParen) {
                Ok(r2) => Ok((e, r2)),
                Err(x) => Err(x),
            },
            Err(x) => Err(x),
        },
        Err(x) => Err(x),
    }
}

/// `= expr` and the statement end at `p`: the expression, and the position after the end.
pub open spec fn p_assign_tail(ts: Seq<TokenV>, p: int) -> Result<(ExprV, int), ParseErrorV> {
    match p_expect(ts, p, TokenV::Assign) {
        Ok(q) => match p_expr(ts, q) {
            Ok((e, r)) => match p_end(ts, r) {
                Ok(r2) => Ok((e, r2)),
                Err(x) => Err(x),
            },
            Err(x) => Err(x),
        },
        Err(x) => Err(x),
    }
}

/// An expression and the statement end at `p`.
pub open spec fn p_expr_end(ts: Seq<TokenV>, p: int) -> Result<(ExprV, int), ParseErrorV> {
    match p_expr(ts, p) {
        Ok((e, q)) => match p_end(ts, q) {
            Ok(r) => Ok((e, r)),
            Err(x) => Err(x),
        },
        Err(x) => Err(x),
    }
}

/// Whether the token ends a statement.
pub open spec fn is_end(t: TokenV) -> bool {
    t == TokenV::Semicolon || t == TokenV::Newline || t == TokenV::Eof
}

/// `return ;` or `return expr ;` at `p`.
pub open spec fn p_return(ts: Seq<TokenV>, p: int) -> Result<(StmtV, int), ParseErrorV> {
    if 0 <= p + 1 < ts.len() && is_end(ts[p + 1]) {
        match p_end(ts, p + 1) {
            Ok(q) => Ok((StmtV::Return(None), q)),
            Err(x) => Err(x),
        }
    } else {
        match p_expr_end(ts, p + 1) {
            Ok((e, q)) => Ok((StmtV::Return(Some(e)), q)),
            Err(x) => Err(x),
        }
    }
}

/// An optional type annotation `: name` at `p`: the position after it (the type is not kept).
pub open spec fn p_opt_type(ts: Seq<TokenV>, p: int) -> Result<int, ParseErrorV> {
    if 0 <= p < ts.len() && ts[p] == TokenV::Colon {
        match p_ident(ts, p + 1) {
            Ok((_, q)) => Ok(q),
            Err(x) => Err(x),
        }
    } else {
        Ok(p)
    }
}

/// The parameter names after the first one, from `p` up to and including `)`; each may carry
/// a type annotation.
pub open spec fn p_param_rest(ts: Seq<TokenV>, p: int, acc: Seq<Seq<char>>) -> Result<
    (Seq<Seq<char>>, int),
    ParseErrorV,
>
    decreases ts.len() - p,
{
    match p_ident(ts, p) {
        Ok((n, q)) => match p_opt_type(ts, q) {
            Ok(q2) => if p < q2 && 0 <= q2 < ts.len() && ts[q2] == TokenV::Comma {
                p_param_rest(ts, q2 + 1, acc.push(n))
            } else {
                match p_expect(ts, q2, TokenV::RParen) {
                    Ok(r) => Ok((acc.push(n), r)),
                    Err(x) => Err(x),
                }
            },
            Err(x) => Err(x),
        },
        Err(x) => Err(x),
    }
}

/// `( name, ... )` at `p`: the parameter names and the position after `)`.
pub open spec fn p_params(ts: Seq<TokenV>, p: int) -> Result<(Seq<Seq<char>>, int), ParseErrorV> {
    match p_expect(ts, p, TokenV::LParen) {
        Ok(q) => if 0 <= q < ts.len() && ts[q] == TokenV::RParen {
            Ok((Seq::empty(), q + 1))
        } else {
            p_param_rest(ts, q, Seq::empty())
        },
        Err(x) => Err(x),
    }
}

/// `function name ( params ) (: type)? block` at `p`: the name, the parameters and the body.
pub open spec fn p_fn_parts(ts: Seq<TokenV>, p: int) -> Result<((Seq<char>, Seq<Seq<char>>, Seq<StmtV>), int), ParseErrorV>
    decreases ts.len() - p, 2int,
{
    if !(0 <= p < ts.len()) {
        Err(out_of_range())
    } else {
        match p_ident(ts, p + 1) {
            Ok((name, q)) => match p_params(ts, q) {
                Ok((params, r)) => match p_opt_type(ts, r) {
                    Ok(r2) => if p < r2 && r2 <= ts.len() {
                        match p_block(ts, r2) {
                            Ok((body, r3)) => Ok(((name, params, body), r3)),
                            Err(x) => Err(x),
                        }
                    } else {
                        Err(out_of_range())
                    },
                    Err(x) => Err(x),
                },
                Err(x) => Err(x),
            },
            Err(x) => Err(x),
        }
    }
}

/// A function definition at `p`.
pub open spec fn p_function(ts: Seq<TokenV>, p: int) -> Result<(StmtV, int), ParseErrorV>
    decreases ts.len() - p, 3int,
{
    match p_fn_parts(ts, p) {
        Ok(((name, params, body), r)) => Ok((StmtV::FunctionDef { name, params, body }, r)),
        Err(x) => Err(x),
    }
}

/// The members of a type body from `p` up to and including `}`: fields `name: type;` and
/// methods.
pub open spec fn p_members(
    ts: Seq<TokenV>,
    p: int,
    fields: Seq<(Seq<char>, Seq<char>)>,
    methods: Seq<(Seq<char>, Seq<Seq<char>>, Seq<StmtV>)>,
) -> Result<((Seq<(Seq<char>, Seq<char>)>, Seq<(Seq<char>, Seq<Seq<char>>, Seq<StmtV>)>), int), ParseErrorV>
    decreases ts.len() - p, 6int,
{
    if !(0 <= p < ts.len()) {
        Err(out_of_range())
    } else {
        match ts[p] {
            TokenV::RBrace => Ok(((fields, methods), p + 1)),
            TokenV::Function => match p_fn_parts(ts, p) {
                Ok((m, q)) => if p < q && q <= ts.len() {
                    proof {
                        lemma_skip_nl_bounds(ts, q);
                    }
                    p_members(ts, skip_nl(ts, q), fields, methods.push(m))
                } else {
                    Err(out_of_range())
                },
                Err(x) => Err(x),
            },
            TokenV::Ident(f) => match p_expect(ts, p + 1, TokenV::Colon) {
                Ok(q) => match p_ident(ts, q) {
                    Ok((ty, r)) => match p_end(ts, r) {
                        Ok(r2) => if p < r2 && r2 <= ts.len() {
                            proof {
                                lemma_skip_nl_bounds(ts, r2);
                            }
                            p_members(ts, skip_nl(ts, r2), fields.push((f, ty)), methods)
                        } else {
                            Err(out_of_range())
                        },
                        Err(x) => Err(x),
                    },
                    Err(x) => Err(x),
                },
                Err(x) => Err(x),
            },
            t => Err(perr(ExpectedV::FieldName, t)),
        }
    }
}

/// `type Name { members }` at `p`.
pub open spec fn p_typedef(ts: Seq<TokenV>, p: int) -> Result<(StmtV, int), ParseErrorV>
    decreases ts.len() - p, 3int,
{
    if !(0 <= p < ts.len()) {
        Err(out_of_range())
    } else {
        match p_ident(ts, p + 1) {
            Ok((name, q)) => match p_expect(ts, q, TokenV::LBrace) {
                Ok(r) => if p < r && r <= ts.len() {
                    proof {
                        lemma_skip_nl_bounds(ts, r);
                    }
                    match p_members(ts, skip_nl(ts, r), Seq::empty(), Seq::empty()) {
                        Ok(((fields, methods), r2)) => Ok((StmtV::TypeDef { name, fields, methods }, r2)),
                        Err(x) => Err(x),
                    }
                } else {
                    Err(out_of_range())
                },
                Err(x) => Err(x),
            },
            Err(x) => Err(x),
        }
    }
}

pub open spec fn p_stmt(ts: Seq<TokenV>, p: int) -> Result<(StmtV, int), ParseErrorV>
    decreases ts.len() - p, 4int,
{
    if !(0 <= p < ts.len()) {
        Err(out_of_range())
    } else {
        match ts[p] {
            TokenV::Print => match p_paren_expr(ts, p + 1) {
                Ok((e, q)) => match p_end(ts, q) {
                    Ok(r) => Ok((StmtV::Print(e), r)),
                    Err(x) => Err(x),
                },
                Err(x) => Err(x),
            },
            TokenV::PrintLn => match p_paren_expr(ts, p + 1) {
                Ok((e, q)) => match p_end(ts, q) {
                    Ok(r) => Ok((StmtV::PrintLn(e), r)),
                    Err(x) => Err(x),
                },
                Err(x) => Err(x),
            },
            TokenV::Let => match p_ident(ts, p + 1) {
                Ok((name, q)) => match p_opt_type(ts, q) {
                    Ok(q2) => match p_assign_tail(ts, q2) {
                        Ok((e, r)) => Ok((StmtV::Let { name, expr: e }, r)),
                        Err(x) => Err(x),
                    },
                    Err(x) => Err(x),
                },
                Err(x) => Err(x),
            },
            TokenV::Const => match p_ident(ts, p + 1) {
                Ok((name, q)) => match p_opt_type(ts, q) {
                    Ok(q2) => match p_assign_tail(ts, q2) {
                        Ok((e, r)) => Ok((StmtV::Const { name, expr: e }, r)),
                        Err(x) => Err(x),
                    },
                    Err(x) => Err(x),
                },
                Err(x) => Err(x),
            },
            TokenV::If => p_if(ts, p),
            TokenV::While => p_while(ts, p),
            TokenV::For => p_for(ts, p),
            TokenV::Break => match p_end(ts, p + 1) {
                Ok(q) => Ok((StmtV::Break, q)),
                Err(x) => Err(x),
            },
            TokenV::Continue => match p_end(ts, p + 1) {
                Ok(q) => Ok((StmtV::Continue, q)),
                Err(x) => Err(x),
            },
            TokenV::Function => p_function(ts, p),
            TokenV::Type => p_typedef(ts, p),
            TokenV::Return => p_return(ts, p),
            TokenV::Ident(name) => if p + 1 < ts.len() && ts[p + 1] == TokenV::Assign {
                match p_assign_tail(ts, p + 1) {
                    Ok((e, r)) => Ok((StmtV::Assign { name, expr: e }, r)),
                    Err(x) => Err(x),
                }
            } else {
                match p_expr_end(ts, p) {
                    Ok((e, r)) => Ok((StmtV::Expr(e), r)),
                    Err(x) => Err(x),
                }
            },
            t => Err(perr(ExpectedV::Statement, t)),
        }
    }
}

pub open spec fn p_if(ts: Seq<TokenV>, p: int) -> Result<(StmtV, int), ParseErrorV>
    decreases ts.len() - p, 3int,
{
    if !(0 <= p < ts.len()) {
        Err(out_of_range())
    } else {
        match p_paren_expr(ts, p + 1) {
            Ok((c, q)) => if p < q && q <= ts.len() {
                match p_block(ts, q) {
                    Ok((then_body, r)) => if p < r && r <= ts.len() {
                        match p_elifs(ts, r, Seq::empty()) {
                            Ok(((elifs, else_body), r2)) => Ok(
                                (
                                    StmtV::If {
                                        condition: c,
                                        then_body,
                                        elif_branches: elifs,
                                        else_body,
                                    },
                                    r2,
                                ),
                            ),
                            Err(x) => Err(x),
                        }
                    } else {
                        Err(out_of_range())
                    },
                    Err(x) => Err(x),
                }
            } else {
                Err(out_of_range())
            },
            Err(x) => Err(x),
        }
    }
}

/// The `elif` branches and the `else` block that follow an `if` block at `p`.
pub open spec fn p_elifs(ts: Seq<TokenV>, p: int, acc: Seq<(ExprV, Seq<StmtV>)>) -> Result<
    ((Seq<(ExprV, Seq<StmtV>)>, Option<Seq<StmtV>>), int),
    ParseErrorV,
>
    decreases ts.len() - p, 6int,
{
    if !(0 <= p < ts.len()) {
        Err(out_of_range())
    } else {
        let q = skip_nl(ts, p);
        proof {
            lemma_skip_nl_bounds(ts, p);
        }
        if !(q < ts.len()) {
            Err(out_of_range())
        } else if ts[q] == TokenV::Elif {
            match p_paren_expr(ts, q + 1) {
                Ok((c, r)) => if p < r && r <= ts.len() {
                    match p_block(ts, r) {
                        Ok((b, r2)) => if p < r2 && r2 <= ts.len() {
                            p_elifs(ts, r2, acc.push((c, b)))
                        } else {
                            Err(out_of_range())
                        },
                        Err(x) => Err(x),
                    }
                } else {
                    Err(out_of_range())
                },
                Err(x) => Err(x),
            }
        } else if ts[q] == TokenV::Else {
            match p_block(ts, q + 1) {
                Ok((b, r)) => Ok(((acc, Some(b)), r)),
                Err(x) => Err(x),
            }
        } else {
            Ok(((acc, None), q))
        }
    }
}

pub open spec fn p_while(ts: Seq<TokenV>, p: int) -> Result<(StmtV, int), ParseErrorV>
    decreases ts.len() - p, 3int,
{
    if !(0 <= p < ts.len()) {
        Err(out_of_range())
    } else {
        match p_paren_expr(ts, p + 1) {
            Ok((c, q)) => if p < q && q <= ts.len() {
                match p_block(ts, q) {
                    Ok((body, r)) => Ok((StmtV::While { condition: c, body }, r)),
                    Err(x) => Err(x),
                }
            } else {
                Err(out_of_range())
            },
            Err(x) => Err(x),
        }
    }
}

/// The separator of a range at `p`: `..`, or two dots written apart.
pub open spec fn p_range_sep(ts: Seq<TokenV>, p: int) -> Result<int, ParseErrorV> {
    if 0 <= p < ts.len() && ts[p] == TokenV::Range {
        Ok(p + 1)
    } else {
        match p_expect(ts, p, TokenV::Dot) {
            Ok(q) => p_expect(ts, q, TokenV::Dot),
            Err(x) => Err(x),
        }
    }
}

/// `( var in start .. end )` at `p`.
pub open spec fn p_for_head(ts: Seq<TokenV>, p: int) -> Result<((Seq<char>, ExprV, ExprV), int), ParseErrorV> {
    match p_expect(ts, p, TokenV::LParen) {
        Ok(q) => match p_ident(ts, q) {
            Ok((var, q2)) => match p_expect(ts, q2, TokenV::In) {
                Ok(q3) => match p_expr(ts, q3) {
                    Ok((start, r)) => match p_range_sep(ts, r) {
                        Ok(r3) => match p_expr(ts, r3) {
                            Ok((end, r4)) => match p_expect(ts, r4, TokenV::RParen) {
                                Ok(r5) => Ok(((var, start, end), r5)),
                                Err(x) => Err(x),
                            },
                            Err(x) => Err(x),
                        },
                        Err(x) => Err(x),
                    },
                    Err(x) => Err(x),
                },
                Err(x) => Err(x),
            },
            Err(x) => Err(x),
        },
        Err(x) => Err(x),
    }
}

pub open spec fn p_for(ts: Seq<TokenV>, p: int) -> Result<(StmtV, int), ParseErrorV>
    decreases ts.len() - p, 3int,
{
    if !(0 <= p < ts.len()) {
        Err(out_of_range())
    } else {
        match p_for_head(ts, p + 1) {
            Ok(((var, start, end), q)) => if p < q && q <= ts.len() {
                match p_block(ts, q) {
                    Ok((body, r)) => Ok((StmtV::For { var, start, end, body }, r)),
                    Err(x) => Err(x),
                }
            } else {
                Err(out_of_range())
            },
            Err(x) => Err(x),
        }
    }
}

/// A block at `p`: `{ statements }`, or a single statement without braces.
pub open spec fn p_block(ts: Seq<TokenV>, p: int) -> Result<(Seq<StmtV>, int), ParseErrorV>
    decreases ts.len() - p, 7int,
{
    if !(0 <= p < ts.len()) {
        Err(out_of_range())
    } else if ts[p] != TokenV::LBrace {
        match p_stmt(ts, p) {
            Ok((st, q)) => Ok((seq![st], q)),
            Err(x) => Err(x),
        }
    } else {
        let r = skip_nl(ts, p + 1);
        proof {
            lemma_skip_nl_bounds(ts, p + 1);
        }
        p_block_stmts(ts, r, Seq::empty())
    }
}

/// The statements of a block from `p` up to and including its closing brace.
pub open spec fn p_block_stmts(ts: Seq<TokenV>, p: int, acc: Seq<StmtV>) -> Result<
    (Seq<StmtV>, int),
    ParseErrorV,
>
    decreases ts.len() - p, 5int,
{
    if !(0 <= p < ts.len()) {
        Err(out_of_range())
    } else if ts[p] == TokenV::RBrace || ts[p] == TokenV::Eof {
        match p_expect(ts, p, TokenV::RBrace) {
            Ok(q) => Ok((acc, q)),
            Err(x) => Err(x),
        }
    } else {
        match p_stmt(ts, p) {
            Ok((st, q)) => if p < q && q <= ts.len() {
                proof {
                    lemma_skip_nl_bounds(ts, q);
                }
                p_block_stmts(ts, skip_nl(ts, q), acc.push(st))
            } else {
                Err(out_of_range())
            },
            Err(x) => Err(x),
        }
    }
}

/// The statements of a program from `p` on.
pub open spec fn p_program(ts: Seq<TokenV>, p: int, acc: Seq<StmtV>) -> Result<Seq<StmtV>, ParseErrorV>
    decreases ts.len() - p,
{
    if !(0 <= p < ts.len()) {
        Err(out_of_range())
    } else if ts[p] == TokenV::Eof {
        Ok(acc)
    } else {
        let q = skip_nl(ts, p);
        proof {
            lemma_skip_nl_bounds(ts, p);
        }
        if !(q < ts.len()) {
            Err(out_of_range())
        } else if ts[q] == TokenV::Eof {
            Ok(acc)
        } else {
            match p_stmt(ts, q) {
                Ok((st, r)) => if p < r && r <= ts.len() {
                    p_program(ts, r, acc.push(st))
                } else {
                    Err(out_of_range())
                },
                Err(x) => Err(x),
            }
        }
    }
}

/// The statements of a whole token list.
pub open spec fn spec_parse(ts: Seq<TokenV>) -> Result<Seq<StmtV>, ParseErrorV> {
    p_program(ts, 0, Seq::empty())
}


// ---------------------------------------------------------------------------
// Statements: parser

pub open spec fn stmt_agrees(
    r: Result<Statement, ParseError>,
    at: int,
    s: Result<(StmtV, int), ParseErrorV>,
) -> bool {
    match s {
        Ok((st, q)) => r matches Ok(x) && x@ == st && at == q,
        Err(e) => r matches Err(x) && x@ == e,
    }
}

pub open spec fn block_view(b: Option<Vec<Statement>>) -> Option<Seq<StmtV>> {
    match b {
        Some(v) => Some(stmts_view(v@)),
        None => None,
    }
}

fn expect_end(p: &mut Parser) -> (r: Result<(), ParseError>)
    requires
        old(p).wf(),
    ensures
        final(p).toks() == old(p).toks(),
        match p_end(old(p).toks(), old(p).at()) {
            Ok(q) => r is Ok && final(p).wf() && final(p).at() == q,
            Err(e) => r matches Err(x) && x@ == e,
        },
{
    let t = p.peek();
    if matches!(t, Token::Semicolon | Token::Newline) {
        p.bump();
        Ok(())
    } else if matches!(t, Token::Eof) {
        Ok(())
    } else {
        Err(p.error_here(Expected::EndOfStatement))
    }
}

fn expect_ident(p: &mut Parser) -> (r: Result<String, ParseError>)
    requires
        old(p).wf(),
    ensures
        final(p).toks() == old(p).toks(),
        match p_ident(old(p).toks(), old(p).at()) {
            Ok((n, q)) => r matches Ok(x) && x@ == n && final(p).wf() && final(p).at() == q,
            Err(e) => r matches Err(x) && x@ == e,
        },
{
    match p.peek() {
        Token::Ident(name) => {
            let name = copy_string(name);
            p.bump();
            Ok(name)
        },
        _ => Err(p.error_here(Expected::Identifier)),
    }
}

fn parse_paren_expr(p: &mut Parser) -> (r: Result<Expression, ParseError>)
    requires
        old(p).wf(),
    ensures
        final(p).toks() == old(p).toks(),
        r is Ok ==> final(p).wf() && final(p).at() > old(p).at(),
        match p_paren_expr(old(p).toks(), old(p).at()) {
            Ok((e, q)) => r matches Ok(x) && x@ == e && final(p).at() == q,
            Err(e) => r matches Err(x) && x@ == e,
        },
{
    p.expect(Token::LParen)?;
    let e = p.parse_expression()?;
    p.expect(Token::RParen)?;
    Ok(e)
}

fn parse_assign_tail(p: &mut Parser) -> (r: Result<Expression, ParseError>)
    requires
        old(p).wf(),
    ensures
        final(p).toks() == old(p).toks(),
        r is Ok ==> final(p).wf() && final(p).at() > old(p).at(),
        match p_assign_tail(old(p).toks(), old(p).at()) {
            Ok((e, q)) => r matches Ok(x) && x@ == e && final(p).at() == q,
            Err(e) => r matches Err(x) && x@ == e,
        },
{
    p.expect(Token::Assign)?;
    let e = p.parse_expression()?;
    expect_end(p)?;
    Ok(e)
}

/// Parses one statement.
#[verifier::rlimit(60)]
fn parse_statement(p: &mut Parser) -> (r: Result<Statement, ParseError>)
    requires
        old(p).wf(),
    ensures
        final(p).toks() == old(p).toks(),
        r is Ok ==> final(p).wf() && final(p).at() > old(p).at(),
        stmt_agrees(r, final(p).at(), p_stmt(old(p).toks(), old(p).at())),
    decreases old(p).toks().len() - old(p).at(), 4int,
{
    let t = p.peek();
    if matches!(t, Token::Print | Token::PrintLn) {
        let is_print = matches!(t, Token::Print);
        p.bump();
        let e = parse_paren_expr(p)?;
        expect_end(p)?;
        Ok(
            if is_print {
                Statement::Print(e)
            } else {
                Statement::PrintLn(e)
            },
        )
    } else if matches!(t, Token::Let | Token::Const) {
        let is_let = matches!(t, Token::Let);
        p.bump();
        let name = expect_ident(p)?;
        parse_opt_type(p)?;
        let expr = parse_assign_tail(p)?;
        Ok(
            if is_let {
                Statement::Let { name, expr }
            } else {
                Statement::Const { name, expr }
            },
        )
    } else if matches!(t, Token::If) {
        parse_if(p)
    } else if matches!(t, Token::While) {
        parse_while(p)
    } else if matches!(t, Token::For) {
        parse_for(p)
    } else if matches!(t, Token::Break | Token::Continue) {
        let is_break = matches!(t, Token::Break);
        p.bump();
        expect_end(p)?;
        Ok(
            if is_break {
                Statement::Break
            } else {
                Statement::Continue
            },
        )
    } else if matches!(t, Token::Function) {
        parse_function(p)
    } else if matches!(t, Token::Type) {
        parse_typedef(p)
    } else if matches!(t, Token::Return) {
        parse_return(p)
    } else {
        match t {
            Token::Ident(name) => {
                if p.next_is_assign() {
                    let name = copy_string(name);
                    p.bump();
                    let expr = parse_assign_tail(p)?;
                    Ok(Statement::Assign { name, expr })
                } else {
                    let e = parse_expr_end(p)?;
                    Ok(Statement::Expr(e))
                }
            },
            _ => Err(p.error_here(Expected::Statement)),
        }
    }
}

fn parse_expr_end(p: &mut Parser) -> (r: Result<Expression, ParseError>)
    requires
        old(p).wf(),
    ensures
        final(p).toks() == old(p).toks(),
        r is Ok ==> final(p).wf() && final(p).at() > old(p).at(),
        match p_expr_end(old(p).toks(), old(p).at()) {
            Ok((e, q)) => r matches Ok(x) && x@ == e && final(p).at() == q,
            Err(e) => r matches Err(x) && x@ == e,
        },
{
    let e = p.parse_expression()?;
    expect_end(p)?;
    Ok(e)
}

fn parse_return(p: &mut Parser) -> (r: Result<Statement, ParseError>)
    requires
        old(p).wf(),
        old(p).toks()[old(p).at()] == TokenV::Return,
    ensures
        final(p).toks() == old(p).toks(),
        r is Ok ==> final(p).wf() && final(p).at() > old(p).at(),
        stmt_agrees(r, final(p).at(), p_return(old(p).toks(), old(p).at())),
{
    p.bump();
    if matches!(p.peek(), Token::Semicolon | Token::Newline | Token::Eof) {
        expect_end(p)?;
        Ok(Statement::Return(None))
    } else {
        let e = parse_expr_end(p)?;
        Ok(Statement::Return(Some(e)))
    }
}

fn parse_param_rest(p: &mut Parser, params: &mut Vec<String>) -> (r: Result<(), ParseError>)
    requires
        old(p).wf(),
    ensures
        final(p).toks() == old(p).toks(),
        r is Ok ==> final(p).wf() && final(p).at() > old(p).at(),
        match p_param_rest(old(p).toks(), old(p).at(), strings_view(old(params)@)) {
            Ok((ns, q)) => r is Ok && strings_view(final(params)@) == ns && final(p).at() == q,
            Err(e) => r matches Err(x) && x@ == e,
        },
    decreases old(p).toks().len() - old(p).at(),
{
    let name = expect_ident(p)?;
    parse_opt_type(p)?;
    proof {
        assert(strings_view(params@.push(name)) =~= strings_view(params@).push(name@));
    }
    params.push(name);
    if matches!(p.peek(), Token::Comma) {
        p.bump();
        parse_param_rest(p, params)
    } else {
        p.expect(Token::RParen)?;
        Ok(())
    }
}

fn parse_params(p: &mut Parser) -> (r: Result<Vec<String>, ParseError>)
    requires
        old(p).wf(),
    ensures
        final(p).toks() == old(p).toks(),
        r is Ok ==> final(p).wf() && final(p).at() > old(p).at(),
        match p_params(old(p).toks(), old(p).at()) {
            Ok((ns, q)) => r matches Ok(x) && strings_view(x@) == ns && final(p).at() == q,
            Err(e) => r matches Err(x) && x@ == e,
        },
{
    p.expect(Token::LParen)?;
    let mut params: Vec<String> = Vec::new();
    assert(strings_view(params@) =~= Seq::<Seq<char>>::empty());
    if matches!(p.peek(), Token::RParen) {
        p.bump();
        return Ok(params);
    }
    parse_param_rest(p, &mut params)?;
    Ok(params)
}

fn parse_opt_type(p: &mut Parser) -> (r: Result<(), ParseError>)
    requires
        old(p).wf(),
    ensures
        final(p).toks() == old(p).toks(),
        match p_opt_type(old(p).toks(), old(p).at()) {
            Ok(q) => r is Ok && final(p).wf() && final(p).at() == q,
            Err(e) => r matches Err(x) && x@ == e,
        },
{
    if matches!(p.peek(), Token::Colon) {
        p.bump();
        let _ty = expect_ident(p)?;
    }
    Ok(())
}

fn parse_fn_parts(p: &mut Parser) -> (r: Result<(String, Vec<String>, Vec<Statement>), ParseError>)
    requires
        old(p).wf(),
        old(p).toks()[old(p).at()] == TokenV::Function,
    ensures
        final(p).toks() == old(p).toks(),
        r is Ok ==> final(p).wf() && final(p).at() > old(p).at(),
        match p_fn_parts(old(p).toks(), old(p).at()) {
            Ok(((n, ps, b), q)) => r matches Ok((x, y, z)) && x@ == n && strings_view(y@) == ps
                && stmts_view(z@) == b && final(p).at() == q,
            Err(e) => r matches Err(x) && x@ == e,
        },
    decreases old(p).toks().len() - old(p).at(), 2int,
{
    p.bump();
    let name = expect_ident(p)?;
    let params = parse_params(p)?;
    parse_opt_type(p)?;
    let body = parse_block(p)?;
    Ok((name, params, body))
}

fn parse_function(p: &mut Parser) -> (r: Result<Statement, ParseError>)
    requires
        old(p).wf(),
        old(p).toks()[old(p).at()] == TokenV::Function,
    ensures
        final(p).toks() == old(p).toks(),
        r is Ok ==> final(p).wf() && final(p).at() > old(p).at(),
        stmt_agrees(r, final(p).at(), p_function(old(p).toks(), old(p).at())),
    decreases old(p).toks().len() - old(p).at(), 3int,
{
    let (name, params, body) = parse_fn_parts(p)?;
    Ok(Statement::FunctionDef { name, params, body })
}

fn parse_members(p: &mut Parser, fields: &mut Vec<(String, String)>, methods: &mut Vec<FunctionDef>) -> (r: Result<(), ParseError>)
    requires
        old(p).wf(),
    ensures
        final(p).toks() == old(p).toks(),
        r is Ok ==> final(p).wf() && final(p).at() > old(p).at(),
        match p_members(old(p).toks(), old(p).at(), string_pairs_view(old(fields)@), methods_view(old(methods)@)) {
            Ok(((fs, ms), q)) => r is Ok && string_pairs_view(final(fields)@) == fs
                && methods_view(final(methods)@) == ms && final(p).at() == q,
            Err(e) => r matches Err(x) && x@ == e,
        },
    decreases old(p).toks().len() - old(p).at(), 6int,
{
    let t = p.peek();
    if matches!(t, Token::RBrace) {
        p.bump();
        Ok(())
    } else if matches!(t, Token::Function) {
        let (name, params, body) = parse_fn_parts(p)?;
        let m = FunctionDef { name, params, body };
        proof {
            assert(methods@.push(m).drop_last() =~= methods@);
        }
        methods.push(m);
        proof {
            lemma_skip_nl(p.toks(), p.at());
        }
        p.skip_newlines();
        parse_members(p, fields, methods)
    } else {
        match t {
            Token::Ident(f) => {
                let f = copy_string(f);
                p.bump();
                p.expect(Token::Colon)?;
                let ty = expect_ident(p)?;
                expect_end(p)?;
                let pair = (f, ty);
                proof {
                    assert(string_pairs_view(fields@.push(pair)) =~= string_pairs_view(fields@).push((pair.0@, pair.1@)));
                }
                fields.push(pair);
                proof {
                    lemma_skip_nl(p.toks(), p.at());
                }
                p.skip_newlines();
                parse_members(p, fields, methods)
            },
            _ => Err(p.error_here(Expected::FieldName)),
        }
    }
}

fn parse_typedef(p: &mut Parser) -> (r: Result<Statement, ParseError>)
    requires
        old(p).wf(),
        old(p).toks()[old(p).at()] == TokenV::Type,
    ensures
        final(p).toks() == old(p).toks(),
        r is Ok ==> final(p).wf() && final(p).at() > old(p).at(),
        stmt_agrees(r, final(p).at(), p_typedef(old(p).toks(), old(p).at())),
    decreases old(p).toks().len() - old(p).at(), 3int,
{
    p.bump();
    let name = expect_ident(p)?;
    p.expect(Token::LBrace)?;
    proof {
        lemma_skip_nl(p.toks(), p.at());
    }
    p.skip_newlines();
    let mut fields: Vec<(String, String)> = Vec::new();
    let mut methods: Vec<FunctionDef> = Vec::new();
    assert(string_pairs_view(fields@) =~= Seq::<(Seq<char>, Seq<char>)>::empty());
    assert(methods_view(methods@) =~= Seq::<(Seq<char>, Seq<Seq<char>>, Seq<StmtV>)>::empty());
    parse_members(p, &mut fields, &mut methods)?;
    Ok(Statement::TypeDef { name, fields, methods })
}

fn parse_if(p: &mut Parser) -> (r: Result<Statement, ParseError>)
    requires
        old(p).wf(),
        old(p).toks()[old(p).at()] == TokenV::If,
    ensures
        final(p).toks() == old(p).toks(),
        r is Ok ==> final(p).wf() && final(p).at() > old(p).at(),
        stmt_agrees(r, final(p).at(), p_if(old(p).toks(), old(p).at())),
    decreases old(p).toks().len() - old(p).at(), 3int,
{
    p.bump();
    let condition = parse_paren_expr(p)?;
    let then_body = parse_block(p)?;
    let mut elif_branches: Vec<ElifBranch> = Vec::new();
    assert(elifs_view(elif_branches@) =~= Seq::<(ExprV, Seq<StmtV>)>::empty());
    let else_body = parse_elifs(p, &mut elif_branches)?;
    Ok(Statement::If { condition, then_body, elif_branches, else_body })
}

fn parse_elifs(p: &mut Parser, branches: &mut Vec<ElifBranch>) -> (r: Result<
    Option<Vec<Statement>>,
    ParseError,
>)
    requires
        old(p).wf(),
    ensures
        final(p).toks() == old(p).toks(),
        r is Ok ==> final(p).wf() && final(p).at() >= old(p).at(),
        match p_elifs(old(p).toks(), old(p).at(), elifs_view(old(branches)@)) {
            Ok(((es, eb), q)) => r matches Ok(x) && elifs_view(final(branches)@) == es
                && block_view(x) == eb && final(p).at() == q,
            Err(e) => r matches Err(x) && x@ == e,
        },
    decreases old(p).toks().len() - old(p).at(), 6int,
{
    proof {
        lemma_skip_nl(p.toks(), p.at());
    }
    p.skip_newlines();
    let t = p.peek();
    if matches!(t, Token::Elif) {
        p.bump();
        let condition = parse_paren_expr(p)?;
        let body = parse_block(p)?;
        let b = ElifBranch { condition, body };
        proof {
            lemma_elifs_view_push(branches@, b);
        }
        branches.push(b);
        parse_elifs(p, branches)
    } else if matches!(t, Token::Else) {
        p.bump();
        let body = parse_block(p)?;
        Ok(Some(body))
    } else {
        Ok(None)
    }
}

fn parse_while(p: &mut Parser) -> (r: Result<Statement, ParseError>)
    requires
        old(p).wf(),
        old(p).toks()[old(p).at()] == TokenV::While,
    ensures
        final(p).toks() == old(p).toks(),
        r is Ok ==> final(p).wf() && final(p).at() > old(p).at(),
        stmt_agrees(r, final(p).at(), p_while(old(p).toks(), old(p).at())),
    decreases old(p).toks().len() - old(p).at(), 3int,
{
    p.bump();
    let condition = parse_paren_expr(p)?;
    let body = parse_block(p)?;
    Ok(Statement::While { condition, body })
}

fn parse_for(p: &mut Parser) -> (r: Result<Statement, ParseError>)
    requires
        old(p).wf(),
        old(p).toks()[old(p).at()] == TokenV::For,
    ensures
        final(p).toks() == old(p).toks(),
        r is Ok ==> final(p).wf() && final(p).at() > old(p).at(),
        stmt_agrees(r, final(p).at(), p_for(old(p).toks(), old(p).at())),
    decreases old(p).toks().len() - old(p).at(), 3int,
{
    p.bump();
    p.expect(Token::LParen)?;
    let var = expect_ident(p)?;
    p.expect(Token::In)?;
    let start = p.parse_expression()?;
    if p.is_range() {
        p.bump();
    } else {
        p.expect(Token::Dot)?;
        p.expect(Token::Dot)?;
    }
    let end = p.parse_expression()?;
    p.expect(Token::RParen)?;
    let body = parse_block(p)?;
    Ok(Statement::For { var, start, end, body })
}

fn parse_block(p: &mut Parser) -> (r: Result<Vec<Statement>, ParseError>)
    requires
        old(p).wf(),
    ensures
        final(p).toks() == old(p).toks(),
        r is Ok ==> final(p).wf() && final(p).at() > old(p).at(),
        match p_block(old(p).toks(), old(p).at()) {
            Ok((b, q)) => r matches Ok(x) && stmts_view(x@) == b && final(p).at() == q,
            Err(e) => r matches Err(x) && x@ == e,
        },
    decreases old(p).toks().len() - old(p).at(), 7int,
{
    if !matches!(p.peek(), Token::LBrace) {
        let st = parse_statement(p)?;
        let mut one: Vec<Statement> = Vec::new();
        proof {
            lemma_stmts_view_push(one@, st);
        }
        one.push(st);
        assert(stmts_view(one@) =~= seq![stmts_view(one@)[0]]);
        return Ok(one);
    }
    p.bump();
    proof {
        lemma_skip_nl(p.toks(), p.at());
    }
    p.skip_newlines();
    let mut stmts: Vec<Statement> = Vec::new();
    assert(stmts_view(stmts@) =~= Seq::<StmtV>::empty());
    parse_block_stmts(p, &mut stmts)?;
    Ok(stmts)
}

fn parse_block_stmts(p: &mut Parser, stmts: &mut Vec<Statement>) -> (r: Result<(), ParseError>)
    requires
        old(p).wf(),
    ensures
        final(p).toks() == old(p).toks(),
        r is Ok ==> final(p).wf() && final(p).at() > old(p).at(),
        match p_block_stmts(old(p).toks(), old(p).at(), stmts_view(old(stmts)@)) {
            Ok((b, q)) => r is Ok && stmts_view(final(stmts)@) == b && final(p).at() == q,
            Err(e) => r matches Err(x) && x@ == e,
        },
    decreases old(p).toks().len() - old(p).at(), 5int,
{
    if matches!(p.peek(), Token::RBrace | Token::Eof) {
        p.expect(Token::RBrace)?;
        Ok(())
    } else {
        let st = parse_statement(p)?;
        proof {
            lemma_stmts_view_push(stmts@, st);
            lemma_skip_nl(p.toks(), p.at());
        }
        stmts.push(st);
        p.skip_newlines();
        parse_block_stmts(p, stmts)
    }
}

fn parse_program(p: &mut Parser, stmts: &mut Vec<Statement>) -> (r: Result<(), ParseError>)
    requires
        old(p).wf(),
    ensures
        match p_program(old(p).toks(), old(p).at(), stmts_view(old(stmts)@)) {
            Ok(b) => r is Ok && stmts_view(final(stmts)@) == b,
            Err(e) => r matches Err(x) && x@ == e,
        },
    decreases old(p).toks().len() - old(p).at(),
{
    if p.is_eof() {
        return Ok(());
    }
    proof {
        lemma_skip_nl(p.toks(), p.at());
    }
    p.skip_newlines();
    if p.is_eof() {
        return Ok(());
    }
    let st = parse_statement(p)?;
    proof {
        lemma_stmts_view_push(stmts@, st);
    }
    stmts.push(st);
    parse_program(p, stmts)
}

/// Parses a token list that ends with `Eof` into statements.
pub fn parse(tokens: &[Token]) -> (r: Result<Vec<Statement>, ParseError>)
    requires
        tokens_wf(crate::lixer::token::tokens_view(tokens@)),
    ensures
        match spec_parse(crate::lixer::token::tokens_view(tokens@)) {
            Ok(b) => r matches Ok(x) && stmts_view(x@) == b,
            Err(e) => r matches Err(x) && x@ == e,
        },
{
    let mut p = Parser::new(tokens);
    let mut stmts: Vec<Statement> = Vec::new();
    assert(stmts_view(stmts@) =~= Seq::<StmtV>::empty());
    parse_program(&mut p, &mut stmts)?;
    Ok(stmts)
}

} // verus!
