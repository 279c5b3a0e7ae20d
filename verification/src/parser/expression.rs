//! Expressions of the first dialect: literals joined by `+`.
use vstd::prelude::*;
use crate::ast::expression::{Expression, ExprV};
use crate::lexer::token::{Token, TokenV, tokens_view, copy_token, token_eq};

verus! {

/// What the parser was looking for when it stopped.
#[derive(Debug, Clone, PartialEq)]
pub enum Expected {
    Token(Token),
    Literal,
}

/// A parse error: what was expected, and the token found instead.
#[derive(Debug, Clone, PartialEq)]
pub struct ParseError {
    pub expected: Expected,
    pub got: Token,
}

pub enum ExpectedV {
    Token(TokenV),
    Literal,
}

pub struct ParseErrorV {
    pub expected: ExpectedV,
    pub got: TokenV,
}

impl View for ParseError {
    type V = ParseErrorV;

    open spec fn view(&self) -> ParseErrorV {
        ParseErrorV {
            expected: match self.expected {
                Expected::Token(t) => ExpectedV::Token(t@),
                Expected::Literal => ExpectedV::Literal,
            },
            got: self.got@,
        }
    }
}

/// A token list that the parser can walk: it ends with `Eof`.
pub open spec fn tokens_wf(ts: Seq<TokenV>) -> bool {
    ts.len() > 0 && ts.last() == TokenV::Eof
}

/// The error the specification gives at a position outside the token list (never reached
/// from a position inside a list that ends with `Eof`).
pub open spec fn out_of_range() -> ParseErrorV {
    ParseErrorV { expected: ExpectedV::Literal, got: TokenV::Eof }
}

/// A literal at position `p`, and the position after it.
pub open spec fn p_term(ts: Seq<TokenV>, p: int) -> Result<(ExprV, int), ParseErrorV> {
    if !(0 <= p < ts.len()) {
        Err(out_of_range())
    } else {
        match ts[p] {
            TokenV::Int(n) => Ok((ExprV::Int(n), p + 1)),
            TokenV::Str(s) => Ok((ExprV::Str(s), p + 1)),
            t => Err(ParseErrorV { expected: ExpectedV::Literal, got: t }),
        }
    }
}

/// The rest of a sum whose left part `l` has been parsed, from position `p`.
pub open spec fn p_sum_rest(ts: Seq<TokenV>, p: int, l: ExprV) -> Result<(ExprV, int), ParseErrorV>
    decreases ts.len() - p,
{
    if !(0 <= p < ts.len()) {
        Err(out_of_range())
    } else if ts[p] == TokenV::Plus {
        match p_term(ts, p + 1) {
            Ok((r, q)) => p_sum_rest(ts, q, ExprV::Add(Box::new(l), Box::new(r))),
            Err(e) => Err(e),
        }
    } else {
        Ok((l, p))
    }
}

/// An expression parsed from position `p`: the expression and the position after it.
pub open spec fn p_expr(ts: Seq<TokenV>, p: int) -> Result<(ExprV, int), ParseErrorV> {
    match p_term(ts, p) {
        Ok((l, q)) => p_sum_rest(ts, q, l),
        Err(e) => Err(e),
    }
}

/// The position after the newlines that start at `p`.
pub open spec fn skip_nl(ts: Seq<TokenV>, p: int) -> int
    decreases ts.len() - p,
{
    if 0 <= p < ts.len() && ts[p] == TokenV::Newline {
        skip_nl(ts, p + 1)
    } else {
        p
    }
}

pub proof fn lemma_skip_nl(ts: Seq<TokenV>, p: int)
    requires
        tokens_wf(ts),
        0 <= p < ts.len(),
    ensures
        p <= skip_nl(ts, p) < ts.len(),
        ts[skip_nl(ts, p)] != TokenV::Newline,
    decreases ts.len() - p,
{
    if ts[p] == TokenV::Newline {
        lemma_skip_nl(ts, p + 1);
    }
}

pub open spec fn expr_agrees(
    r: Result<Expression, ParseError>,
    at: int,
    s: Result<(ExprV, int), ParseErrorV>,
) -> bool {
    match s {
        Ok((e, q)) => r matches Ok(x) && x@ == e && at == q,
        Err(err) => r matches Err(x) && x@ == err,
    }
}

/// A cursor over a token list.
pub struct Parser<'a> {
    tokens: &'a [Token],
    pos: usize,
}

impl<'a> Parser<'a> {
    /// The tokens, by value.
    pub closed spec fn toks(&self) -> Seq<TokenV> {
        tokens_view(self.tokens@)
    }

    /// The current position.
    pub closed spec fn at(&self) -> int {
        self.pos as int
    }

    /// The token list ends with `Eof` and the position is inside it.
    pub open spec fn wf(&self) -> bool {
        tokens_wf(self.toks()) && 0 <= self.at() < self.toks().len()
    }

    pub fn new(tokens: &'a [Token]) -> (p: Self)
        ensures
            p.toks() == tokens_view(tokens@),
            p.at() == 0,
    {
        Parser { tokens, pos: 0 }
    }

    /// The current token.
    pub fn peek(&self) -> (t: &Token)
        requires
            0 <= self.at() < self.toks().len(),
        ensures
            t@ == self.toks()[self.at()],
    {
        &self.tokens[self.pos]
    }

    /// Takes the current token and moves past it.
    pub fn advance(&mut self) -> (t: Token)
        requires
            0 <= old(self).at() < old(self).toks().len(),
        ensures
            t@ == old(self).toks()[old(self).at()],
            final(self).toks() == old(self).toks(),
            final(self).at() == old(self).at() + 1,
    {
        let n = self.tokens.len();
        assert(self.toks().len() == n);
        let t = copy_token(&self.tokens[self.pos]);
        self.pos = self.pos + 1;
        t
    }

    pub fn is_eof(&self) -> (r: bool)
        requires
            0 <= self.at() < self.toks().len(),
        ensures
            r == (self.toks()[self.at()] == TokenV::Eof),
    {
        matches!(self.tokens[self.pos], Token::Eof)
    }

    /// Moves past any newlines.
    pub fn skip_newlines(&mut self)
        requires
            old(self).wf(),
        ensures
            final(self).wf(),
            final(self).toks() == old(self).toks(),
            final(self).at() == skip_nl(old(self).toks(), old(self).at()),
    {
        proof {
            lemma_skip_nl(self.toks(), self.at());
        }
        while matches!(self.tokens[self.pos], Token::Newline)
            invariant
                self.wf(),
                self.toks() == old(self).toks(),
                skip_nl(self.toks(), self.at()) == skip_nl(old(self).toks(), old(self).at()),
            decreases self.toks().len() - self.at(),
        {
            self.pos = self.pos + 1;
        }
    }

    /// Takes the current token, which must be `expected`.
    pub fn expect(&mut self, expected: Token) -> (r: Result<(), ParseError>)
        requires
            0 <= old(self).at() < old(self).toks().len(),
        ensures
            final(self).toks() == old(self).toks(),
            final(self).at() == old(self).at() + 1,
            old(self).toks()[old(self).at()] == expected@ ==> r is Ok,
            old(self).toks()[old(self).at()] != expected@ ==> (r matches Err(e) && e@ == (ParseErrorV {
                expected: ExpectedV::Token(expected@),
                got: old(self).toks()[old(self).at()],
            })),
    {
        let got = self.advance();
        if !token_eq(&got, &expected) {
            return Err(ParseError { expected: Expected::Token(expected), got });
        }
        Ok(())
    }

    /// Parses a sum of literals: `literal (+ literal)*`.
    pub fn parse_expression(&mut self) -> (r: Result<Expression, ParseError>)
        requires
            old(self).wf(),
        ensures
            final(self).toks() == old(self).toks(),
            r is Ok ==> final(self).wf(),
            expr_agrees(r, final(self).at(), p_expr(old(self).toks(), old(self).at())),
    {
        let ghost ts = self.toks();
        let ghost p0 = self.at();
        let mut left = self.parse_term()?;
        while matches!(self.tokens[self.pos], Token::Plus)
            invariant
                self.wf(),
                self.toks() == ts,
                ts == old(self).toks(),
                p0 == old(self).at(),
                p_expr(ts, p0) == p_sum_rest(ts, self.at(), left@),
            decreases ts.len() - self.at(),
        {
            self.advance();
            let right = self.parse_term()?;
            left = Expression::Add(Box::new(left), Box::new(right));
        }
        Ok(left)
    }

    fn parse_term(&mut self) -> (r: Result<Expression, ParseError>)
        requires
            0 <= old(self).at() < old(self).toks().len(),
            tokens_wf(old(self).toks()),
        ensures
            final(self).toks() == old(self).toks(),
            r is Ok ==> final(self).wf(),
            expr_agrees(r, final(self).at(), p_term(old(self).toks(), old(self).at())),
    {
        let t = self.advance();
        match t {
            Token::Int(n) => Ok(Expression::Int(n)),
            Token::Str(s) => Ok(Expression::Str(s)),
            t => Err(ParseError { expected: Expected::Literal, got: t }),
        }
    }
}

/// Sums group to the left: three terms joined by two `+` make `(e1 + e2) + e3`.
pub proof fn law_sum_groups_left(ts: Seq<TokenV>, p: int, e1: ExprV, q1: int, e2: ExprV, q2: int, e3: ExprV, q3: int)
    requires
        p_term(ts, p) == Ok::<(ExprV, int), ParseErrorV>((e1, q1)),
        p_term(ts, q1 + 1) == Ok::<(ExprV, int), ParseErrorV>((e2, q2)),
        p_term(ts, q2 + 1) == Ok::<(ExprV, int), ParseErrorV>((e3, q3)),
        0 <= q1 < q2 < q3 < ts.len(),
        ts[q1] == TokenV::Plus,
        ts[q2] == TokenV::Plus,
        ts[q3] != TokenV::Plus,
    ensures
        p_expr(ts, p) == Ok::<(ExprV, int), ParseErrorV>((
            ExprV::Add(Box::new(ExprV::Add(Box::new(e1), Box::new(e2))), Box::new(e3)),
            q3,
        )),
{
    let l = ExprV::Add(Box::new(e1), Box::new(e2));
    let e = ExprV::Add(Box::new(l), Box::new(e3));
    assert(p_sum_rest(ts, q3, e) == Ok::<(ExprV, int), ParseErrorV>((e, q3)));
    assert(p_sum_rest(ts, q2, l) == Ok::<(ExprV, int), ParseErrorV>((e, q3)));
    assert(p_sum_rest(ts, q1, e1) == Ok::<(ExprV, int), ParseErrorV>((e, q3)));
}

} // verus!
