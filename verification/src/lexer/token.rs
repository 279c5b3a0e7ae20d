//! Tokens of the first Julix dialect and the lexer that produces them.
use vstd::prelude::*;
use crate::text::{spec_is_alphabetic, is_alphabetic, chars_to_string, string_to_chars, is_dec_digit, dec_digit, chars_eq_str, copy_string, string_eq};
use crate::lixer::token::{CharClass, span_end, lemma_span_end, scan_span, strip_underscores, strip_range, int_literal_value, parse_radix, escape_char, escape_char_exec};

verus! {

/// A token of the first dialect.
#[derive(Debug, Clone, PartialEq)]
pub enum Token {
    Int(i64),
    Str(String),
    Ident(String),
    Print,
    PrintLn,
    Let,
    Const,
    LParen,
    RParen,
    Plus,
    Minus,
    Star,
    Slash,
    Percent,
    Assign,
    Semicolon,
    Newline,
    Eof,
}

/// The mathematical value of a [`Token`].
pub enum TokenV {
    Int(i64),
    Str(Seq<char>),
    Ident(Seq<char>),
    Print,
    PrintLn,
    Let,
    Const,
    LParen,
    RParen,
    Plus,
    Minus,
    Star,
    Slash,
    Percent,
    Assign,
    Semicolon,
    Newline,
    Eof,
}

impl View for Token {
    type V = TokenV;

    open spec fn view(&self) -> TokenV {
        match self {
            Token::Int(n) => TokenV::Int(*n),
            Token::Str(s) => TokenV::Str(s@),
            Token::Ident(s) => TokenV::Ident(s@),
            Token::Print => TokenV::Print,
            Token::PrintLn => TokenV::PrintLn,
            Token::Let => TokenV::Let,
            Token::Const => TokenV::Const,
            Token::LParen => TokenV::LParen,
            Token::RParen => TokenV::RParen,
            Token::Plus => TokenV::Plus,
            Token::Minus => TokenV::Minus,
            Token::Star => TokenV::Star,
            Token::Slash => TokenV::Slash,
            Token::Percent => TokenV::Percent,
            Token::Assign => TokenV::Assign,
            Token::Semicolon => TokenV::Semicolon,
            Token::Newline => TokenV::Newline,
            Token::Eof => TokenV::Eof,
        }
    }
}

pub open spec fn tokens_view(ts: Seq<Token>) -> Seq<TokenV> {
    ts.map_values(|t: Token| t@)
}

/// Why lexing stopped: a character that starts no token.
#[derive(Debug, Clone, Copy, PartialEq, Eq, Structural)]
pub enum LexError {
    UnexpectedChar(char),
}

/// The integer token of a number literal starting at `i`, and where it ends.
pub open spec fn spec_number(s: Seq<char>, i: int) -> (i64, int) {
    let prefixed = |r: int, cls: CharClass| -> (i64, int)
        {
            let j = span_end(s, i + 2, cls);
            (int_literal_value(strip_underscores(s.subrange(i + 2, j)), r), j)
        };
    if s[i] == '0' && i + 1 < s.len() && (s[i + 1] == 'x' || s[i + 1] == 'X') {
        prefixed(16, CharClass::HexRun)
    } else if s[i] == '0' && i + 1 < s.len() && (s[i + 1] == 'o' || s[i + 1] == 'O') {
        prefixed(8, CharClass::OctRun)
    } else if s[i] == '0' && i + 1 < s.len() && (s[i + 1] == 'b' || s[i + 1] == 'B') {
        prefixed(2, CharClass::BinRun)
    } else {
        let j = span_end(s, i, CharClass::DecRun);
        (int_literal_value(strip_underscores(s.subrange(i, j)), 10), j)
    }
}

fn lex_number(chars: &Vec<char>, i: usize) -> (r: (i64, usize))
    requires
        i < chars.len(),
        is_dec_digit(chars@[i as int]),
    ensures
        (r.0, r.1 as int) == spec_number(chars@, i as int),
        i < r.1 <= chars.len(),
{
    let ghost s = chars@;
    let c = chars[i];
    let has_next = i + 1 < chars.len();
    let (radix, cls) = if c == '0' && has_next && (chars[i + 1] == 'x' || chars[i + 1] == 'X') {
        (16u32, CharClass::HexRun)
    } else if c == '0' && has_next && (chars[i + 1] == 'o' || chars[i + 1] == 'O') {
        (8u32, CharClass::OctRun)
    } else if c == '0' && has_next && (chars[i + 1] == 'b' || chars[i + 1] == 'B') {
        (2u32, CharClass::BinRun)
    } else {
        (10u32, CharClass::DecRun)
    };
    let start = if radix == 10 {
        i
    } else {
        i + 2
    };
    proof {
        lemma_span_end(s, start as int, cls);
    }
    let j = scan_span(chars, start, cls);
    let digits = strip_range(chars, start, j);
    (parse_radix(&digits, radix), j)
}

/// The contents of a string literal whose body starts at `i` (escapes resolved), and the
/// index of the closing quote or of the end.
pub open spec fn str_body(s: Seq<char>, i: int) -> (Seq<char>, int)
    decreases s.len() - i,
{
    if i < 0 || i >= s.len() || s[i] == '"' {
        (Seq::empty(), i)
    } else if s[i] == '\\' && i + 1 < s.len() {
        let (r, j) = str_body(s, i + 2);
        (seq![escape_char(s[i + 1])] + r, j)
    } else {
        let (r, j) = str_body(s, i + 1);
        (seq![s[i]] + r, j)
    }
}

pub proof fn lemma_str_body(s: Seq<char>, i: int)
    requires
        0 <= i <= s.len(),
    ensures
        i <= str_body(s, i).1 <= s.len(),
    decreases s.len() - i,
{
    if i < s.len() && s[i] != '"' {
        if s[i] == '\\' && i + 1 < s.len() {
            lemma_str_body(s, i + 2);
        } else {
            lemma_str_body(s, i + 1);
        }
    }
}

fn lex_str_body(chars: &Vec<char>, start: usize) -> (r: (Vec<char>, usize))
    requires
        start <= chars.len(),
    ensures
        (r.0@, r.1 as int) == str_body(chars@, start as int),
{
    let ghost s = chars@;
    let mut out: Vec<char> = Vec::new();
    let mut i = start;
    while i < chars.len() && chars[i] != '"'
        invariant
            start <= i <= chars.len(),
            s == chars@,
            str_body(s, start as int) == (out@ + str_body(s, i as int).0, str_body(s, i as int).1),
        decreases chars.len() - i,
    {
        let ghost old_out = out@;
        if chars[i] == '\\' && i + 1 < chars.len() {
            out.push(escape_char_exec(chars[i + 1]));
            i = i + 2;
        } else {
            out.push(chars[i]);
            i = i + 1;
        }
        proof {
            let r = str_body(s, i as int).0;
            assert(old_out + (seq![out@.last()] + r) =~= out@ + r);
        }
    }
    (out, i)
}

/// The keyword that a word spells, or an identifier.
pub open spec fn keyword_or_ident(w: Seq<char>) -> TokenV {
    if w == "print"@ {
        TokenV::Print
    } else if w == "println"@ {
        TokenV::PrintLn
    } else if w == "let"@ {
        TokenV::Let
    } else if w == "const"@ {
        TokenV::Const
    } else {
        TokenV::Ident(w)
    }
}

fn keyword_or_ident_exec(w: &Vec<char>) -> (t: Token)
    ensures
        t@ == keyword_or_ident(w@),
{
    if chars_eq_str(w.as_slice(), "print") {
        Token::Print
    } else if chars_eq_str(w.as_slice(), "println") {
        Token::PrintLn
    } else if chars_eq_str(w.as_slice(), "let") {
        Token::Let
    } else if chars_eq_str(w.as_slice(), "const") {
        Token::Const
    } else {
        Token::Ident(chars_to_string(w.as_slice()))
    }
}

/// One lexer step: nothing emitted, a token emitted, or a failure.
pub enum ScanV {
    Skip(int),
    Emit(TokenV, int),
    Fail(LexError),
}

/// The single-character token at `i`.
pub open spec fn spec_punct(c: char) -> Option<TokenV> {
    if c == '(' {
        Some(TokenV::LParen)
    } else if c == ')' {
        Some(TokenV::RParen)
    } else if c == '+' {
        Some(TokenV::Plus)
    } else if c == '-' {
        Some(TokenV::Minus)
    } else if c == '*' {
        Some(TokenV::Star)
    } else if c == '/' {
        Some(TokenV::Slash)
    } else if c == '%' {
        Some(TokenV::Percent)
    } else if c == '=' {
        Some(TokenV::Assign)
    } else if c == ';' {
        Some(TokenV::Semicolon)
    } else {
        None
    }
}

/// One lexer step at index `i` (with `0 <= i < s.len()`).
pub open spec fn spec_scan(s: Seq<char>, i: int) -> ScanV {
    let c = s[i];
    if c == ' ' || c == '\t' || c == '\r' {
        ScanV::Skip(i + 1)
    } else if c == '\n' {
        ScanV::Emit(TokenV::Newline, i + 1)
    } else if c == '/' && i + 1 < s.len() && s[i + 1] == '/' {
        ScanV::Skip(span_end(s, i, CharClass::Line))
    } else if is_dec_digit(c) {
        ScanV::Emit(TokenV::Int(spec_number(s, i).0), spec_number(s, i).1)
    } else if c == '"' {
        ScanV::Emit(TokenV::Str(str_body(s, i + 1).0), str_body(s, i + 1).1 + 1)
    } else if spec_is_alphabetic(c) || c == '_' {
        let j = span_end(s, i, CharClass::Word);
        ScanV::Emit(keyword_or_ident(s.subrange(i, j)), j)
    } else {
        match spec_punct(c) {
            Some(t) => ScanV::Emit(t, i + 1),
            None => ScanV::Fail(LexError::UnexpectedChar(c)),
        }
    }
}

/// Every step moves forward, at most one past the end.
pub proof fn lemma_scan_progress(s: Seq<char>, i: int)
    requires
        0 <= i < s.len(),
    ensures
        spec_scan(s, i) matches ScanV::Skip(j) ==> i < j <= s.len() + 1,
        spec_scan(s, i) matches ScanV::Emit(_, j) ==> i < j <= s.len() + 1,
{
    lemma_span_end(s, i, CharClass::Line);
    lemma_span_end(s, i, CharClass::Word);
    lemma_span_end(s, i, CharClass::DecRun);
    lemma_str_body(s, i + 1);
    if i + 2 <= s.len() {
        lemma_span_end(s, i + 2, CharClass::HexRun);
        lemma_span_end(s, i + 2, CharClass::OctRun);
        lemma_span_end(s, i + 2, CharClass::BinRun);
    }
}

/// The tokens lexed from index `i` on, ending with `Eof`.
pub open spec fn spec_lex_from(s: Seq<char>, i: int) -> Result<Seq<TokenV>, LexError>
    decreases s.len() + 2 - i,
{
    if i < 0 || i >= s.len() {
        Ok(seq![TokenV::Eof])
    } else {
        proof {
            lemma_scan_progress(s, i);
        }
        match spec_scan(s, i) {
            ScanV::Skip(j) => spec_lex_from(s, j),
            ScanV::Emit(t, j) => match spec_lex_from(s, j) {
                Ok(ts) => Ok(seq![t] + ts),
                Err(e) => Err(e),
            },
            ScanV::Fail(e) => Err(e),
        }
    }
}

/// The tokens of a whole source text.
pub open spec fn spec_lex(s: Seq<char>) -> Result<Seq<TokenV>, LexError> {
    spec_lex_from(s, 0)
}

/// Whether an exec scan result agrees with the spec step.
pub open spec fn scan_agrees(r: Result<(Option<Token>, usize), LexError>, v: ScanV) -> bool {
    match v {
        ScanV::Skip(j) => r matches Ok((None, k)) && k == j,
        ScanV::Emit(t, j) => r matches Ok((Some(tok), k)) && tok@ == t && k == j,
        ScanV::Fail(e) => r == Err::<(Option<Token>, usize), LexError>(e),
    }
}

fn lex_word(chars: &Vec<char>, i: usize) -> (r: (Token, usize))
    requires
        i < chars.len(),
    ensures
        r.0@ == keyword_or_ident(chars@.subrange(i as int, r.1 as int)),
        r.1 == span_end(chars@, i as int, CharClass::Word),
{
    proof {
        lemma_span_end(chars@, i as int, CharClass::Word);
    }
    let j = scan_span(chars, i, CharClass::Word);
    let mut w: Vec<char> = Vec::new();
    let mut k = i;
    while k < j
        invariant
            i <= k <= j <= chars.len(),
            w@ == chars@.subrange(i as int, k as int),
        decreases j - k,
    {
        w.push(chars[k]);
        k = k + 1;
        assert(w@ =~= chars@.subrange(i as int, k as int));
    }
    (keyword_or_ident_exec(&w), j)
}

fn punct(c: char) -> (r: Option<Token>)
    ensures
        match (r, spec_punct(c)) {
            (Some(t), Some(v)) => t@ == v,
            (None, None) => true,
            _ => false,
        },
{
    if c == '(' {
        Some(Token::LParen)
    } else if c == ')' {
        Some(Token::RParen)
    } else if c == '+' {
        Some(Token::Plus)
    } else if c == '-' {
        Some(Token::Minus)
    } else if c == '*' {
        Some(Token::Star)
    } else if c == '/' {
        Some(Token::Slash)
    } else if c == '%' {
        Some(Token::Percent)
    } else if c == '=' {
        Some(Token::Assign)
    } else if c == ';' {
        Some(Token::Semicolon)
    } else {
        None
    }
}

fn scan_token(chars: &Vec<char>, i: usize) -> (r: Result<(Option<Token>, usize), LexError>)
    requires
        i < chars.len(),
        chars.len() + 2 <= usize::MAX,
    ensures
        scan_agrees(r, spec_scan(chars@, i as int)),
{
    let ghost s = chars@;
    let c = chars[i];
    if c == ' ' || c == '\t' || c == '\r' {
        Ok((None, i + 1))
    } else if c == '\n' {
        Ok((Some(Token::Newline), i + 1))
    } else if c == '/' && i + 1 < chars.len() && chars[i + 1] == '/' {
        Ok((None, scan_span(chars, i, CharClass::Line)))
    } else if dec_digit(c) {
        let (n, j) = lex_number(chars, i);
        Ok((Some(Token::Int(n)), j))
    } else if c == '"' {
        proof {
            lemma_str_body(s, i + 1);
        }
        let (t, j) = lex_str_body(chars, i + 1);
        Ok((Some(Token::Str(chars_to_string(t.as_slice()))), j + 1))
    } else if is_alphabetic(c) || c == '_' {
        let (t, j) = lex_word(chars, i);
        Ok((Some(t), j))
    } else {
        match punct(c) {
            Some(t) => Ok((Some(t), i + 1)),
            None => Err(LexError::UnexpectedChar(c)),
        }
    }
}

/// Lexes source text of the first dialect into tokens ending with `Eof`; fails on the first
/// character that starts no token.
pub fn lex(src: &str) -> (r: Result<Vec<Token>, LexError>)
    requires
        src@.len() + 2 <= usize::MAX,
    ensures
        match (r, spec_lex(src@)) {
            (Ok(ts), Ok(tv)) => tokens_view(ts@) == tv,
            (Err(e), Err(f)) => e == f,
            _ => false,
        },
{
    let chars = string_to_chars(src);
    let ghost s = chars@;
    let mut out: Vec<Token> = Vec::new();
    let mut i: usize = 0;
    while i < chars.len()
        invariant
            s == chars@,
            s == src@,
            s.len() + 2 <= usize::MAX,
            i <= s.len() + 1,
            spec_lex_from(s, 0) == (match spec_lex_from(s, i as int) {
                Ok(ts) => Ok(tokens_view(out@) + ts),
                Err(e) => Err(e),
            }),
        decreases s.len() + 2 - i,
    {
        proof {
            lemma_scan_progress(s, i as int);
        }
        let ghost before = tokens_view(out@);
        match scan_token(&chars, i) {
            Ok((None, j)) => {
                i = j;
            },
            Ok((Some(t), j)) => {
                out.push(t);
                i = j;
                proof {
                    match spec_lex_from(s, i as int) {
                        Ok(ts) => {
                            assert(tokens_view(out@) =~= before.push(out@.last()@));
                            assert(before + (seq![out@.last()@] + ts) =~= tokens_view(out@) + ts);
                        },
                        Err(_) => {},
                    }
                }
            },
            Err(e) => {
                return Err(e);
            },
        }
    }
    let ghost before = tokens_view(out@);
    out.push(Token::Eof);
    proof {
        assert(tokens_view(out@) =~= before + seq![TokenV::Eof]);
    }
    Ok(out)
}

/// Lexing output always ends with `Eof`.
pub proof fn lemma_lex_ends_with_eof(s: Seq<char>, i: int)
    ensures
        spec_lex_from(s, i) matches Ok(ts) ==> ts.len() > 0 && ts.last() == TokenV::Eof,
    decreases s.len() + 2 - i,
{
    if 0 <= i < s.len() {
        lemma_scan_progress(s, i);
        match spec_scan(s, i) {
            ScanV::Skip(j) => {
                lemma_lex_ends_with_eof(s, j);
            },
            ScanV::Emit(t, j) => {
                lemma_lex_ends_with_eof(s, j);
            },
            ScanV::Fail(_) => {},
        }
    }
}

/// A copy of a token.
pub fn copy_token(t: &Token) -> (r: Token)
    ensures
        r@ == t@,
{
    match t {
        Token::Int(n) => Token::Int(*n),
        Token::Str(s) => Token::Str(copy_string(s)),
        Token::Ident(s) => Token::Ident(copy_string(s)),
        Token::Print => Token::Print,
        Token::PrintLn => Token::PrintLn,
        Token::Let => Token::Let,
        Token::Const => Token::Const,
        Token::LParen => Token::LParen,
        Token::RParen => Token::RParen,
        Token::Plus => Token::Plus,
        Token::Minus => Token::Minus,
        Token::Star => Token::Star,
        Token::Slash => Token::Slash,
        Token::Percent => Token::Percent,
        Token::Assign => Token::Assign,
        Token::Semicolon => Token::Semicolon,
        Token::Newline => Token::Newline,
        Token::Eof => Token::Eof,
    }
}

/// Whether two tokens are equal.
pub fn token_eq(a: &Token, b: &Token) -> (r: bool)
    ensures
        r == (a@ == b@),
{
    match (a, b) {
        (Token::Int(x), Token::Int(y)) => *x == *y,
        (Token::Str(x), Token::Str(y)) => string_eq(x, y),
        (Token::Ident(x), Token::Ident(y)) => string_eq(x, y),
        (Token::Print, Token::Print) => true,
        (Token::PrintLn, Token::PrintLn) => true,
        (Token::Let, Token::Let) => true,
        (Token::Const, Token::Const) => true,
        (Token::LParen, Token::LParen) => true,
        (Token::RParen, Token::RParen) => true,
        (Token::Plus, Token::Plus) => true,
        (Token::Minus, Token::Minus) => true,
        (Token::Star, Token::Star) => true,
        (Token::Slash, Token::Slash) => true,
        (Token::Percent, Token::Percent) => true,
        (Token::Assign, Token::Assign) => true,
        (Token::Semicolon, Token::Semicolon) => true,
        (Token::Newline, Token::Newline) => true,
        (Token::Eof, Token::Eof) => true,
        _ => false,
    }
}

} // verus!
