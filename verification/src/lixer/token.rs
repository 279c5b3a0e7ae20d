//! The Julix lexer.
use vstd::prelude::*;
use vstd::utf8::*;
use crate::text::{spec_is_alphabetic, spec_is_numeric, is_alphabetic, is_alphanumeric, chars_to_string, string_to_chars, is_dec_digit, is_hex_digit, digit_value, dec_digit, hex_digit, digit_value_of, chars_eq_str, push_utf8, copy_string, copy_bytes, string_eq, bytes_eq, nat_text, digit_char};

verus! {

/// A piece of an f-string: literal text, or the source text of an embedded expression.
#[derive(Debug, Clone, PartialEq)]
pub enum FStrPart {
    Literal(String),
    Expr(String),
}

/// The mathematical value of an [`FStrPart`].
pub enum FStrPartV {
    Literal(Seq<char>),
    Expr(Seq<char>),
}

impl View for FStrPart {
    type V = FStrPartV;

    open spec fn view(&self) -> FStrPartV {
        match self {
            FStrPart::Literal(s) => FStrPartV::Literal(s@),
            FStrPart::Expr(s) => FStrPartV::Expr(s@),
        }
    }
}

pub open spec fn parts_view(ps: Seq<FStrPart>) -> Seq<FStrPartV> {
    ps.map_values(|p: FStrPart| p@)
}

/// A token. A float literal is kept as its source text with underscores removed;
/// turning it into a number is left to the caller.
#[derive(Debug, Clone, PartialEq)]
pub enum Token {
    Int(i64),
    Float(String),
    Str(String),
    Bytes(Vec<u8>),
    FStr(Vec<FStrPart>),
    Ident(String),
    Print,
    PrintLn,
    Let,
    Const,
    If,
    Elif,
    Else,
    True,
    False,
    Null,
    While,
    For,
    In,
    Break,
    Continue,
    Dot,
    Range,
    Function,
    Return,
    Type,
    Colon,
    Comma,
    Try,
    Catch,
    Throw,
    Question,
    LParen,
    RParen,
    LBrace,
    RBrace,
    LBracket,
    RBracket,
    Plus,
    Minus,
    Star,
    Slash,
    Percent,
    Assign,
    EqEq,
    NotEq,
    Lt,
    Gt,
    LtEq,
    GtEq,
    AndAnd,
    OrOr,
    Bang,
    Amp,
    Pipe,
    Caret,
    Shl,
    Shr,
    And,
    Or,
    Not,
    Semicolon,
    Newline,
    Eof,
}

/// The mathematical value of a [`Token`].
pub enum TokenV {
    Int(i64),
    Float(Seq<char>),
    Str(Seq<char>),
    Bytes(Seq<u8>),
    FStr(Seq<FStrPartV>),
    Ident(Seq<char>),
    Print,
    PrintLn,
    Let,
    Const,
    If,
    Elif,
    Else,
    True,
    False,
    Null,
    While,
    For,
    In,
    Break,
    Continue,
    Dot,
    Range,
    Function,
    Return,
    Type,
    Colon,
    Comma,
    Try,
    Catch,
    Throw,
    Question,
    LParen,
    RParen,
    LBrace,
    RBrace,
    LBracket,
    RBracket,
    Plus,
    Minus,
    Star,
    Slash,
    Percent,
    Assign,
    EqEq,
    NotEq,
    Lt,
    Gt,
    LtEq,
    GtEq,
    AndAnd,
    OrOr,
    Bang,
    Amp,
    Pipe,
    Caret,
    Shl,
    Shr,
    And,
    Or,
    Not,
    Semicolon,
    Newline,
    Eof,
}

impl View for Token {
    type V = TokenV;

    open spec fn view(&self) -> TokenV {
        match self {
            Token::Int(n) => TokenV::Int(*n),
            Token::Float(s) => TokenV::Float(s@),
            Token::Str(s) => TokenV::Str(s@),
            Token::Bytes(b) => TokenV::Bytes(b@),
            Token::FStr(p) => TokenV::FStr(parts_view(p@)),
            Token::Ident(s) => TokenV::Ident(s@),
            Token::Print => TokenV::Print,
            Token::PrintLn => TokenV::PrintLn,
            Token::Let => TokenV::Let,
            Token::Const => TokenV::Const,
            Token::If => TokenV::If,
            Token::Elif => TokenV::Elif,
            Token::Else => TokenV::Else,
            Token::True => TokenV::True,
            Token::False => TokenV::False,
            Token::Null => TokenV::Null,
            Token::While => TokenV::While,
            Token::For => TokenV::For,
            Token::In => TokenV::In,
            Token::Break => TokenV::Break,
            Token::Continue => TokenV::Continue,
            Token::Dot => TokenV::Dot,
            Token::Range => TokenV::Range,
            Token::Function => TokenV::Function,
            Token::Return => TokenV::Return,
            Token::Type => TokenV::Type,
            Token::Colon => TokenV::Colon,
            Token::Comma => TokenV::Comma,
            Token::Try => TokenV::Try,
            Token::Catch => TokenV::Catch,
            Token::Throw => TokenV::Throw,
            Token::Question => TokenV::Question,
            Token::LParen => TokenV::LParen,
            Token::RParen => TokenV::RParen,
            Token::LBrace => TokenV::LBrace,
            Token::RBrace => TokenV::RBrace,
            Token::LBracket => TokenV::LBracket,
            Token::RBracket => TokenV::RBracket,
            Token::Plus => TokenV::Plus,
            Token::Minus => TokenV::Minus,
            Token::Star => TokenV::Star,
            Token::Slash => TokenV::Slash,
            Token::Percent => TokenV::Percent,
            Token::Assign => TokenV::Assign,
            Token::EqEq => TokenV::EqEq,
            Token::NotEq => TokenV::NotEq,
            Token::Lt => TokenV::Lt,
            Token::Gt => TokenV::Gt,
            Token::LtEq => TokenV::LtEq,
            Token::GtEq => TokenV::GtEq,
            Token::AndAnd => TokenV::AndAnd,
            Token::OrOr => TokenV::OrOr,
            Token::Amp => TokenV::Amp,
            Token::Pipe => TokenV::Pipe,
            Token::Caret => TokenV::Caret,
            Token::Shl => TokenV::Shl,
            Token::Shr => TokenV::Shr,
            Token::Bang => TokenV::Bang,
            Token::And => TokenV::And,
            Token::Or => TokenV::Or,
            Token::Not => TokenV::Not,
            Token::Semicolon => TokenV::Semicolon,
            Token::Newline => TokenV::Newline,
            Token::Eof => TokenV::Eof,
        }
    }
}

pub open spec fn tokens_view(ts: Seq<Token>) -> Seq<TokenV> {
    ts.map_values(|t: Token| t@)
}

/// Why lexing stopped.
#[derive(Debug, Clone, Copy, PartialEq, Eq, Structural)]
pub enum LexError {
    /// A character that starts no token.
    UnexpectedChar(char),
    /// A `\x` escape closer than two characters to the end of the source.
    TruncatedHexEscape,
}

// ---------------------------------------------------------------------------
// Character classes and spans

/// The character classes that the lexer scans runs of.
#[derive(Clone, Copy, PartialEq, Eq, Structural)]
pub enum CharClass {
    /// hex digits and `_`
    HexRun,
    /// `0`..`7` and `_`
    OctRun,
    /// `0`, `1` and `_`
    BinRun,
    /// decimal digits and `_`
    DecRun,
    /// anything but a newline
    Line,
    /// alphanumeric characters and `_`
    Word,
}

pub open spec fn in_class(cls: CharClass, c: char) -> bool {
    match cls {
        CharClass::HexRun => is_hex_digit(c) || c == '_',
        CharClass::OctRun => (is_dec_digit(c) && c < '8') || c == '_',
        CharClass::BinRun => c == '0' || c == '1' || c == '_',
        CharClass::DecRun => is_dec_digit(c) || c == '_',
        CharClass::Line => c != '\n',
        CharClass::Word => spec_is_alphabetic(c) || spec_is_numeric(c) || c == '_',
    }
}

fn in_class_exec(cls: CharClass, c: char) -> (r: bool)
    ensures
        r == in_class(cls, c),
{
    match cls {
        CharClass::HexRun => hex_digit(c) || c == '_',
        CharClass::OctRun => (dec_digit(c) && c < '8') || c == '_',
        CharClass::BinRun => c == '0' || c == '1' || c == '_',
        CharClass::DecRun => dec_digit(c) || c == '_',
        CharClass::Line => c != '\n',
        CharClass::Word => is_alphanumeric(c) || c == '_',
    }
}

/// The first index at or after `i` whose character is not in `cls` (or the end).
pub open spec fn span_end(s: Seq<char>, i: int, cls: CharClass) -> int
    decreases s.len() - i,
{
    if i < 0 || i >= s.len() || !in_class(cls, s[i]) {
        i
    } else {
        span_end(s, i + 1, cls)
    }
}

pub proof fn lemma_span_end(s: Seq<char>, i: int, cls: CharClass)
    requires
        0 <= i <= s.len(),
    ensures
        i <= span_end(s, i, cls) <= s.len(),
        forall|k: int| i <= k < span_end(s, i, cls) ==> in_class(cls, #[trigger] s[k]),
        span_end(s, i, cls) < s.len() ==> !in_class(cls, s[span_end(s, i, cls)]),
    decreases s.len() - i,
{
    if i < s.len() && in_class(cls, s[i]) {
        lemma_span_end(s, i + 1, cls);
    }
}

pub(crate) fn scan_span(chars: &Vec<char>, i: usize, cls: CharClass) -> (j: usize)
    requires
        i <= chars.len(),
    ensures
        j == span_end(chars@, i as int, cls),
{
    let mut j = i;
    while j < chars.len() && in_class_exec(cls, chars[j])
        invariant
            i <= j <= chars.len(),
            span_end(chars@, i as int, cls) == span_end(chars@, j as int, cls),
        decreases chars.len() - j,
    {
        j = j + 1;
    }
    j
}

// ---------------------------------------------------------------------------
// Integer literals

/// The characters of `s` without its underscores.
pub open spec fn strip_underscores(s: Seq<char>) -> Seq<char>
    decreases s.len(),
{
    if s.len() == 0 {
        s
    } else if s.last() == '_' {
        strip_underscores(s.drop_last())
    } else {
        strip_underscores(s.drop_last()).push(s.last())
    }
}

pub(crate) fn strip_range(chars: &Vec<char>, from: usize, to: usize) -> (r: Vec<char>)
    requires
        from <= to <= chars.len(),
    ensures
        r@ == strip_underscores(chars@.subrange(from as int, to as int)),
{
    let mut r: Vec<char> = Vec::new();
    let mut k = from;
    assert(chars@.subrange(from as int, from as int) =~= Seq::<char>::empty());
    while k < to
        invariant
            from <= k <= to <= chars.len(),
            r@ == strip_underscores(chars@.subrange(from as int, k as int)),
        decreases to - k,
    {
        assert(chars@.subrange(from as int, k + 1).drop_last() =~= chars@.subrange(
            from as int,
            k as int,
        ));
        if chars[k] != '_' {
            r.push(chars[k]);
        }
        k = k + 1;
    }
    r
}

/// The value of a digit string in the given radix (most significant digit first).
pub open spec fn radix_value(d: Seq<char>, radix: int) -> int
    decreases d.len(),
{
    if d.len() == 0 {
        0
    } else {
        radix_value(d.drop_last(), radix) * radix + digit_value(d.last())
    }
}

/// What `i64::from_str_radix(digits, radix).unwrap_or(0)` gives for a string of valid digits:
/// the value, or 0 when the string is empty or the value does not fit.
pub open spec fn int_literal_value(d: Seq<char>, radix: int) -> i64 {
    if d.len() > 0 && radix_value(d, radix) <= i64::MAX {
        radix_value(d, radix) as i64
    } else {
        0
    }
}

proof fn lemma_radix_value_nonneg(d: Seq<char>, radix: int)
    requires
        radix >= 1,
    ensures
        radix_value(d, radix) >= 0,
    decreases d.len(),
{
    if d.len() > 0 {
        lemma_radix_value_nonneg(d.drop_last(), radix);
        let v = radix_value(d.drop_last(), radix);
        assert(v * radix >= 0) by (nonlinear_arith)
            requires
                v >= 0,
                radix >= 1,
        ;
    }
}

pub(crate) fn parse_radix(d: &Vec<char>, radix: u32) -> (r: i64)
    requires
        2 <= radix <= 16,
    ensures
        r == int_literal_value(d@, radix as int),
{
    let mut acc: i64 = 0;
    let mut overflow = false;
    let mut k: usize = 0;
    assert(d@.subrange(0, 0) =~= Seq::<char>::empty());
    while k < d.len()
        invariant
            k <= d.len(),
            2 <= radix <= 16,
            radix_value(d@.subrange(0, k as int), radix as int) >= 0,
            !overflow ==> acc == radix_value(d@.subrange(0, k as int), radix as int),
            overflow ==> radix_value(d@.subrange(0, k as int), radix as int) > i64::MAX,
        decreases d.len() - k,
    {
        let ghost prev = radix_value(d@.subrange(0, k as int), radix as int);
        let dv = digit_value_of(d[k]);
        assert(d@.subrange(0, k + 1).drop_last() =~= d@.subrange(0, k as int));
        assert(d@.subrange(0, k + 1).last() == d@[k as int]);
        let ghost next = radix_value(d@.subrange(0, k + 1), radix as int);
        assert(next == prev * radix + dv);
        assert(next >= prev) by (nonlinear_arith)
            requires
                next == prev * radix + dv,
                prev >= 0,
                radix >= 2,
                dv >= 0,
        ;
        if !overflow {
            match acc.checked_mul(radix as i64) {
                Some(m) => match m.checked_add(dv as i64) {
                    Some(x) => {
                        acc = x;
                    },
                    None => {
                        overflow = true;
                    },
                },
                None => {
                    overflow = true;
                    assert(prev * radix > i64::MAX);
                },
            }
        }
        k = k + 1;
    }
    assert(d@.subrange(0, d@.len() as int) =~= d@);
    if overflow || d.len() == 0 {
        0
    } else {
        acc
    }
}

/// The token that a number literal starting at `i` makes, and where it ends.
pub open spec fn spec_number(s: Seq<char>, i: int) -> (TokenV, int) {
    let radix_at = |r: int, cls: CharClass| -> (TokenV, int)
        {
            let j = span_end(s, i + 2, cls);
            (TokenV::Int(int_literal_value(strip_underscores(s.subrange(i + 2, j)), r)), j)
        };
    if s[i] == '0' && i + 1 < s.len() && (s[i + 1] == 'x' || s[i + 1] == 'X') {
        radix_at(16, CharClass::HexRun)
    } else if s[i] == '0' && i + 1 < s.len() && (s[i + 1] == 'o' || s[i + 1] == 'O') {
        radix_at(8, CharClass::OctRun)
    } else if s[i] == '0' && i + 1 < s.len() && (s[i + 1] == 'b' || s[i + 1] == 'B') {
        radix_at(2, CharClass::BinRun)
    } else {
        let j = span_end(s, i, CharClass::DecRun);
        if j < s.len() && s[j] == '.' && j + 1 < s.len() && s[j + 1] != '.' {
            let k = span_end(s, j + 1, CharClass::DecRun);
            (TokenV::Float(strip_underscores(s.subrange(i, k))), k)
        } else {
            (TokenV::Int(int_literal_value(strip_underscores(s.subrange(i, j)), 10)), j)
        }
    }
}

fn lex_number(chars: &Vec<char>, i: usize) -> (r: (Token, usize))
    requires
        i < chars.len(),
        is_dec_digit(chars@[i as int]),
    ensures
        (r.0@, r.1 as int) == spec_number(chars@, i as int),
        i < r.1 <= chars.len(),
{
    let ghost s = chars@;
    let c = chars[i];
    let radix_kind: u32 = if c == '0' && i + 1 < chars.len() && (chars[i + 1] == 'x' || chars[i
        + 1] == 'X') {
        16
    } else if c == '0' && i + 1 < chars.len() && (chars[i + 1] == 'o' || chars[i + 1] == 'O') {
        8
    } else if c == '0' && i + 1 < chars.len() && (chars[i + 1] == 'b' || chars[i + 1] == 'B') {
        2
    } else {
        10
    };
    if radix_kind != 10 {
        let cls = if radix_kind == 16 {
            CharClass::HexRun
        } else if radix_kind == 8 {
            CharClass::OctRun
        } else {
            CharClass::BinRun
        };
        proof {
            lemma_span_end(s, i + 2, cls);
        }
        let j = scan_span(chars, i + 2, cls);
        let digits = strip_range(chars, i + 2, j);
        let n = parse_radix(&digits, radix_kind);
        (Token::Int(n), j)
    } else {
        proof {
            lemma_span_end(s, i as int, CharClass::DecRun);
        }
        let j = scan_span(chars, i, CharClass::DecRun);
        if j < chars.len() && chars[j] == '.' && j + 1 < chars.len() && chars[j + 1] != '.' {
            proof {
                lemma_span_end(s, j + 1, CharClass::DecRun);
            }
            let k = scan_span(chars, j + 1, CharClass::DecRun);
            let text = strip_range(chars, i, k);
            (Token::Float(chars_to_string(text.as_slice())), k)
        } else {
            let digits = strip_range(chars, i, j);
            let n = parse_radix(&digits, 10);
            (Token::Int(n), j)
        }
    }
}

// ---------------------------------------------------------------------------
// String and bytes literals

/// The character that `\e` stands for in a string literal (`\x` aside).
pub open spec fn escape_char(e: char) -> char {
    if e == 'n' {
        '\n'
    } else if e == 't' {
        '\t'
    } else if e == 'r' {
        '\r'
    } else if e == '0' {
        '\0'
    } else {
        e
    }
}

/// The byte that `\e` stands for in a bytes literal (`\x` aside).
pub open spec fn escape_byte(e: char) -> u8 {
    if e == 'n' {
        10u8
    } else if e == 't' {
        9u8
    } else if e == 'r' {
        13u8
    } else if e == '0' {
        0u8
    } else {
        (e as u32) as u8
    }
}

/// A bytes literal reads an escape as a string literal does: where `\e` stands for an ASCII
/// character, the byte is that character's code (`\n` 10, `\t` 9, `\r` 13, `\0` 0); and of
/// the printable escape letters, exactly `n`, `t`, `r` and `0` stand for control codes.
pub proof fn law_escape_meanings(e: char)
    requires
        e != 'x',
    ensures
        (escape_char(e) as u32) < 128 ==> escape_byte(e) as u32 == escape_char(e) as u32,
        32 <= (e as u32) < 127 ==> ((escape_byte(e) < 32) <==> (e == 'n' || e == 't' || e == 'r' || e == '0')),
        32 <= (e as u32) < 127 ==> (((escape_char(e) as u32) < 32) <==> (e == 'n' || e == 't' || e == 'r' || e == '0')),
        e == 'n' ==> escape_byte(e) == 10 && escape_char(e) as u32 == 10,
        e == 't' ==> escape_byte(e) == 9 && escape_char(e) as u32 == 9,
        e == 'r' ==> escape_byte(e) == 13 && escape_char(e) as u32 == 13,
        e == '0' ==> escape_byte(e) == 0 && escape_char(e) as u32 == 0,
{
    if !(e == 'n' || e == 't' || e == 'r' || e == '0') && (e as u32) < 128 {
        let x: u32 = e as u32;
        assert((x as u8) as u32 == x) by (bit_vector)
            requires x < 128;
    }
}

/// What `u8::from_str_radix(&[a, b], 16).unwrap_or(0)` gives: a leading `+` is allowed.
pub open spec fn hex_pair_value(a: char, b: char) -> u8 {
    if a == '+' {
        if is_hex_digit(b) {
            digit_value(b) as u8
        } else {
            0
        }
    } else if is_hex_digit(a) && is_hex_digit(b) {
        (digit_value(a) * 16 + digit_value(b)) as u8
    } else {
        0
    }
}

fn hex_pair(a: char, b: char) -> (r: u8)
    ensures
        r == hex_pair_value(a, b),
{
    if a == '+' {
        if hex_digit(b) {
            digit_value_of(b) as u8
        } else {
            0
        }
    } else if hex_digit(a) && hex_digit(b) {
        (digit_value_of(a) * 16 + digit_value_of(b)) as u8
    } else {
        0
    }
}

pub(crate) fn escape_char_exec(e: char) -> (r: char)
    ensures
        r == escape_char(e),
{
    if e == 'n' {
        '\n'
    } else if e == 't' {
        '\t'
    } else if e == 'r' {
        '\r'
    } else if e == '0' {
        '\0'
    } else {
        e
    }
}

fn escape_byte_exec(e: char) -> (r: u8)
    ensures
        r == escape_byte(e),
{
    if e == 'n' {
        10
    } else if e == 't' {
        9
    } else if e == 'r' {
        13
    } else if e == '0' {
        0
    } else {
        #[verifier::truncate]
        ((e as u32) as u8)
    }
}

/// The contents of a string literal whose body starts at `i`, and the index of the closing
/// quote (or of the end); `None` on a `\x` escape that runs past the end.
pub open spec fn str_body(s: Seq<char>, i: int) -> Option<(Seq<char>, int)>
    decreases s.len() - i,
{
    if i < 0 || i >= s.len() || s[i] == '"' {
        Some((Seq::empty(), i))
    } else if s[i] == '\\' && i + 1 < s.len() {
        if s[i + 1] == 'x' {
            if i + 4 > s.len() {
                None
            } else {
                match str_body(s, i + 4) {
                    Some((r, j)) => Some((seq![hex_pair_value(s[i + 2], s[i + 3]) as char] + r, j)),
                    None => None,
                }
            }
        } else {
            match str_body(s, i + 2) {
                Some((r, j)) => Some((seq![escape_char(s[i + 1])] + r, j)),
                None => None,
            }
        }
    } else {
        match str_body(s, i + 1) {
            Some((r, j)) => Some((seq![s[i]] + r, j)),
            None => None,
        }
    }
}

/// The bytes of a bytes literal whose body starts at `i`, and the index of the closing quote
/// (or of the end); `None` on a `\x` escape that runs past the end.
pub open spec fn bytes_body(s: Seq<char>, i: int) -> Option<(Seq<u8>, int)>
    decreases s.len() - i,
{
    if i < 0 || i >= s.len() || s[i] == '"' {
        Some((Seq::empty(), i))
    } else if s[i] == '\\' && i + 1 < s.len() {
        if s[i + 1] == 'x' {
            if i + 4 > s.len() {
                None
            } else {
                match bytes_body(s, i + 4) {
                    Some((r, j)) => Some((seq![hex_pair_value(s[i + 2], s[i + 3])] + r, j)),
                    None => None,
                }
            }
        } else {
            match bytes_body(s, i + 2) {
                Some((r, j)) => Some((seq![escape_byte(s[i + 1])] + r, j)),
                None => None,
            }
        }
    } else {
        match bytes_body(s, i + 1) {
            Some((r, j)) => Some((encode_scalar(s[i] as u32) + r, j)),
            None => None,
        }
    }
}

pub proof fn lemma_str_body(s: Seq<char>, i: int)
    requires
        0 <= i <= s.len(),
    ensures
        str_body(s, i) matches Some((_, j)) ==> i <= j <= s.len(),
        bytes_body(s, i) matches Some((_, j)) ==> i <= j <= s.len(),
    decreases s.len() - i,
{
    if i < s.len() && s[i] != '"' {
        if s[i] == '\\' && i + 1 < s.len() {
            if s[i + 1] == 'x' {
                if i + 4 <= s.len() {
                    lemma_str_body(s, i + 4);
                }
            } else {
                lemma_str_body(s, i + 2);
            }
        } else {
            lemma_str_body(s, i + 1);
        }
    }
}

fn lex_str_body(chars: &Vec<char>, start: usize) -> (r: Option<(Vec<char>, usize)>)
    requires
        start <= chars.len(),
    ensures
        match (r, str_body(chars@, start as int)) {
            (Some((v, j)), Some((t, k))) => v@ == t && j == k,
            (None, None) => true,
            _ => false,
        },
{
    let ghost s = chars@;
    let mut out: Vec<char> = Vec::new();
    let mut i = start;
    while i < chars.len() && chars[i] != '"'
        invariant
            start <= i <= chars.len(),
            s == chars@,
            str_body(s, start as int) == (match str_body(s, i as int) {
                Some((r, j)) => Some((out@ + r, j)),
                None => None,
            }),
        decreases chars.len() - i,
    {
        let ghost old_out = out@;
        if chars[i] == '\\' && i + 1 < chars.len() {
            if chars[i + 1] == 'x' {
                if chars.len() - i < 4 {
                    return None;
                }
                let b = hex_pair(chars[i + 2], chars[i + 3]);
                out.push(b as char);
                i = i + 4;
            } else {
                out.push(escape_char_exec(chars[i + 1]));
                i = i + 2;
            }
        } else {
            out.push(chars[i]);
            i = i + 1;
        }
        proof {
            match str_body(s, i as int) {
                Some((r, j)) => {
                    assert(old_out + (seq![out@.last()] + r) =~= out@ + r);
                },
                None => {},
            }
        }
    }
    Some((out, i))
}

fn lex_bytes_body(chars: &Vec<char>, start: usize) -> (r: Option<(Vec<u8>, usize)>)
    requires
        start <= chars.len(),
    ensures
        match (r, bytes_body(chars@, start as int)) {
            (Some((v, j)), Some((t, k))) => v@ == t && j == k,
            (None, None) => true,
            _ => false,
        },
{
    let ghost s = chars@;
    let mut out: Vec<u8> = Vec::new();
    let mut i = start;
    while i < chars.len() && chars[i] != '"'
        invariant
            start <= i <= chars.len(),
            s == chars@,
            bytes_body(s, start as int) == (match bytes_body(s, i as int) {
                Some((r, j)) => Some((out@ + r, j)),
                None => None,
            }),
        decreases chars.len() - i,
    {
        let ghost old_out = out@;
        let ghost piece: Seq<u8>;
        if chars[i] == '\\' && i + 1 < chars.len() {
            if chars[i + 1] == 'x' {
                if chars.len() - i < 4 {
                    return None;
                }
                let b = hex_pair(chars[i + 2], chars[i + 3]);
                out.push(b);
                proof {
                    piece = seq![b];
                }
                i = i + 4;
            } else {
                let b = escape_byte_exec(chars[i + 1]);
                out.push(b);
                proof {
                    piece = seq![b];
                }
                i = i + 2;
            }
        } else {
            push_utf8(&mut out, chars[i]);
            proof {
                piece = encode_scalar(s[i as int] as u32);
            }
            i = i + 1;
        }
        proof {
            assert(out@ =~= old_out + piece);
            match bytes_body(s, i as int) {
                Some((r, j)) => {
                    assert(old_out + (piece + r) =~= out@ + r);
                },
                None => {},
            }
        }
    }
    Some((out, i))
}

// ---------------------------------------------------------------------------
// F-strings

/// Where the embedded expression that starts at `i` ends: the index of the `}` that closes it
/// (with `depth` braces open), or the end of the source.
pub open spec fn fstr_expr_end(s: Seq<char>, i: int, depth: int) -> int
    decreases s.len() - i,
{
    if i < 0 || i >= s.len() {
        i
    } else if s[i] == '{' {
        fstr_expr_end(s, i + 1, depth + 1)
    } else if s[i] == '}' {
        if depth - 1 == 0 {
            i
        } else {
            fstr_expr_end(s, i + 1, depth - 1)
        }
    } else {
        fstr_expr_end(s, i + 1, depth)
    }
}

pub proof fn lemma_fstr_expr_end(s: Seq<char>, i: int, depth: int)
    requires
        0 <= i <= s.len(),
    ensures
        i <= fstr_expr_end(s, i, depth) <= s.len(),
    decreases s.len() - i,
{
    if i < s.len() {
        if s[i] == '{' {
            lemma_fstr_expr_end(s, i + 1, depth + 1);
        } else if s[i] == '}' {
            if depth - 1 != 0 {
                lemma_fstr_expr_end(s, i + 1, depth - 1);
            }
        } else {
            lemma_fstr_expr_end(s, i + 1, depth);
        }
    }
}

/// The literal part that pending text makes: none when the text is empty.
pub open spec fn literal_part(lit: Seq<char>) -> Seq<FStrPartV> {
    if lit.len() > 0 {
        seq![FStrPartV::Literal(lit)]
    } else {
        Seq::empty()
    }
}

/// The parts of an f-string body read from `i` with `lit` pending, and the index just past
/// the closing quote (past the end when there is none).
pub open spec fn fstr_parts(s: Seq<char>, i: int, lit: Seq<char>) -> (Seq<FStrPartV>, int)
    decreases s.len() + 1 - i,
{
    if i < 0 || i >= s.len() || s[i] == '"' {
        (literal_part(lit), i + 1)
    } else if s[i] == '{' && i + 1 < s.len() && s[i + 1] == '{' {
        fstr_parts(s, i + 2, lit.push('{'))
    } else if s[i] == '}' && i + 1 < s.len() && s[i + 1] == '}' {
        fstr_parts(s, i + 2, lit.push('}'))
    } else if s[i] == '{' {
        let e = fstr_expr_end(s, i + 1, 1);
        proof {
            lemma_fstr_expr_end(s, i + 1, 1);
        }
        let r = fstr_parts(s, e + 1, Seq::empty());
        (literal_part(lit) + seq![FStrPartV::Expr(s.subrange(i + 1, e))] + r.0, r.1)
    } else {
        fstr_parts(s, i + 1, lit.push(s[i]))
    }
}

pub proof fn lemma_fstr_parts(s: Seq<char>, i: int, lit: Seq<char>)
    requires
        0 <= i <= s.len() + 1,
    ensures
        i < fstr_parts(s, i, lit).1 <= s.len() + 2,
    decreases s.len() + 1 - i,
{
    if 0 <= i < s.len() && s[i] != '"' {
        if s[i] == '{' && i + 1 < s.len() && s[i + 1] == '{' {
            lemma_fstr_parts(s, i + 2, lit.push('{'));
        } else if s[i] == '}' && i + 1 < s.len() && s[i + 1] == '}' {
            lemma_fstr_parts(s, i + 2, lit.push('}'));
        } else if s[i] == '{' {
            lemma_fstr_expr_end(s, i + 1, 1);
            lemma_fstr_parts(s, fstr_expr_end(s, i + 1, 1) + 1, Seq::empty());
        } else {
            lemma_fstr_parts(s, i + 1, lit.push(s[i]));
        }
    }
}

/// F-string parts in normal form: no literal part is empty, and no two literal parts stand
/// side by side.
pub open spec fn parts_normal(ps: Seq<FStrPartV>) -> bool {
    &&& forall|k: int| 0 <= k < ps.len() ==> (#[trigger] ps[k] matches FStrPartV::Literal(t) ==> t.len() > 0)
    &&& forall|k: int| 0 <= k < ps.len() - 1 ==> !(#[trigger] ps[k] is Literal && ps[k + 1] is Literal)
}

proof fn lemma_parts_normal_join(a: Seq<FStrPartV>, x: Seq<char>, b: Seq<FStrPartV>)
    requires
        parts_normal(a),
        parts_normal(b),
        a.len() <= 1,
    ensures
        parts_normal(a + seq![FStrPartV::Expr(x)] + b),
{
    let ps = a + seq![FStrPartV::Expr(x)] + b;
    let n = a.len() as int;
    assert forall|k: int| 0 <= k < ps.len() implies (#[trigger] ps[k] matches FStrPartV::Literal(t) ==> t.len() > 0) by {
        if k < n {
            assert(ps[k] == a[k]);
        } else if k > n {
            assert(ps[k] == b[k - n - 1]);
        }
    }
    assert forall|k: int| 0 <= k < ps.len() - 1 implies !(#[trigger] ps[k] is Literal && ps[k + 1] is Literal) by {
        if k + 1 == n {
            assert(ps[k + 1] == FStrPartV::Expr(x));
        } else if k == n {
            assert(ps[k] == FStrPartV::Expr(x));
        } else if k > n {
            assert(ps[k] == b[k - n - 1]);
            assert(ps[k + 1] == b[k - n]);
        }
    }
}

/// The parts that lexing an f-string gives are in normal form: no empty literal part, and
/// no two literal parts side by side.
pub proof fn law_fstring_parts_normal(s: Seq<char>, i: int, lit: Seq<char>)
    ensures
        parts_normal(fstr_parts(s, i, lit).0),
    decreases s.len() + 1 - i,
{
    if i < 0 || i >= s.len() || s[i] == '"' {
    } else if s[i] == '{' && i + 1 < s.len() && s[i + 1] == '{' {
        law_fstring_parts_normal(s, i + 2, lit.push('{'));
    } else if s[i] == '}' && i + 1 < s.len() && s[i + 1] == '}' {
        law_fstring_parts_normal(s, i + 2, lit.push('}'));
    } else if s[i] == '{' {
        let e = fstr_expr_end(s, i + 1, 1);
        lemma_fstr_expr_end(s, i + 1, 1);
        law_fstring_parts_normal(s, e + 1, Seq::empty());
        lemma_parts_normal_join(literal_part(lit), s.subrange(i + 1, e), fstr_parts(s, e + 1, Seq::empty()).0);
    } else {
        law_fstring_parts_normal(s, i + 1, lit.push(s[i]));
    }
}

/// An f-string body of plain text up to its closing quote gives one literal part (none when
/// the text is empty), and lexing goes on just past the quote.
pub proof fn law_fstring_plain_text(s: Seq<char>, i: int, q: int, lit: Seq<char>)
    requires
        0 <= i <= q < s.len(),
        s[q] == '"',
        forall|k: int| i <= k < q ==> #[trigger] s[k] != '"' && s[k] != '{' && s[k] != '}',
    ensures
        fstr_parts(s, i, lit) == (literal_part(lit + s.subrange(i, q)), q + 1),
    decreases q - i,
{
    if i == q {
        assert(lit + s.subrange(i, q) =~= lit);
    } else {
        assert(s[i] != '"' && s[i] != '{' && s[i] != '}');
        law_fstring_plain_text(s, i + 1, q, lit.push(s[i]));
        assert(lit.push(s[i]) + s.subrange(i + 1, q) =~= lit + s.subrange(i, q));
    }
}

/// The text of an f-string literal part: each brace doubled.
pub open spec fn escape_braces(t: Seq<char>) -> Seq<char>
    decreases t.len(),
{
    if t.len() == 0 {
        t
    } else {
        (if t[0] == '{' {
            seq!['{', '{']
        } else if t[0] == '}' {
            seq!['}', '}']
        } else {
            seq![t[0]]
        }) + escape_braces(t.drop_first())
    }
}

/// The source text of one f-string part.
pub open spec fn render_part(p: FStrPartV) -> Seq<char> {
    match p {
        FStrPartV::Literal(t) => escape_braces(t),
        FStrPartV::Expr(e) => seq!['{'] + e + seq!['}'],
    }
}

/// The source text of f-string parts (without the quotes).
pub open spec fn render_parts(ps: Seq<FStrPartV>) -> Seq<char>
    decreases ps.len(),
{
    if ps.len() == 0 {
        Seq::empty()
    } else {
        render_part(ps[0]) + render_parts(ps.drop_first())
    }
}

/// Opening braces minus closing braces.
pub open spec fn brace_balance(e: Seq<char>) -> int
    decreases e.len(),
{
    if e.len() == 0 {
        0
    } else {
        (if e[0] == '{' {
            1int
        } else if e[0] == '}' {
            -1int
        } else {
            0int
        }) + brace_balance(e.drop_first())
    }
}

/// An embedded expression that renders and lexes back: as many `{` as `}`, no prefix with
/// more `}` than `{`, and no leading `{`.
pub open spec fn expr_text_ok(e: Seq<char>) -> bool {
    &&& brace_balance(e) == 0
    &&& forall|k: int| 0 <= k <= e.len() ==> brace_balance(#[trigger] e.take(k)) >= 0
    &&& (e.len() > 0 ==> e[0] != '{')
}

/// Parts that lexing gives back from their rendering: normal form, no quote in a literal,
/// and embedded expressions as above.
pub open spec fn parts_renderable(ps: Seq<FStrPartV>) -> bool {
    &&& parts_normal(ps)
    &&& forall|k: int| 0 <= k < ps.len() ==> match #[trigger] ps[k] {
        FStrPartV::Literal(t) => !t.contains('"'),
        FStrPartV::Expr(e) => expr_text_ok(e),
    }
}

proof fn lemma_escape_scan(s: Seq<char>, i: int, t: Seq<char>, lit: Seq<char>)
    requires
        0 <= i,
        i + escape_braces(t).len() < s.len(),
        s.subrange(i, i + escape_braces(t).len()) == escape_braces(t),
        !t.contains('"'),
    ensures
        fstr_parts(s, i, lit) == fstr_parts(s, i + escape_braces(t).len(), lit + t),
    decreases t.len(),
{
    if t.len() == 0 {
        assert(lit + t =~= lit);
    } else {
        let c = t[0];
        let rest = t.drop_first();
        let w: int = if c == '{' || c == '}' { 2 } else { 1 };
        assert(escape_braces(t) == (if c == '{' {
            seq!['{', '{']
        } else if c == '}' {
            seq!['}', '}']
        } else {
            seq![c]
        }) + escape_braces(rest));
        assert(s[i] == escape_braces(t)[0]);
        if w == 2 {
            assert(s[i + 1] == escape_braces(t)[1]);
        }
        assert(!rest.contains('"')) by {
            if rest.contains('"') {
                let k = choose|k: int| 0 <= k < rest.len() && rest[k] == '"';
                assert(t[k + 1] == '"');
            }
        }
        assert(c != '"') by {
            assert(t[0] == c);
        }
        assert(s.subrange(i + w, i + w + escape_braces(rest).len()) =~= escape_braces(rest)) by {
            assert forall|k: int| 0 <= k < escape_braces(rest).len() implies s.subrange(i + w, i + w
                + escape_braces(rest).len())[k] == escape_braces(rest)[k] by {
                assert(s[i + w + k] == s.subrange(i, i + escape_braces(t).len())[w + k]);
                assert(escape_braces(t)[w + k] == escape_braces(rest)[k]);
            }
        }
        lemma_escape_scan(s, i + w, rest, lit.push(c));
        assert(lit.push(c) + rest =~= lit + t);
    }
}

proof fn lemma_expr_end_scan(s: Seq<char>, i: int, e: Seq<char>, d: int)
    requires
        0 <= i,
        i + e.len() < s.len(),
        s.subrange(i, i + e.len()) == e,
        s[i + e.len()] == '}',
        d + brace_balance(e) == 1,
        forall|k: int| 0 <= k <= e.len() ==> d + brace_balance(#[trigger] e.take(k)) >= 1,
    ensures
        fstr_expr_end(s, i, d) == i + e.len(),
    decreases e.len(),
{
    assert(e.take(0) =~= Seq::<char>::empty());
    if e.len() == 0 {
    } else {
        let c = e[0];
        let r = e.drop_first();
        assert(s[i] == c) by {
            assert(s.subrange(i, i + e.len())[0] == s[i]);
        }
        let dc: int = if c == '{' { 1 } else if c == '}' { -1 } else { 0 };
        assert(e.take(1).drop_first() =~= Seq::<char>::empty());
        assert(brace_balance(e.take(1)) == dc);
        assert(forall|k: int| 0 <= k <= r.len() ==> brace_balance(#[trigger] e.take(k + 1)) == dc + brace_balance(r.take(k))) by {
            assert forall|k: int| 0 <= k <= r.len() implies brace_balance(#[trigger] e.take(k + 1)) == dc + brace_balance(r.take(k)) by {
                assert(e.take(k + 1)[0] == c);
                assert(e.take(k + 1).drop_first() =~= r.take(k));
            }
        }
        assert forall|k: int| 0 <= k <= r.len() implies (d + dc) + brace_balance(#[trigger] r.take(k)) >= 1 by {
            assert(d + brace_balance(e.take(k + 1)) >= 1);
        }
        assert(s.subrange(i + 1, i + 1 + r.len()) =~= r) by {
            assert forall|k: int| 0 <= k < r.len() implies s.subrange(i + 1, i + 1 + r.len())[k] == r[k] by {
                assert(s[i + 1 + k] == s.subrange(i, i + e.len())[k + 1]);
            }
        }
        assert(d + dc >= 1) by {
            assert(d + brace_balance(e.take(1)) >= 1);
        }
        lemma_expr_end_scan(s, i + 1, r, d + dc);
    }
}

/// The parts that lexing gives when `lit` is pending before parts `ps`.
pub open spec fn merge_pending(lit: Seq<char>, ps: Seq<FStrPartV>) -> Seq<FStrPartV> {
    if ps.len() > 0 && ps[0] is Literal {
        seq![FStrPartV::Literal(lit + ps[0]->Literal_0)] + ps.drop_first()
    } else {
        literal_part(lit) + ps
    }
}

proof fn lemma_renderable_tail(ps: Seq<FStrPartV>)
    requires
        ps.len() > 0,
        parts_renderable(ps),
    ensures
        parts_renderable(ps.drop_first()),
{
    let r = ps.drop_first();
    assert forall|k: int| 0 <= k < r.len() implies (#[trigger] r[k] matches FStrPartV::Literal(t) ==> t.len() > 0) by {
        assert(r[k] == ps[k + 1]);
    }
    assert forall|k: int| 0 <= k < r.len() - 1 implies !(#[trigger] r[k] is Literal && r[k + 1] is Literal) by {
        assert(r[k] == ps[k + 1] && r[k + 1] == ps[k + 2]);
    }
    assert forall|k: int| 0 <= k < r.len() implies match #[trigger] r[k] {
        FStrPartV::Literal(t) => !t.contains('"'),
        FStrPartV::Expr(e) => expr_text_ok(e),
    } by {
        assert(r[k] == ps[k + 1]);
    }
}

proof fn lemma_render_scan(s: Seq<char>, i: int, ps: Seq<FStrPartV>, lit: Seq<char>)
    requires
        0 <= i,
        i + render_parts(ps).len() < s.len(),
        s.subrange(i, i + render_parts(ps).len()) == render_parts(ps),
        s[i + render_parts(ps).len()] == '"',
        parts_renderable(ps),
        lit.len() > 0 ==> (ps.len() == 0 || ps[0] is Expr),
    ensures
        fstr_parts(s, i, lit) == (merge_pending(lit, ps), i + render_parts(ps).len() + 1),
    decreases ps.len(),
{
    if ps.len() == 0 {
        assert(literal_part(lit) + ps =~= literal_part(lit));
    } else {
        let p0 = ps[0];
        let rest = ps.drop_first();
        let w = render_part(p0).len();
        lemma_renderable_tail(ps);
        assert(render_parts(ps) == render_part(p0) + render_parts(rest));
        assert(s.subrange(i + w, i + w + render_parts(rest).len()) =~= render_parts(rest)) by {
            assert forall|k: int| 0 <= k < render_parts(rest).len() implies s.subrange(i + w, i + w
                + render_parts(rest).len())[k] == render_parts(rest)[k] by {
                assert(s[i + w + k] == s.subrange(i, i + render_parts(ps).len())[w + k]);
            }
        }
        assert(s.subrange(i, i + w) =~= render_part(p0)) by {
            assert forall|k: int| 0 <= k < w implies s.subrange(i, i + w)[k] == render_part(p0)[k] by {
                assert(s[i + k] == s.subrange(i, i + render_parts(ps).len())[k]);
            }
        }
        match p0 {
            FStrPartV::Literal(t) => {
                assert(match ps[0] {
                    FStrPartV::Literal(t) => !t.contains('"'),
                    FStrPartV::Expr(e) => expr_text_ok(e),
                });
                lemma_escape_scan(s, i, t, lit);
                if rest.len() > 0 {
                    assert(!(ps[0] is Literal && ps[1] is Literal));
                    assert(rest[0] == ps[1]);
                }
                assert(t.len() > 0) by {
                    assert(ps[0] matches FStrPartV::Literal(t) ==> t.len() > 0);
                }
                lemma_render_scan(s, i + w, rest, lit + t);
                assert(literal_part(lit + t) + rest =~= seq![FStrPartV::Literal(lit + t)] + rest);
            },
            FStrPartV::Expr(e) => {
                assert(match ps[0] {
                    FStrPartV::Literal(t) => !t.contains('"'),
                    FStrPartV::Expr(e) => expr_text_ok(e),
                });
                assert(s[i] == '{') by {
                    assert(render_part(p0)[0] == '{');
                }
                assert(s[i + 1] != '{') by {
                    assert(s[i + 1] == render_part(p0)[1]);
                    if e.len() > 0 {
                        assert(render_part(p0)[1] == e[0]);
                    } else {
                        assert(render_part(p0)[1] == '}');
                    }
                }
                assert(s.subrange(i + 1, i + 1 + e.len()) =~= e) by {
                    assert forall|k: int| 0 <= k < e.len() implies s.subrange(i + 1, i + 1 + e.len())[k] == e[k] by {
                        assert(s[i + 1 + k] == s.subrange(i, i + w)[1 + k]);
                        assert(render_part(p0)[1 + k] == e[k]);
                    }
                }
                assert(s[i + 1 + e.len()] == '}') by {
                    assert(s[i + 1 + e.len()] == s.subrange(i, i + w)[1 + e.len() as int]);
                }
                assert forall|k: int| 0 <= k <= e.len() implies 1 + brace_balance(#[trigger] e.take(k)) >= 1 by {}
                lemma_expr_end_scan(s, i + 1, e, 1);
                lemma_render_scan(s, i + w, rest, Seq::empty());
                if rest.len() > 0 && rest[0] is Literal {
                    assert(seq![FStrPartV::Literal(Seq::<char>::empty() + rest[0]->Literal_0)] + rest.drop_first() =~= rest);
                } else {
                    assert(literal_part(Seq::<char>::empty()) + rest =~= rest);
                }
                assert(s.subrange(i + 1, i + 1 + e.len()) == e);
                assert(literal_part(lit) + seq![FStrPartV::Expr(e)] + rest =~= literal_part(lit) + ps);
            },
        }
    }
}

/// Lexing undoes rendering: an f-string body written from parts (literal braces doubled,
/// expressions in braces) and closed by a quote lexes back to the same parts, and lexing goes
/// on just past the quote.
pub proof fn law_fstring_lex_undoes_render(s: Seq<char>, i: int, ps: Seq<FStrPartV>)
    requires
        0 <= i,
        i + render_parts(ps).len() < s.len(),
        s.subrange(i, i + render_parts(ps).len()) == render_parts(ps),
        s[i + render_parts(ps).len()] == '"',
        parts_renderable(ps),
    ensures
        fstr_parts(s, i, Seq::empty()) == (ps, i + render_parts(ps).len() + 1),
{
    lemma_render_scan(s, i, ps, Seq::empty());
    if ps.len() > 0 && ps[0] is Literal {
        assert(seq![FStrPartV::Literal(Seq::<char>::empty() + ps[0]->Literal_0)] + ps.drop_first() =~= ps);
    } else {
        assert(literal_part(Seq::<char>::empty()) + ps =~= ps);
    }
}

fn literal_part_exec(parts: &mut Vec<FStrPart>, lit: &Vec<char>)
    ensures
        parts_view(final(parts)@) == parts_view(old(parts)@) + literal_part(lit@),
{
    let ghost before = parts_view(parts@);
    if lit.len() > 0 {
        parts.push(FStrPart::Literal(chars_to_string(lit.as_slice())));
    }
    assert(parts_view(parts@) =~= before + literal_part(lit@));
}

/// Reads the body of an f-string that starts at `*i` (just after `f"`), splitting it into
/// literal text and embedded expressions, and leaves `*i` just past the closing quote.
pub fn lex_fstring(chars: &[char], i: &mut usize) -> (parts: Vec<FStrPart>)
    requires
        *old(i) <= chars@.len(),
        chars@.len() + 2 <= usize::MAX,
    ensures
        (parts_view(parts@), *final(i) as int) == fstr_parts(chars@, *old(i) as int, Seq::empty()),
{
    let ghost s = chars@;
    let ghost start = *i as int;
    let mut parts: Vec<FStrPart> = Vec::new();
    let mut literal: Vec<char> = Vec::new();
    while *i < chars.len() && chars[*i] != '"'
        invariant
            s == chars@,
            s.len() + 2 <= usize::MAX,
            *i <= s.len() + 1,
            ({
                let r = fstr_parts(s, *i as int, literal@);
                fstr_parts(s, start, Seq::empty()) == (parts_view(parts@) + r.0, r.1)
            }),
        decreases s.len() + 1 - *i,
    {
        let ghost pi = *i as int;
        let ghost plit = literal@;
        let ghost pparts = parts_view(parts@);
        if chars[*i] == '{' && *i + 1 < chars.len() && chars[*i + 1] == '{' {
            literal.push('{');
            *i = *i + 2;
        } else if chars[*i] == '}' && *i + 1 < chars.len() && chars[*i + 1] == '}' {
            literal.push('}');
            *i = *i + 2;
        } else if chars[*i] == '{' {
            literal_part_exec(&mut parts, &literal);
            literal = Vec::new();
            *i = *i + 1;
            let expr_start = *i;
            let mut depth: usize = 1;
            let mut closed = false;
            proof {
                lemma_fstr_expr_end(s, pi + 1, 1);
            }
            while *i < chars.len() && !closed
                invariant
                    s == chars@,
                    s.len() + 2 <= usize::MAX,
                    expr_start <= *i <= s.len(),
                    expr_start == pi + 1,
                    1 <= depth <= 1 + *i - expr_start,
                    !closed ==> fstr_expr_end(s, pi + 1, 1) == fstr_expr_end(
                        s,
                        *i as int,
                        depth as int,
                    ),
                    closed ==> fstr_expr_end(s, pi + 1, 1) == *i as int,
                decreases s.len() - *i + (if closed { 0int } else { 1int }),
            {
                if chars[*i] == '{' {
                    depth = depth + 1;
                    *i = *i + 1;
                } else if chars[*i] == '}' {
                    if depth == 1 {
                        closed = true;
                    } else {
                        depth = depth - 1;
                        *i = *i + 1;
                    }
                } else {
                    *i = *i + 1;
                }
            }
            let e = *i;
            assert(e == fstr_expr_end(s, pi + 1, 1));
            let mut text: Vec<char> = Vec::new();
            let mut k = expr_start;
            while k < e
                invariant
                    expr_start <= k <= e <= s.len(),
                    s == chars@,
                    text@ == s.subrange(expr_start as int, k as int),
                decreases e - k,
            {
                text.push(chars[k]);
                k = k + 1;
                assert(text@ =~= s.subrange(expr_start as int, k as int));
            }
            *i = *i + 1;
            parts.push(FStrPart::Expr(chars_to_string(text.as_slice())));
            proof {
                let r = fstr_parts(s, e + 1, Seq::empty());
                assert(parts_view(parts@) =~= pparts + literal_part(plit) + seq![
                    FStrPartV::Expr(s.subrange(pi + 1, e as int)),
                ]);
                assert(literal@ =~= Seq::<char>::empty());
                assert(pparts + (literal_part(plit) + seq![
                    FStrPartV::Expr(s.subrange(pi + 1, e as int)),
                ] + r.0) =~= parts_view(parts@) + r.0);
            }
        } else {
            literal.push(chars[*i]);
            *i = *i + 1;
        }
    }
    let ghost before = parts_view(parts@);
    literal_part_exec(&mut parts, &literal);
    *i = *i + 1;
    proof {
        assert(before + literal_part(literal@) =~= parts_view(parts@));
    }
    parts
}

// ---------------------------------------------------------------------------
// Words and punctuation

/// The token that a word makes: a keyword, or an identifier.
pub open spec fn keyword_or_ident(w: Seq<char>) -> TokenV {
    if w == "print"@ {
        TokenV::Print
    } else if w == "println"@ {
        TokenV::PrintLn
    } else if w == "let"@ {
        TokenV::Let
    } else if w == "const"@ {
        TokenV::Const
    } else if w == "if"@ {
        TokenV::If
    } else if w == "elif"@ {
        TokenV::Elif
    } else if w == "else"@ {
        TokenV::Else
    } else if w == "true"@ {
        TokenV::True
    } else if w == "false"@ {
        TokenV::False
    } else if w == "null"@ {
        TokenV::Null
    } else if w == "while"@ {
        TokenV::While
    } else if w == "for"@ {
        TokenV::For
    } else if w == "in"@ {
        TokenV::In
    } else if w == "break"@ {
        TokenV::Break
    } else if w == "continue"@ {
        TokenV::Continue
    } else if w == "function"@ {
        TokenV::Function
    } else if w == "return"@ {
        TokenV::Return
    } else if w == "type"@ {
        TokenV::Type
    } else if w == "try"@ {
        TokenV::Try
    } else if w == "catch"@ {
        TokenV::Catch
    } else if w == "throw"@ {
        TokenV::Throw
    } else if w == "and"@ {
        TokenV::And
    } else if w == "or"@ {
        TokenV::Or
    } else if w == "not"@ {
        TokenV::Not
    } else {
        TokenV::Ident(w)
    }
}

fn keyword_or_ident_exec(w: &Vec<char>) -> (t: Token)
    ensures
        t@ == keyword_or_ident(w@),
{
    if chars_eq_str(w.as_slice(), "print") {
        Token::Print
    } else if chars_eq_str(w.as_slice(), "println") {
        Token::PrintLn
    } else if chars_eq_str(w.as_slice(), "let") {
        Token::Let
    } else if chars_eq_str(w.as_slice(), "const") {
        Token::Const
    } else if chars_eq_str(w.as_slice(), "if") {
        Token::If
    } else if chars_eq_str(w.as_slice(), "elif") {
        Token::Elif
    } else if chars_eq_str(w.as_slice(), "else") {
        Token::Else
    } else if chars_eq_str(w.as_slice(), "true") {
        Token::True
    } else if chars_eq_str(w.as_slice(), "false") {
        Token::False
    } else if chars_eq_str(w.as_slice(), "null") {
        Token::Null
    } else if chars_eq_str(w.as_slice(), "while") {
        Token::While
    } else if chars_eq_str(w.as_slice(), "for") {
        Token::For
    } else if chars_eq_str(w.as_slice(), "in") {
        Token::In
    } else if chars_eq_str(w.as_slice(), "break") {
        Token::Break
    } else if chars_eq_str(w.as_slice(), "continue") {
        Token::Continue
    } else if chars_eq_str(w.as_slice(), "function") {
        Token::Function
    } else if chars_eq_str(w.as_slice(), "return") {
        Token::Return
    } else if chars_eq_str(w.as_slice(), "type") {
        Token::Type
    } else if chars_eq_str(w.as_slice(), "try") {
        Token::Try
    } else if chars_eq_str(w.as_slice(), "catch") {
        Token::Catch
    } else if chars_eq_str(w.as_slice(), "throw") {
        Token::Throw
    } else if chars_eq_str(w.as_slice(), "and") {
        Token::And
    } else if chars_eq_str(w.as_slice(), "or") {
        Token::Or
    } else if chars_eq_str(w.as_slice(), "not") {
        Token::Not
    } else {
        Token::Ident(chars_to_string(w.as_slice()))
    }
}

/// One step of the lexer from a given index.
pub enum ScanV {
    /// Nothing emitted; go on at the index.
    Skip(int),
    /// A token, and the index after it.
    Emit(TokenV, int),
    /// Lexing stops with an error.
    Fail(LexError),
}

/// The operator or punctuation token at `i`.
pub open spec fn spec_punct(s: Seq<char>, i: int) -> ScanV {
    let c = s[i];
    let next_is = |d: char| i + 1 < s.len() && s[i + 1] == d;
    if c == '(' {
        ScanV::Emit(TokenV::LParen, i + 1)
    } else if c == ')' {
        ScanV::Emit(TokenV::RParen, i + 1)
    } else if c == '{' {
        ScanV::Emit(TokenV::LBrace, i + 1)
    } else if c == '}' {
        ScanV::Emit(TokenV::RBrace, i + 1)
    } else if c == '[' {
        ScanV::Emit(TokenV::LBracket, i + 1)
    } else if c == ']' {
        ScanV::Emit(TokenV::RBracket, i + 1)
    } else if c == '+' {
        ScanV::Emit(TokenV::Plus, i + 1)
    } else if c == '-' {
        ScanV::Emit(TokenV::Minus, i + 1)
    } else if c == '*' {
        ScanV::Emit(TokenV::Star, i + 1)
    } else if c == '/' {
        ScanV::Emit(TokenV::Slash, i + 1)
    } else if c == '%' {
        ScanV::Emit(TokenV::Percent, i + 1)
    } else if c == '=' {
        if next_is('=') {
            ScanV::Emit(TokenV::EqEq, i + 2)
        } else {
            ScanV::Emit(TokenV::Assign, i + 1)
        }
    } else if c == '!' {
        if next_is('=') {
            ScanV::Emit(TokenV::NotEq, i + 2)
        } else {
            ScanV::Emit(TokenV::Bang, i + 1)
        }
    } else if c == '<' {
        if next_is('<') {
            ScanV::Emit(TokenV::Shl, i + 2)
        } else if next_is('=') {
            ScanV::Emit(TokenV::LtEq, i + 2)
        } else {
            ScanV::Emit(TokenV::Lt, i + 1)
        }
    } else if c == '>' {
        if next_is('>') {
            ScanV::Emit(TokenV::Shr, i + 2)
        } else if next_is('=') {
            ScanV::Emit(TokenV::GtEq, i + 2)
        } else {
            ScanV::Emit(TokenV::Gt, i + 1)
        }
    } else if c == '&' {
        if next_is('&') {
            ScanV::Emit(TokenV::AndAnd, i + 2)
        } else {
            ScanV::Emit(TokenV::Amp, i + 1)
        }
    } else if c == '|' {
        if next_is('|') {
            ScanV::Emit(TokenV::OrOr, i + 2)
        } else {
            ScanV::Emit(TokenV::Pipe, i + 1)
        }
    } else if c == '^' {
        ScanV::Emit(TokenV::Caret, i + 1)
    } else if c == ';' {
        ScanV::Emit(TokenV::Semicolon, i + 1)
    } else if c == '?' {
        ScanV::Emit(TokenV::Question, i + 1)
    } else if c == ':' {
        ScanV::Emit(TokenV::Colon, i + 1)
    } else if c == ',' {
        ScanV::Emit(TokenV::Comma, i + 1)
    } else if c == '.' {
        if next_is('.') {
            ScanV::Emit(TokenV::Range, i + 2)
        } else {
            ScanV::Emit(TokenV::Dot, i + 1)
        }
    } else {
        ScanV::Fail(LexError::UnexpectedChar(c))
    }
}

/// One lexer step at index `i` (with `0 <= i < s.len()`).
pub open spec fn spec_scan(s: Seq<char>, i: int) -> ScanV {
    let c = s[i];
    let next_is = |d: char| i + 1 < s.len() && s[i + 1] == d;
    if c == ' ' || c == '\t' || c == '\r' || c == '\n' {
        ScanV::Skip(i + 1)
    } else if c == '/' && next_is('/') {
        ScanV::Skip(span_end(s, i, CharClass::Line))
    } else if is_dec_digit(c) {
        ScanV::Emit(spec_number(s, i).0, spec_number(s, i).1)
    } else if c == 'b' && next_is('"') {
        match bytes_body(s, i + 2) {
            Some((b, j)) => ScanV::Emit(TokenV::Bytes(b), j + 1),
            None => ScanV::Fail(LexError::TruncatedHexEscape),
        }
    } else if c == 'f' && next_is('"') {
        let r = fstr_parts(s, i + 2, Seq::empty());
        ScanV::Emit(TokenV::FStr(r.0), r.1)
    } else if c == '"' {
        match str_body(s, i + 1) {
            Some((t, j)) => ScanV::Emit(TokenV::Str(t), j + 1),
            None => ScanV::Fail(LexError::TruncatedHexEscape),
        }
    } else if spec_is_alphabetic(c) || c == '_' {
        let j = span_end(s, i, CharClass::Word);
        ScanV::Emit(keyword_or_ident(s.subrange(i, j)), j)
    } else {
        spec_punct(s, i)
    }
}

/// Every step moves forward, at most two past the end.
pub proof fn lemma_scan_progress(s: Seq<char>, i: int)
    requires
        0 <= i < s.len(),
    ensures
        spec_scan(s, i) matches ScanV::Skip(j) ==> i < j <= s.len() + 2,
        spec_scan(s, i) matches ScanV::Emit(_, j) ==> i < j <= s.len() + 2,
{
    let c = s[i];
    lemma_span_end(s, i, CharClass::Line);
    lemma_span_end(s, i, CharClass::Word);
    lemma_str_body(s, i + 1);
    if i + 2 <= s.len() {
        lemma_str_body(s, i + 2);
        lemma_fstr_parts(s, i + 2, Seq::empty());
    }
    if is_dec_digit(c) {
        lemma_span_end(s, i, CharClass::DecRun);
        let j = span_end(s, i, CharClass::DecRun);
        if j + 1 <= s.len() {
            lemma_span_end(s, j + 1, CharClass::DecRun);
        }
        if i + 2 <= s.len() {
            lemma_span_end(s, i + 2, CharClass::HexRun);
            lemma_span_end(s, i + 2, CharClass::OctRun);
            lemma_span_end(s, i + 2, CharClass::BinRun);
        }
    }
}

/// The tokens lexed from index `i` on, ending with `Eof`.
pub open spec fn spec_lex_from(s: Seq<char>, i: int) -> Result<Seq<TokenV>, LexError>
    decreases s.len() + 3 - i,
{
    if i < 0 || i >= s.len() {
        Ok(seq![TokenV::Eof])
    } else {
        proof {
            lemma_scan_progress(s, i);
        }
        match spec_scan(s, i) {
            ScanV::Skip(j) => spec_lex_from(s, j),
            ScanV::Emit(t, j) => match spec_lex_from(s, j) {
                Ok(ts) => Ok(seq![t] + ts),
                Err(e) => Err(e),
            },
            ScanV::Fail(e) => Err(e),
        }
    }
}

/// The tokens of a whole source text.
pub open spec fn spec_lex(s: Seq<char>) -> Result<Seq<TokenV>, LexError> {
    spec_lex_from(s, 0)
}

fn lex_word(chars: &Vec<char>, i: usize) -> (r: (Token, usize))
    requires
        i < chars.len(),
    ensures
        r.0@ == keyword_or_ident(chars@.subrange(i as int, r.1 as int)),
        r.1 == span_end(chars@, i as int, CharClass::Word),
{
    proof {
        lemma_span_end(chars@, i as int, CharClass::Word);
    }
    let j = scan_span(chars, i, CharClass::Word);
    let mut w: Vec<char> = Vec::new();
    let mut k = i;
    while k < j
        invariant
            i <= k <= j <= chars.len(),
            w@ == chars@.subrange(i as int, k as int),
        decreases j - k,
    {
        w.push(chars[k]);
        k = k + 1;
        assert(w@ =~= chars@.subrange(i as int, k as int));
    }
    (keyword_or_ident_exec(&w), j)
}

/// Whether an exec scan result agrees with the spec step.
pub open spec fn scan_agrees(r: Result<(Option<Token>, usize), LexError>, v: ScanV) -> bool {
    match v {
        ScanV::Skip(j) => r matches Ok((None, k)) && k == j,
        ScanV::Emit(t, j) => r matches Ok((Some(tok), k)) && tok@ == t && k == j,
        ScanV::Fail(e) => r == Err::<(Option<Token>, usize), LexError>(e),
    }
}

fn lex_punct(chars: &Vec<char>, i: usize) -> (r: Result<(Option<Token>, usize), LexError>)
    requires
        i < chars.len(),
    ensures
        scan_agrees(r, spec_punct(chars@, i as int)),
{
    let c = chars[i];
    let next_eq = |d: char| -> (b: bool)
        ensures
            b == (i + 1 < chars@.len() && chars@[i + 1] == d),
        { i + 1 < chars.len() && chars[i + 1] == d };
    let (t, n) = if c == '(' {
        (Token::LParen, 1)
    } else if c == ')' {
        (Token::RParen, 1)
    } else if c == '{' {
        (Token::LBrace, 1)
    } else if c == '}' {
        (Token::RBrace, 1)
    } else if c == '[' {
        (Token::LBracket, 1)
    } else if c == ']' {
        (Token::RBracket, 1)
    } else if c == '+' {
        (Token::Plus, 1)
    } else if c == '-' {
        (Token::Minus, 1)
    } else if c == '*' {
        (Token::Star, 1)
    } else if c == '/' {
        (Token::Slash, 1)
    } else if c == '%' {
        (Token::Percent, 1)
    } else if c == '=' {
        if next_eq('=') {
            (Token::EqEq, 2)
        } else {
            (Token::Assign, 1)
        }
    } else if c == '!' {
        if next_eq('=') {
            (Token::NotEq, 2)
        } else {
            (Token::Bang, 1)
        }
    } else if c == '<' {
        if next_eq('<') {
            (Token::Shl, 2)
        } else if next_eq('=') {
            (Token::LtEq, 2)
        } else {
            (Token::Lt, 1)
        }
    } else if c == '>' {
        if next_eq('>') {
            (Token::Shr, 2)
        } else if next_eq('=') {
            (Token::GtEq, 2)
        } else {
            (Token::Gt, 1)
        }
    } else if c == '&' {
        if next_eq('&') {
            (Token::AndAnd, 2)
        } else {
            (Token::Amp, 1)
        }
    } else if c == '|' {
        if next_eq('|') {
            (Token::OrOr, 2)
        } else {
            (Token::Pipe, 1)
        }
    } else if c == '^' {
        (Token::Caret, 1)
    } else if c == ';' {
        (Token::Semicolon, 1)
    } else if c == '?' {
        (Token::Question, 1)
    } else if c == ':' {
        (Token::Colon, 1)
    } else if c == ',' {
        (Token::Comma, 1)
    } else if c == '.' {
        if next_eq('.') {
            (Token::Range, 2)
        } else {
            (Token::Dot, 1)
        }
    } else {
        return Err(LexError::UnexpectedChar(c));
    };
    Ok((Some(t), i + n))
}

fn scan_token(chars: &Vec<char>, i: usize) -> (r: Result<(Option<Token>, usize), LexError>)
    requires
        i < chars.len(),
        chars.len() + 3 <= usize::MAX,
    ensures
        scan_agrees(r, spec_scan(chars@, i as int)),
{
    let ghost s = chars@;
    let c = chars[i];
    let has_next = i + 1 < chars.len();
    if c == ' ' || c == '\t' || c == '\r' || c == '\n' {
        Ok((None, i + 1))
    } else if c == '/' && has_next && chars[i + 1] == '/' {
        Ok((None, scan_span(chars, i, CharClass::Line)))
    } else if dec_digit(c) {
        let (t, j) = lex_number(chars, i);
        Ok((Some(t), j))
    } else if c == 'b' && has_next && chars[i + 1] == '"' {
        proof {
            lemma_str_body(s, i + 2);
        }
        match lex_bytes_body(chars, i + 2) {
            Some((b, j)) => Ok((Some(Token::Bytes(b)), j + 1)),
            None => Err(LexError::TruncatedHexEscape),
        }
    } else if c == 'f' && has_next && chars[i + 1] == '"' {
        let mut j = i + 2;
        let parts = lex_fstring(chars.as_slice(), &mut j);
        Ok((Some(Token::FStr(parts)), j))
    } else if c == '"' {
        proof {
            lemma_str_body(s, i + 1);
        }
        match lex_str_body(chars, i + 1) {
            Some((t, j)) => Ok((Some(Token::Str(chars_to_string(t.as_slice()))), j + 1)),
            None => Err(LexError::TruncatedHexEscape),
        }
    } else if is_alphabetic(c) || c == '_' {
        let (t, j) = lex_word(chars, i);
        Ok((Some(t), j))
    } else {
        lex_punct(chars, i)
    }
}

/// Lexes a sequence of characters into tokens ending with `Eof`.
pub fn lex_chars(chars: &Vec<char>) -> (r: Result<Vec<Token>, LexError>)
    requires
        chars.len() + 3 <= usize::MAX,
    ensures
        match (r, spec_lex(chars@)) {
            (Ok(ts), Ok(tv)) => tokens_view(ts@) == tv,
            (Err(e), Err(f)) => e == f,
            _ => false,
        },
{
    let ghost s = chars@;
    let mut out: Vec<Token> = Vec::new();
    let mut i: usize = 0;
    while i < chars.len()
        invariant
            s == chars@,
            s.len() + 3 <= usize::MAX,
            i <= s.len() + 2,
            spec_lex_from(s, 0) == (match spec_lex_from(s, i as int) {
                Ok(ts) => Ok(tokens_view(out@) + ts),
                Err(e) => Err(e),
            }),
        decreases s.len() + 3 - i,
    {
        proof {
            lemma_scan_progress(s, i as int);
        }
        let ghost before = tokens_view(out@);
        match scan_token(chars, i) {
            Ok((None, j)) => {
                i = j;
            },
            Ok((Some(t), j)) => {
                out.push(t);
                i = j;
                proof {
                    match spec_lex_from(s, i as int) {
                        Ok(ts) => {
                            assert(tokens_view(out@) =~= before.push(out@.last()@));
                            assert(before + (seq![out@.last()@] + ts) =~= tokens_view(out@) + ts);
                        },
                        Err(_) => {},
                    }
                }
            },
            Err(e) => {
                return Err(e);
            },
        }
    }
    let ghost before = tokens_view(out@);
    out.push(Token::Eof);
    proof {
        assert(tokens_view(out@) =~= before + seq![TokenV::Eof]);
    }
    Ok(out)
}

/// Lexes Julix source text into tokens ending with `Eof`.
pub fn lex(src: &str) -> (r: Result<Vec<Token>, LexError>)
    requires
        src@.len() + 3 <= usize::MAX,
    ensures
        match (r, spec_lex(src@)) {
            (Ok(ts), Ok(tv)) => tokens_view(ts@) == tv,
            (Err(e), Err(f)) => e == f,
            _ => false,
        },
{
    let chars = string_to_chars(src);
    lex_chars(&chars)
}

/// Lexing output always ends with `Eof`.
pub proof fn lemma_lex_ends_with_eof(s: Seq<char>, i: int)
    ensures
        spec_lex_from(s, i) matches Ok(ts) ==> ts.len() > 0 && ts.last() == TokenV::Eof,
    decreases s.len() + 3 - i,
{
    if 0 <= i < s.len() {
        lemma_scan_progress(s, i);
        match spec_scan(s, i) {
            ScanV::Skip(j) => {
                lemma_lex_ends_with_eof(s, j);
            },
            ScanV::Emit(t, j) => {
                lemma_lex_ends_with_eof(s, j);
            },
            ScanV::Fail(_) => {},
        }
    }
}

proof fn lemma_scan_emits_no_marker(s: Seq<char>, i: int)
    requires
        0 <= i < s.len(),
    ensures
        spec_scan(s, i) matches ScanV::Emit(t, _) ==> t != TokenV::Eof && t != TokenV::Newline,
{
}

/// Lexing output ends with `Eof`, and no token before it is `Eof` or `Newline` (newlines
/// only separate tokens).
pub proof fn law_lex_token_stream(s: Seq<char>, i: int)
    ensures
        spec_lex_from(s, i) matches Ok(ts) ==> {
            &&& ts.len() > 0
            &&& ts.last() == TokenV::Eof
            &&& forall|k: int| 0 <= k < ts.len() - 1 ==> #[trigger] ts[k] != TokenV::Eof && ts[k] != TokenV::Newline
        },
    decreases s.len() + 3 - i,
{
    if 0 <= i < s.len() {
        lemma_scan_progress(s, i);
        lemma_scan_emits_no_marker(s, i);
        match spec_scan(s, i) {
            ScanV::Skip(j) => {
                law_lex_token_stream(s, j);
            },
            ScanV::Emit(t, j) => {
                law_lex_token_stream(s, j);
                if let Ok(rest) = spec_lex_from(s, j) {
                    let ts = seq![t] + rest;
                    assert forall|k: int| 0 <= k < ts.len() - 1 implies #[trigger] ts[k] != TokenV::Eof
                        && ts[k] != TokenV::Newline by {
                        if k > 0 {
                            assert(ts[k] == rest[k - 1]);
                        }
                    }
                }
            },
            ScanV::Fail(_) => {},
        }
    }
}

// ---------------------------------------------------------------------------
// Copying and comparing tokens

/// A copy of a list of f-string parts.
pub fn copy_parts(ps: &Vec<FStrPart>) -> (r: Vec<FStrPart>)
    ensures
        parts_view(r@) == parts_view(ps@),
{
    let mut r: Vec<FStrPart> = Vec::new();
    let mut k: usize = 0;
    while k < ps.len()
        invariant
            k <= ps.len(),
            r@.len() == k,
            forall|i: int| 0 <= i < k ==> r@[i]@ == ps@[i]@,
        decreases ps.len() - k,
    {
        let p = match &ps[k] {
            FStrPart::Literal(s) => FStrPart::Literal(copy_string(s)),
            FStrPart::Expr(s) => FStrPart::Expr(copy_string(s)),
        };
        r.push(p);
        k = k + 1;
    }
    assert(parts_view(r@) =~= parts_view(ps@));
    r
}

/// Whether two lists of f-string parts are the same.
pub fn parts_eq(a: &Vec<FStrPart>, b: &Vec<FStrPart>) -> (r: bool)
    ensures
        r == (parts_view(a@) == parts_view(b@)),
{
    if a.len() != b.len() {
        assert(parts_view(a@).len() != parts_view(b@).len());
        return false;
    }
    let mut k: usize = 0;
    while k < a.len()
        invariant
            k <= a.len() == b.len(),
            forall|i: int| 0 <= i < k ==> a@[i]@ == b@[i]@,
        decreases a.len() - k,
    {
        let same = match (&a[k], &b[k]) {
            (FStrPart::Literal(x), FStrPart::Literal(y)) => string_eq(x, y),
            (FStrPart::Expr(x), FStrPart::Expr(y)) => string_eq(x, y),
            _ => false,
        };
        if !same {
            assert(parts_view(a@)[k as int] != parts_view(b@)[k as int]);
            return false;
        }
        k = k + 1;
    }
    assert(parts_view(a@) =~= parts_view(b@));
    true
}

/// A copy of a token.
pub fn copy_token(t: &Token) -> (r: Token)
    ensures
        r@ == t@,
{
    match t {
        Token::Int(n) => Token::Int(*n),
        Token::Float(s) => Token::Float(copy_string(s)),
        Token::Str(s) => Token::Str(copy_string(s)),
        Token::Bytes(b) => Token::Bytes(copy_bytes(b)),
        Token::FStr(p) => Token::FStr(copy_parts(p)),
        Token::Ident(s) => Token::Ident(copy_string(s)),
        Token::Print => Token::Print,
        Token::PrintLn => Token::PrintLn,
        Token::Let => Token::Let,
        Token::Const => Token::Const,
        Token::If => Token::If,
        Token::Elif => Token::Elif,
        Token::Else => Token::Else,
        Token::True => Token::True,
        Token::False => Token::False,
        Token::Null => Token::Null,
        Token::While => Token::While,
        Token::For => Token::For,
        Token::In => Token::In,
        Token::Break => Token::Break,
        Token::Continue => Token::Continue,
        Token::Dot => Token::Dot,
        Token::Range => Token::Range,
        Token::Function => Token::Function,
        Token::Return => Token::Return,
        Token::Type => Token::Type,
        Token::Colon => Token::Colon,
        Token::Comma => Token::Comma,
        Token::Try => Token::Try,
        Token::Catch => Token::Catch,
        Token::Throw => Token::Throw,
        Token::Question => Token::Question,
        Token::LParen => Token::LParen,
        Token::RParen => Token::RParen,
        Token::LBrace => Token::LBrace,
        Token::RBrace => Token::RBrace,
        Token::LBracket => Token::LBracket,
        Token::RBracket => Token::RBracket,
        Token::Plus => Token::Plus,
        Token::Minus => Token::Minus,
        Token::Star => Token::Star,
        Token::Slash => Token::Slash,
        Token::Percent => Token::Percent,
        Token::Assign => Token::Assign,
        Token::EqEq => Token::EqEq,
        Token::NotEq => Token::NotEq,
        Token::Lt => Token::Lt,
        Token::Gt => Token::Gt,
        Token::LtEq => Token::LtEq,
        Token::GtEq => Token::GtEq,
        Token::AndAnd => Token::AndAnd,
        Token::OrOr => Token::OrOr,
        Token::Amp => Token::Amp,
        Token::Pipe => Token::Pipe,
        Token::Caret => Token::Caret,
        Token::Shl => Token::Shl,
        Token::Shr => Token::Shr,
        Token::Bang => Token::Bang,
        Token::And => Token::And,
        Token::Or => Token::Or,
        Token::Not => Token::Not,
        Token::Semicolon => Token::Semicolon,
        Token::Newline => Token::Newline,
        Token::Eof => Token::Eof,
    }
}

/// Whether two tokens are the same.
pub fn token_eq(a: &Token, b: &Token) -> (r: bool)
    ensures
        r == (a@ == b@),
{
    match (a, b) {
        (Token::Int(x), Token::Int(y)) => *x == *y,
        (Token::Float(x), Token::Float(y)) => string_eq(x, y),
        (Token::Str(x), Token::Str(y)) => string_eq(x, y),
        (Token::Bytes(x), Token::Bytes(y)) => bytes_eq(x, y),
        (Token::FStr(x), Token::FStr(y)) => parts_eq(x, y),
        (Token::Ident(x), Token::Ident(y)) => string_eq(x, y),
        (Token::Print, Token::Print) => true,
        (Token::PrintLn, Token::PrintLn) => true,
        (Token::Let, Token::Let) => true,
        (Token::Const, Token::Const) => true,
        (Token::If, Token::If) => true,
        (Token::Elif, Token::Elif) => true,
        (Token::Else, Token::Else) => true,
        (Token::True, Token::True) => true,
        (Token::False, Token::False) => true,
        (Token::Null, Token::Null) => true,
        (Token::While, Token::While) => true,
        (Token::For, Token::For) => true,
        (Token::In, Token::In) => true,
        (Token::Break, Token::Break) => true,
        (Token::Continue, Token::Continue) => true,
        (Token::Dot, Token::Dot) => true,
        (Token::Range, Token::Range) => true,
        (Token::Function, Token::Function) => true,
        (Token::Return, Token::Return) => true,
        (Token::Type, Token::Type) => true,
        (Token::Colon, Token::Colon) => true,
        (Token::Comma, Token::Comma) => true,
        (Token::Try, Token::Try) => true,
        (Token::Catch, Token::Catch) => true,
        (Token::Throw, Token::Throw) => true,
        (Token::Question, Token::Question) => true,
        (Token::LParen, Token::LParen) => true,
        (Token::RParen, Token::RParen) => true,
        (Token::LBrace, Token::LBrace) => true,
        (Token::RBrace, Token::RBrace) => true,
        (Token::LBracket, Token::LBracket) => true,
        (Token::RBracket, Token::RBracket) => true,
        (Token::Plus, Token::Plus) => true,
        (Token::Minus, Token::Minus) => true,
        (Token::Star, Token::Star) => true,
        (Token::Slash, Token::Slash) => true,
        (Token::Percent, Token::Percent) => true,
        (Token::Assign, Token::Assign) => true,
        (Token::EqEq, Token::EqEq) => true,
        (Token::NotEq, Token::NotEq) => true,
        (Token::Lt, Token::Lt) => true,
        (Token::Gt, Token::Gt) => true,
        (Token::LtEq, Token::LtEq) => true,
        (Token::GtEq, Token::GtEq) => true,
        (Token::AndAnd, Token::AndAnd) => true,
        (Token::OrOr, Token::OrOr) => true,
        (Token::Amp, Token::Amp) => true,
        (Token::Pipe, Token::Pipe) => true,
        (Token::Caret, Token::Caret) => true,
        (Token::Shl, Token::Shl) => true,
        (Token::Shr, Token::Shr) => true,
        (Token::Bang, Token::Bang) => true,
        (Token::And, Token::And) => true,
        (Token::Or, Token::Or) => true,
        (Token::Not, Token::Not) => true,
        (Token::Semicolon, Token::Semicolon) => true,
        (Token::Newline, Token::Newline) => true,
        (Token::Eof, Token::Eof) => true,
        _ => false,
    }
}

proof fn lemma_nat_text_digits(n: nat)
    ensures
        nat_text(n).len() > 0,
        forall|k: int| 0 <= k < nat_text(n).len() ==> is_dec_digit(#[trigger] nat_text(n)[k]),
        nat_text(n)[0] == '0' ==> n == 0,
        radix_value(nat_text(n), 10) == n,
    decreases n,
{
    if n >= 10 {
        lemma_nat_text_digits(n / 10);
        let t = nat_text(n / 10);
        assert(nat_text(n) == t.push(digit_char(n % 10)));
        assert(nat_text(n).drop_last() =~= t);
        assert(digit_value(digit_char(n % 10)) == n % 10);
        assert((n / 10) * 10 + n % 10 == n) by (nonlinear_arith);
        assert(nat_text(n).last() == digit_char(n % 10));
        assert(radix_value(nat_text(n), 10) == radix_value(t, 10) * 10 + digit_value(digit_char(n % 10)));
        assert(nat_text(n)[0] == t[0]);
        if n / 10 == 0 {
            assert(false);
        }
    } else {
        assert(nat_text(n) =~= seq![digit_char(n)]);
        assert(seq![digit_char(n)].drop_last() =~= Seq::<char>::empty());
        assert(digit_value(digit_char(n)) == n);
        assert(radix_value(Seq::<char>::empty(), 10) == 0);
        assert(radix_value(nat_text(n), 10) == radix_value(Seq::<char>::empty(), 10) * 10 + digit_value(digit_char(n)));
    }
}

proof fn lemma_strip_nothing(s: Seq<char>)
    requires
        forall|k: int| 0 <= k < s.len() ==> #[trigger] s[k] != '_',
    ensures
        strip_underscores(s) == s,
    decreases s.len(),
{
    if s.len() > 0 {
        lemma_strip_nothing(s.drop_last());
        assert(s.drop_last().push(s.last()) =~= s);
    }
}

/// Lexing the decimal text of a nonnegative int gives that int back, and nothing else.
pub proof fn law_decimal_text_lexes_back(n: i64)
    requires
        n >= 0,
    ensures
        spec_lex(nat_text(n as nat)) == Ok::<Seq<TokenV>, LexError>(seq![TokenV::Int(n), TokenV::Eof]),
{
    let s = nat_text(n as nat);
    lemma_nat_text_digits(n as nat);
    lemma_span_end(s, 0, CharClass::DecRun);
    let j = span_end(s, 0, CharClass::DecRun);
    if j < s.len() {
        assert(in_class(CharClass::DecRun, s[j]));
    }
    assert(j == s.len());
    assert(s.subrange(0, j) =~= s);
    lemma_strip_nothing(s);
    if s.len() > 1 {
        assert(is_dec_digit(s[1]));
    }
    assert(spec_number(s, 0) == (TokenV::Int(n), s.len() as int));
    assert(spec_scan(s, 0) == ScanV::Emit(TokenV::Int(n), s.len() as int));
    lemma_scan_progress(s, 0);
    assert(spec_lex_from(s, s.len() as int) == Ok::<Seq<TokenV>, LexError>(seq![TokenV::Eof]));
    assert(seq![TokenV::Int(n)] + seq![TokenV::Eof] =~= seq![TokenV::Int(n), TokenV::Eof]);
}

} // verus!
