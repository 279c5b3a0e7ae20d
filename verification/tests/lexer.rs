use julix::lixer::token::{lex, lex_fstring, FStrPart, LexError, Token};

fn ident(s: &str) -> Token {
    Token::Ident(s.to_string())
}

#[test]
fn lex_simple_statement() {
    let toks = lex("let x = 42;").unwrap();
    assert_eq!(
        toks,
        vec![Token::Let, ident("x"), Token::Assign, Token::Int(42), Token::Semicolon, Token::Eof]
    );
}

#[test]
fn lex_integer_radixes_and_underscores() {
    let toks = lex("0xFF 0o17 0b1010 1_000_000").unwrap();
    assert_eq!(
        toks,
        vec![Token::Int(255), Token::Int(15), Token::Int(10), Token::Int(1_000_000), Token::Eof]
    );
}

#[test]
fn lex_integer_out_of_range_is_zero() {
    let toks = lex("99999999999999999999").unwrap();
    assert_eq!(toks, vec![Token::Int(0), Token::Eof]);
}

#[test]
fn lex_float_keeps_its_text() {
    let toks = lex("3.14 1_0.5").unwrap();
    assert_eq!(toks, vec![Token::Float("3.14".to_string()), Token::Float("10.5".to_string()), Token::Eof]);
}

#[test]
fn lex_range_is_not_a_float() {
    let toks = lex("0..10").unwrap();
    assert_eq!(toks, vec![Token::Int(0), Token::Range, Token::Int(10), Token::Eof]);
}

#[test]
fn lex_string_escapes() {
    let toks = lex("\"a\\nb\\x41\\q\"").unwrap();
    assert_eq!(toks, vec![Token::Str("a\nbAq".to_string()), Token::Eof]);
}

#[test]
fn lex_byte_string() {
    let toks = lex("b\"GET\\x00é\"").unwrap();
    assert_eq!(toks, vec![Token::Bytes(vec![71, 69, 84, 0, 0xC3, 0xA9]), Token::Eof]);
}

#[test]
fn lex_fstring_parts() {
    let toks = lex("f\"{x} = {y}\"").unwrap();
    assert_eq!(
        toks,
        vec![
            Token::FStr(vec![
                FStrPart::Expr("x".to_string()),
                FStrPart::Literal(" = ".to_string()),
                FStrPart::Expr("y".to_string()),
            ]),
            Token::Eof
        ]
    );
}

#[test]
fn lex_fstring_direct() {
    let chars: Vec<char> = "a{b}c\" rest".chars().collect();
    let mut i = 0usize;
    let parts = lex_fstring(&chars, &mut i);
    assert_eq!(
        parts,
        vec![
            FStrPart::Literal("a".to_string()),
            FStrPart::Expr("b".to_string()),
            FStrPart::Literal("c".to_string()),
        ]
    );
    assert_eq!(i, 6);
}

#[test]
fn lex_keywords_and_operators() {
    let toks = lex("null and or not && || ! != <= >= == .").unwrap();
    assert_eq!(
        toks,
        vec![
            Token::Null,
            Token::And,
            Token::Or,
            Token::Not,
            Token::AndAnd,
            Token::OrOr,
            Token::Bang,
            Token::NotEq,
            Token::LtEq,
            Token::GtEq,
            Token::EqEq,
            Token::Dot,
            Token::Eof
        ]
    );
}

#[test]
fn lex_unicode_identifier() {
    let toks = lex("héllo_1 = 2").unwrap();
    assert_eq!(toks, vec![ident("héllo_1"), Token::Assign, Token::Int(2), Token::Eof]);
}

#[test]
fn lex_unexpected_char() {
    assert_eq!(lex("#"), Err(LexError::UnexpectedChar('#')));
    assert_eq!(lex("a @ b"), Err(LexError::UnexpectedChar('@')));
}

#[test]
fn lex_bitwise_operators() {
    let toks = lex("a & b | c ^ d << e >> f").unwrap();
    assert_eq!(
        toks,
        vec![
            ident("a"),
            Token::Amp,
            ident("b"),
            Token::Pipe,
            ident("c"),
            Token::Caret,
            ident("d"),
            Token::Shl,
            ident("e"),
            Token::Shr,
            ident("f"),
            Token::Eof
        ]
    );
    let toks = lex("a<=b<c>=d>e&&f||g").unwrap();
    assert_eq!(
        toks,
        vec![
            ident("a"),
            Token::LtEq,
            ident("b"),
            Token::Lt,
            ident("c"),
            Token::GtEq,
            ident("d"),
            Token::Gt,
            ident("e"),
            Token::AndAnd,
            ident("f"),
            Token::OrOr,
            ident("g"),
            Token::Eof
        ]
    );
}

#[test]
fn lex_truncated_hex_escape() {
    assert_eq!(lex("\"\\x4"), Err(LexError::TruncatedHexEscape));
}

#[test]
fn lex_always_ends_with_eof() {
    assert_eq!(lex("").unwrap(), vec![Token::Eof]);
    assert_eq!(lex("// only a comment").unwrap(), vec![Token::Eof]);
    let toks = lex("print(1)").unwrap();
    assert_eq!(toks.last(), Some(&Token::Eof));
}

#[test]
fn fstring_lexes_back_what_was_rendered() {
    let chars: Vec<char> = "{{x}} = {a + b} and }}{{\" rest".chars().collect();
    let mut i = 0usize;
    let parts = lex_fstring(&chars, &mut i);
    assert_eq!(
        parts,
        vec![
            FStrPart::Literal("{x} = ".to_string()),
            FStrPart::Expr("a + b".to_string()),
            FStrPart::Literal(" and }{".to_string()),
        ]
    );
    assert_eq!(i, 25);
}
