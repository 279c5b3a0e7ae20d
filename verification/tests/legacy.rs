use julix::ast::expression::Expression;
use julix::ast::statement::Statement;
use julix::lexer::token::{lex, LexError, Token};
use julix::lixvm::interpreter::{run, ArithOp, RunError, Value};
use julix::parser::expression::{Expected, ParseError, Parser};

fn s(x: &str) -> String {
    x.to_string()
}

fn lit(n: i64) -> Box<Expression> {
    Box::new(Expression::Int(n))
}

#[test]
fn first_dialect_lexes_print_of_sum() {
    let ts = lex("println 1 + \"a\"\n").unwrap();
    assert_eq!(
        ts,
        vec![Token::PrintLn, Token::Int(1), Token::Plus, Token::Str(s("a")), Token::Newline, Token::Eof]
    );
}

#[test]
fn first_dialect_lexes_radix_literals() {
    let ts = lex("0x1F 0o17 0b101 1_000 0x 0X_f").unwrap();
    assert_eq!(
        ts,
        vec![
            Token::Int(31),
            Token::Int(15),
            Token::Int(5),
            Token::Int(1000),
            Token::Int(0),
            Token::Int(15),
            Token::Eof
        ]
    );
}

#[test]
fn first_dialect_overflowing_literal_is_zero() {
    assert_eq!(lex("99999999999999999999").unwrap(), vec![Token::Int(0), Token::Eof]);
    assert_eq!(lex("9223372036854775807").unwrap(), vec![Token::Int(i64::MAX), Token::Eof]);
}

#[test]
fn first_dialect_keywords_comments_and_punctuation() {
    let ts = lex("let x = 5 // note\nconst y_1;\t( ) - * / %\r").unwrap();
    assert_eq!(
        ts,
        vec![
            Token::Let,
            Token::Ident(s("x")),
            Token::Assign,
            Token::Int(5),
            Token::Newline,
            Token::Const,
            Token::Ident(s("y_1")),
            Token::Semicolon,
            Token::LParen,
            Token::RParen,
            Token::Minus,
            Token::Star,
            Token::Slash,
            Token::Percent,
            Token::Eof
        ]
    );
}

#[test]
fn first_dialect_string_escapes() {
    let ts = lex("\"a\\n\\t\\q\\\"\\\\\" \"open").unwrap();
    assert_eq!(ts, vec![Token::Str(s("a\n\tq\"\\")), Token::Str(s("open")), Token::Eof]);
}

#[test]
fn first_dialect_rejects_unknown_character() {
    assert_eq!(lex("print 1 $"), Err(LexError::UnexpectedChar('$')));
    assert_eq!(lex("{"), Err(LexError::UnexpectedChar('{')));
}

#[test]
fn first_dialect_empty_source_is_eof() {
    assert_eq!(lex("").unwrap(), vec![Token::Eof]);
}

#[test]
fn first_dialect_parses_left_nested_sum() {
    let ts = lex("1 + \"a\" + 2").unwrap();
    let mut p = Parser::new(&ts);
    let e = p.parse_expression().unwrap();
    assert_eq!(
        e,
        Expression::Add(Box::new(Expression::Add(lit(1), Box::new(Expression::Str(s("a"))))), lit(2))
    );
    assert!(p.is_eof());
}

#[test]
fn first_dialect_parse_needs_literal() {
    let ts = lex("1 + print").unwrap();
    let mut p = Parser::new(&ts);
    assert_eq!(
        p.parse_expression(),
        Err(ParseError { expected: Expected::Literal, got: Token::Print })
    );
    let ts = lex("").unwrap();
    let mut p = Parser::new(&ts);
    assert_eq!(p.parse_expression(), Err(ParseError { expected: Expected::Literal, got: Token::Eof }));
}

#[test]
fn first_dialect_parser_cursor() {
    let ts = lex("\n\nprint (").unwrap();
    let mut p = Parser::new(&ts);
    assert_eq!(p.peek(), &Token::Newline);
    p.skip_newlines();
    assert_eq!(p.peek(), &Token::Print);
    assert_eq!(p.expect(Token::Print), Ok(()));
    assert_eq!(
        p.expect(Token::RParen),
        Err(ParseError { expected: Expected::Token(Token::RParen), got: Token::LParen })
    );
    assert!(p.is_eof());
    assert_eq!(p.advance(), Token::Eof);
}

#[test]
fn first_dialect_runs_bindings_and_prints() {
    let prog = vec![
        Statement::Let { name: s("x"), expr: Expression::Add(lit(2), lit(3)) },
        Statement::PrintLn(Expression::Ident(s("x"))),
        Statement::Print(Expression::Str(s("a"))),
        Statement::Const { name: s("y"), expr: Expression::Div(lit(-7), lit(2)) },
        Statement::Print(Expression::Ident(s("y"))),
        Statement::PrintLn(Expression::Mod(lit(-7), lit(2))),
        Statement::Let { name: s("x"), expr: Expression::Mul(Box::new(Expression::Ident(s("x"))), lit(4)) },
        Statement::PrintLn(Expression::Sub(Box::new(Expression::Ident(s("x"))), lit(1))),
        Statement::PrintLn(Expression::Add(
            Box::new(Expression::Str(s("ab"))),
            Box::new(Expression::Str(s("cd")))
        )),
    ];
    let r = run(&prog);
    assert_eq!(r.output, "5\na-3-1\n19\nabcd\n");
    assert_eq!(r.error, None);
}

#[test]
fn first_dialect_let_then_print_reads_back() {
    let prog = vec![
        Statement::Let { name: s("v"), expr: Expression::Str(s("hi")) },
        Statement::PrintLn(Expression::Ident(s("v"))),
    ];
    let r = run(&prog);
    assert_eq!(r.output, "hi\n");
    assert_eq!(r.error, None);
}

#[test]
fn first_dialect_run_stops_at_first_error() {
    let prog = vec![
        Statement::Print(Expression::Int(1)),
        Statement::PrintLn(Expression::Ident(s("nope"))),
        Statement::Print(Expression::Int(2)),
    ];
    let r = run(&prog);
    assert_eq!(r.output, "1");
    assert_eq!(r.error, Some(RunError::UndefinedVariable(s("nope"))));
}

#[test]
fn first_dialect_run_errors() {
    let one = |e: Expression| run(&vec![Statement::Print(e)]).error;
    assert_eq!(one(Expression::Div(lit(1), lit(0))), Some(RunError::DivisionByZero));
    assert_eq!(one(Expression::Mod(lit(1), lit(0))), Some(RunError::ModuloByZero));
    assert_eq!(one(Expression::Add(lit(i64::MAX), lit(1))), Some(RunError::IntegerOverflow));
    assert_eq!(one(Expression::Div(lit(i64::MIN), lit(-1))), Some(RunError::IntegerOverflow));
    assert_eq!(one(Expression::Mod(lit(i64::MIN), lit(-1))), Some(RunError::IntegerOverflow));
    assert_eq!(
        one(Expression::Sub(Box::new(Expression::Str(s("a"))), lit(1))),
        Some(RunError::TypeError(ArithOp::Sub, Value::Str(s("a")), Value::Int(1)))
    );
    assert_eq!(
        one(Expression::Add(lit(1), Box::new(Expression::Str(s("a"))))),
        Some(RunError::TypeError(ArithOp::Add, Value::Int(1), Value::Str(s("a"))))
    );
}

#[test]
fn first_dialect_stringify() {
    assert_eq!(Value::Int(-42).stringify(), "-42");
    assert_eq!(Value::Str(s("x y")).stringify(), "x y");
}
