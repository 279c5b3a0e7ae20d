use julix::lixer::ast::{ElifBranch, Expression, FunctionDef, Statement};
use julix::lixer::parser::{Expected, ParseError, Parser};
use julix::lixer::statement::parse;
use julix::lixer::token::{lex, Token};

fn b(e: Expression) -> Box<Expression> {
    Box::new(e)
}

fn id(s: &str) -> Expression {
    Expression::Ident(s.to_string())
}

fn parse_src(src: &str) -> Result<Vec<Statement>, ParseError> {
    let toks = lex(src).unwrap();
    parse(&toks)
}

#[test]
fn parse_let_and_println_with_precedence() {
    let stmts = parse_src("let x = 1 + 2 * 3; println(x);").unwrap();
    assert_eq!(
        stmts,
        vec![
            Statement::Let {
                name: "x".to_string(),
                expr: Expression::Add(b(Expression::Int(1)), b(Expression::Mul(b(Expression::Int(2)), b(Expression::Int(3))))),
            },
            Statement::PrintLn(id("x")),
        ]
    );
}

#[test]
fn parse_if_elif_else() {
    let stmts = parse_src("if (a) { print(1); } elif (b) { print(2); } else { print(3); }").unwrap();
    assert_eq!(
        stmts,
        vec![Statement::If {
            condition: id("a"),
            then_body: vec![Statement::Print(Expression::Int(1))],
            elif_branches: vec![ElifBranch { condition: id("b"), body: vec![Statement::Print(Expression::Int(2))] }],
            else_body: Some(vec![Statement::Print(Expression::Int(3))]),
        }]
    );
}

#[test]
fn parse_for_over_a_range() {
    let stmts = parse_src("for (i in 0..3) { print(i); }").unwrap();
    assert_eq!(
        stmts,
        vec![Statement::For {
            var: "i".to_string(),
            start: Expression::Int(0),
            end: Expression::Int(3),
            body: vec![Statement::Print(id("i"))],
        }]
    );
}

#[test]
fn parse_while_break_continue() {
    let stmts = parse_src("while (true) { break; continue; }").unwrap();
    assert_eq!(
        stmts,
        vec![Statement::While {
            condition: Expression::Bool(true),
            body: vec![Statement::Break, Statement::Continue],
        }]
    );
}

#[test]
fn parse_construct_method_call_and_index() {
    let stmts = parse_src("p = Point(x: 1, y: 2); q = p.move(1)[0];").unwrap();
    assert_eq!(
        stmts,
        vec![
            Statement::Assign {
                name: "p".to_string(),
                expr: Expression::Construct {
                    type_ident: "Point".to_string(),
                    fields: vec![("x".to_string(), Expression::Int(1)), ("y".to_string(), Expression::Int(2))],
                },
            },
            Statement::Assign {
                name: "q".to_string(),
                expr: Expression::Index {
                    object: b(Expression::MethodCall { object: b(id("p")), method: "move".to_string(), args: vec![Expression::Int(1)] }),
                    index: b(Expression::Int(0)),
                },
            },
        ]
    );
}

#[test]
fn parse_list_and_map_literals() {
    let stmts = parse_src("m = {\"a\": [1, 2]};").unwrap();
    assert_eq!(
        stmts,
        vec![Statement::Assign {
            name: "m".to_string(),
            expr: Expression::Mapping(vec![(
                Expression::Str("a".to_string()),
                Expression::List(vec![Expression::Int(1), Expression::Int(2)])
            )]),
        }]
    );
}

#[test]
fn parse_logic_and_comparison() {
    let stmts = parse_src("x = not a and b or c < 2;").unwrap();
    assert_eq!(
        stmts,
        vec![Statement::Assign {
            name: "x".to_string(),
            expr: Expression::Or(
                b(Expression::And(b(Expression::Not(b(id("a")))), b(id("b")))),
                b(Expression::Lt(b(id("c")), b(Expression::Int(2))))
            ),
        }]
    );
}

#[test]
fn parse_error_expected_statement() {
    let err = parse_src("1;").unwrap_err();
    assert_eq!(err, ParseError { expected: Expected::Statement, got: Token::Int(1) });
}

#[test]
fn parse_error_missing_paren() {
    let err = parse_src("print(1;").unwrap_err();
    assert_eq!(err, ParseError { expected: Expected::Token(Token::RParen), got: Token::Semicolon });
}

#[test]
fn parse_error_end_of_statement() {
    let err = parse_src("let x = 1 2").unwrap_err();
    assert_eq!(err, ParseError { expected: Expected::EndOfStatement, got: Token::Int(2) });
}

#[test]
fn parser_cursor_methods() {
    let toks = lex("a + b").unwrap();
    let mut p = Parser::new(&toks);
    assert_eq!(p.peek(), &Token::Ident("a".to_string()));
    assert!(!p.is_eof());
    let e = p.parse_expression().unwrap();
    assert_eq!(e, Expression::Add(b(id("a")), b(id("b"))));
    assert!(p.is_eof());
    p.skip_newlines();
    assert_eq!(p.peek(), &Token::Eof);
}

#[test]
fn parser_expect_and_advance() {
    let toks = lex("( )").unwrap();
    let mut p = Parser::new(&toks);
    assert_eq!(p.expect(Token::LParen), Ok(()));
    assert_eq!(p.expect(Token::LParen), Err(ParseError { expected: Expected::Token(Token::LParen), got: Token::RParen }));
    let toks = lex("x").unwrap();
    let mut p = Parser::new(&toks);
    assert_eq!(p.advance(), Token::Ident("x".to_string()));
}

#[test]
fn parse_function_definition_with_return() {
    let stmts = parse_src("function add(a, b) { return a + b; }").unwrap();
    assert_eq!(
        stmts,
        vec![Statement::FunctionDef {
            name: "add".to_string(),
            params: vec!["a".to_string(), "b".to_string()],
            body: vec![Statement::Return(Some(Expression::Add(b(id("a")), b(id("b")))))],
        }]
    );
}

#[test]
fn parse_function_without_parameters_and_bare_return() {
    let stmts = parse_src("function f() {\n  return;\n}\nf();").unwrap();
    assert_eq!(
        stmts,
        vec![
            Statement::FunctionDef { name: "f".to_string(), params: vec![], body: vec![Statement::Return(None)] },
            Statement::Expr(Expression::Call { callee: b(id("f")), args: vec![] }),
        ]
    );
}

#[test]
fn parse_call_statement() {
    let stmts = parse_src("greet(\"julix\");").unwrap();
    assert_eq!(
        stmts,
        vec![Statement::Expr(Expression::Call {
            callee: b(id("greet")),
            args: vec![Expression::Str("julix".to_string())],
        })]
    );
}

#[test]
fn parse_function_errors() {
    let err = parse_src("function (a) {}").unwrap_err();
    assert_eq!(err, ParseError { expected: Expected::Identifier, got: Token::LParen });
    let err = parse_src("function f(a b) {}").unwrap_err();
    assert_eq!(err, ParseError { expected: Expected::Token(Token::RParen), got: Token::Ident("b".to_string()) });
    let err = parse_src("function f(a,) {}").unwrap_err();
    assert_eq!(err, ParseError { expected: Expected::Identifier, got: Token::RParen });
    let err = parse_src("return 1 2").unwrap_err();
    assert_eq!(err, ParseError { expected: Expected::EndOfStatement, got: Token::Int(2) });
}

#[test]
fn parse_single_statement_bodies_without_braces() {
    let stmts = parse_src("if (n < 2) return n;\nwhile (true) break;").unwrap();
    assert_eq!(
        stmts,
        vec![
            Statement::If {
                condition: Expression::Lt(b(id("n")), b(Expression::Int(2))),
                then_body: vec![Statement::Return(Some(id("n")))],
                elif_branches: vec![],
                else_body: None,
            },
            Statement::While { condition: Expression::Bool(true), body: vec![Statement::Break] },
        ]
    );
}

#[test]
fn parse_type_definition() {
    let stmts = parse_src("type P {\n  v: int;\n  function get(self) { return self.v; }\n}").unwrap();
    assert_eq!(
        stmts,
        vec![Statement::TypeDef {
            name: "P".to_string(),
            fields: vec![("v".to_string(), "int".to_string())],
            methods: vec![FunctionDef {
                name: "get".to_string(),
                params: vec!["self".to_string()],
                body: vec![Statement::Return(Some(Expression::FieldAccess { object: b(id("self")), field: "v".to_string() }))],
            }],
        }]
    );
    let err = parse_src("type P { 1 }").unwrap_err();
    assert_eq!(err, ParseError { expected: Expected::FieldName, got: Token::Int(1) });
}

#[test]
fn parse_bitwise_precedence() {
    let stmts = parse_src("x = a | b ^ c & d << e;").unwrap();
    assert_eq!(
        stmts,
        vec![Statement::Assign {
            name: "x".to_string(),
            expr: Expression::BitOr(
                b(id("a")),
                b(Expression::BitXor(
                    b(id("b")),
                    b(Expression::BitAnd(b(id("c")), b(Expression::Shl(b(id("d")), b(id("e")))))),
                )),
            ),
        }]
    );
}
