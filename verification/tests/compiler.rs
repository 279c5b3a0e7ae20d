use julix::bytecode::chunk::{Chunk, FunctionDef};
use julix::bytecode::instruction::Instruction;
use julix::lixer::ast::{Expression, FunctionDef as MethodDef, Statement};
use julix::lixer::emitter::{compile, compile_expression, CompileError, FloatTable, BREAK_SENTINEL, CONTINUE_SENTINEL};
use julix::lixer::statement::parse;
use julix::lixer::token::{lex, FStrPart};

fn s(x: &str) -> String {
    x.to_string()
}

fn code_of(src: &str) -> Vec<Instruction> {
    let toks = lex(src).unwrap();
    let stmts = parse(&toks).unwrap();
    let (chunk, _) = compile(&stmts, &FloatTable::new()).unwrap();
    chunk.code
}

#[test]
fn compile_let_and_print() {
    assert_eq!(
        code_of("let x = 1 + 2; print(x);"),
        vec![
            Instruction::LoadInt(1),
            Instruction::LoadInt(2),
            Instruction::Add,
            Instruction::StoreVar(s("x")),
            Instruction::LoadVar(s("x")),
            Instruction::Print,
            Instruction::Deinit,
            Instruction::Halt,
        ]
    );
}

#[test]
fn compile_while_with_break() {
    assert_eq!(
        code_of("while (true) { break; }"),
        vec![
            Instruction::LoadBool(true),
            Instruction::JumpIfFalse(4),
            Instruction::Jump(4),
            Instruction::Jump(0),
            Instruction::Deinit,
            Instruction::Halt,
        ]
    );
}

#[test]
fn compile_while_with_continue() {
    assert_eq!(
        code_of("while (a) { continue; }"),
        vec![
            Instruction::LoadVar(s("a")),
            Instruction::JumpIfFalse(4),
            Instruction::Jump(0),
            Instruction::Jump(0),
            Instruction::Deinit,
            Instruction::Halt,
        ]
    );
}

#[test]
fn compile_if_elif_else_jumps_to_the_end() {
    assert_eq!(
        code_of("if (a) { print(1); } elif (b) { print(2); } else { print(3); }"),
        vec![
            Instruction::LoadVar(s("a")),
            Instruction::JumpIfFalse(5),
            Instruction::LoadInt(1),
            Instruction::Print,
            Instruction::Jump(12),
            Instruction::LoadVar(s("b")),
            Instruction::JumpIfFalse(10),
            Instruction::LoadInt(2),
            Instruction::Print,
            Instruction::Jump(12),
            Instruction::LoadInt(3),
            Instruction::Print,
            Instruction::Deinit,
            Instruction::Halt,
        ]
    );
}

#[test]
fn compile_for_loop() {
    assert_eq!(
        code_of("for (i in 0..3) { print(i); }"),
        vec![
            Instruction::LoadInt(0),
            Instruction::StoreVar(s("i")),
            Instruction::LoadInt(3),
            Instruction::StoreVar(s("__end_i")),
            Instruction::LoadVar(s("i")),
            Instruction::LoadVar(s("__end_i")),
            Instruction::Lt,
            Instruction::JumpIfFalse(15),
            Instruction::LoadVar(s("i")),
            Instruction::Print,
            Instruction::LoadVar(s("i")),
            Instruction::LoadInt(1),
            Instruction::Add,
            Instruction::StoreVar(s("i")),
            Instruction::Jump(4),
            Instruction::Deinit,
            Instruction::Halt,
        ]
    );
}

#[test]
fn compile_break_and_continue_outside_a_loop() {
    assert_eq!(compile(&vec![Statement::Break], &FloatTable::new()).unwrap_err(), CompileError::BreakOutsideLoop);
    assert_eq!(compile(&vec![Statement::Continue], &FloatTable::new()).unwrap_err(), CompileError::ContinueOutsideLoop);
}

#[test]
fn compile_float_from_the_table() {
    let toks = lex("let x = 1.5;").unwrap();
    let stmts = parse(&toks).unwrap();
    assert_eq!(compile(&stmts, &FloatTable::new()).unwrap_err(), CompileError::UnresolvedFloat(s("1.5")));
    let mut floats = FloatTable::new();
    floats.insert(s("1.5"), 0x3FF8000000000000);
    assert_eq!(floats.lookup("1.5"), Some(0x3FF8000000000000));
    assert_eq!(floats.lookup("2.5"), None);
    let (chunk, _) = compile(&stmts, &floats).unwrap();
    assert_eq!(chunk.code[0], Instruction::LoadFloat(0x3FF8000000000000));
}

#[test]
fn compile_fstring() {
    let e = Expression::FString(vec![FStrPart::Literal(s("v=")), FStrPart::Expr(s("x + 1"))]);
    let mut chunk = Chunk::new();
    compile_expression(&e, &mut chunk, &FloatTable::new(), 8).unwrap();
    assert_eq!(
        chunk.code,
        vec![
            Instruction::LoadStr(s("v=")),
            Instruction::LoadVar(s("x")),
            Instruction::LoadInt(1),
            Instruction::Add,
            Instruction::Stringify,
            Instruction::Add,
        ]
    );
    let mut chunk = Chunk::new();
    compile_expression(&Expression::FString(vec![]), &mut chunk, &FloatTable::new(), 8).unwrap();
    assert_eq!(chunk.code, vec![Instruction::LoadStr(s(""))]);
}

#[test]
fn compile_fstring_errors() {
    let mut chunk = Chunk::new();
    let e = Expression::FString(vec![FStrPart::Expr(s("x"))]);
    assert_eq!(compile_expression(&e, &mut chunk, &FloatTable::new(), 0), Err(CompileError::FStringTooDeep));
    let e = Expression::FString(vec![FStrPart::Expr(s("a # b"))]);
    assert!(matches!(compile_expression(&e, &mut chunk, &FloatTable::new(), 4), Err(CompileError::FStringLex(_))));
    let e = Expression::FString(vec![FStrPart::Expr(s(")"))]);
    assert!(matches!(compile_expression(&e, &mut chunk, &FloatTable::new(), 4), Err(CompileError::FStringParse(_))));
}

#[test]
fn compile_call_of_a_non_identifier() {
    let e = Expression::Call { callee: Box::new(Expression::Int(1)), args: vec![] };
    let mut chunk = Chunk::new();
    assert_eq!(compile_expression(&e, &mut chunk, &FloatTable::new(), 4), Err(CompileError::CallNonIdentifier));
}

#[test]
fn compile_function_definition() {
    let f = Statement::FunctionDef {
        name: s("f"),
        params: vec![s("a")],
        body: vec![Statement::Return(Some(Expression::Ident(s("a"))))],
    };
    let (chunk, table) = compile(&vec![f], &FloatTable::new()).unwrap();
    assert_eq!(chunk.code, vec![Instruction::Deinit, Instruction::Halt]);
    let def = table.get("f").unwrap();
    assert_eq!(
        def.chunk.code,
        vec![
            Instruction::LoadVar(s("a")),
            Instruction::Deinit,
            Instruction::Return,
            Instruction::LoadNull,
            Instruction::Deinit,
            Instruction::Return,
        ]
    );
    assert_eq!(def.params, vec![s("a")]);
}

#[test]
fn compile_methods_of_a_type() {
    let t = Statement::TypeDef {
        name: s("P"),
        fields: vec![(s("x"), s("int"))],
        methods: vec![MethodDef { name: s("m"), params: vec![s("self")], body: vec![Statement::Return(None)] }],
    };
    let (_, table) = compile(&vec![t], &FloatTable::new()).unwrap();
    let def: &FunctionDef = table.get("P.m").unwrap();
    assert_eq!(
        def.chunk.code,
        vec![
            Instruction::LoadNull,
            Instruction::Deinit,
            Instruction::Return,
            Instruction::LoadNull,
            Instruction::Deinit,
            Instruction::Return,
        ]
    );
    assert!(table.get("m").is_none());
}

#[test]
fn compile_try_and_throw() {
    let t = Statement::Try {
        body: vec![Statement::Throw(Expression::Int(1))],
        catch_var: Some(s("e")),
        catch_body: vec![Statement::Print(Expression::Ident(s("e")))],
    };
    let (chunk, _) = compile(&vec![t], &FloatTable::new()).unwrap();
    assert_eq!(
        chunk.code,
        vec![
            Instruction::TryCatch(4, 7),
            Instruction::LoadInt(1),
            Instruction::Throw,
            Instruction::Jump(7),
            Instruction::StoreVar(s("e")),
            Instruction::LoadVar(s("e")),
            Instruction::Print,
            Instruction::Deinit,
            Instruction::Halt,
        ]
    );
}

#[test]
fn compile_field_assignment_stores_back() {
    let st = Statement::FieldAssign { object: Expression::Ident(s("p")), field: s("x"), expr: Expression::Int(3) };
    let (chunk, _) = compile(&vec![st], &FloatTable::new()).unwrap();
    assert_eq!(
        chunk.code,
        vec![
            Instruction::LoadVar(s("p")),
            Instruction::LoadInt(3),
            Instruction::SetField(s("x")),
            Instruction::StoreVar(s("p")),
            Instruction::Deinit,
            Instruction::Halt,
        ]
    );
}

#[test]
fn sentinels_are_distinct() {
    assert_eq!(BREAK_SENTINEL, usize::MAX);
    assert_eq!(CONTINUE_SENTINEL, usize::MAX - 1);
}
