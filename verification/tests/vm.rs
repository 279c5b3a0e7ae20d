use julix::bytecode::chunk::FunctionTable;
use julix::lixer::ast::{Expression, FunctionDef as MethodDef, Statement};
use julix::lixer::emitter::{compile, FloatTable};
use julix::lixer::statement::parse;
use julix::lixer::token::{lex, Token};
use julix::lixvm::error::VmError;
use julix::lixvm::machine::{Event, Machine};
use julix::lixvm::native::Native;
use julix::lixvm::operations::FloatOp;
use julix::lixvm::value::Value;

fn s(x: &str) -> String {
    x.to_string()
}

fn float_text(f: f64) -> String {
    if f == f.trunc() {
        format!("{}.0", f as i64)
    } else {
        format!("{}", f)
    }
}

fn as_f64(v: &Value) -> f64 {
    match v {
        Value::Int(n) => *n as f64,
        Value::Float(b, _) => f64::from_bits(*b),
        _ => panic!("not a number"),
    }
}

fn float_value(f: f64) -> Value {
    Value::Float(f.to_bits(), float_text(f))
}

fn run_machine(mut m: Machine) -> Result<String, VmError> {
    let mut out = String::new();
    loop {
        match m.step()? {
            Event::Continue => {}
            Event::Halt => return Ok(out),
            Event::Output(text, newline) => {
                out.push_str(&text);
                if newline {
                    out.push('\n');
                }
            }
            Event::LoadFloat(bits) => m.push_value(float_value(f64::from_bits(bits))),
            Event::Float(op, l, r) => {
                let (a, b) = (as_f64(&l), as_f64(&r));
                let x = match op {
                    FloatOp::Add => a + b,
                    FloatOp::Sub => a - b,
                    FloatOp::Mul => a * b,
                    FloatOp::Div => a / b,
                    FloatOp::Rem => a % b,
                };
                m.push_value(float_value(x));
            }
            Event::Native(n, args) => match n {
                Native::Println | Native::Print => {
                    if let Some(v) = args.first() {
                        out.push_str(&v.stringify());
                    }
                    if n == Native::Println {
                        out.push('\n');
                    }
                    m.push_value(Value::Bool(true));
                }
                Native::Clock => m.push_value(Value::Int(0)),
                _ => m.push_value(Value::Null),
            },
        }
    }
}

fn run_stmts(stmts: Vec<Statement>, floats: &FloatTable) -> Result<String, VmError> {
    let (chunk, functions) = compile(&stmts, floats).unwrap();
    run_machine(Machine::new(chunk, functions))
}

fn run(src: &str) -> Result<String, VmError> {
    let toks = lex(src).unwrap();
    let mut floats = FloatTable::new();
    for t in &toks {
        if let Token::Float(text) = t {
            floats.insert(text.clone(), text.parse::<f64>().unwrap().to_bits());
        }
    }
    let stmts = parse(&toks).unwrap();
    run_stmts(stmts, &floats)
}

fn err_text(r: Result<String, VmError>) -> String {
    format!("{:?}", r.unwrap_err())
}

#[test]
fn vm_arithmetic() {
    assert_eq!(run("println(1 + 2 * 3); println((1 + 2) * 3);").unwrap(), "7\n9\n");
}

#[test]
fn vm_integer_division_truncates() {
    assert_eq!(run("println((0 - 7) / 2); println((0 - 7) % 2); println(7 / (0 - 2));").unwrap(), "-3\n-1\n-3\n");
}

#[test]
fn vm_division_by_zero() {
    assert_eq!(err_text(run("println(1 / 0);")), "DivisionByZero");
    assert_eq!(err_text(run("println(1 % 0);")), "Other(\"modulo by zero\")");
}

#[test]
fn vm_integer_overflow() {
    assert_eq!(err_text(run("println(9223372036854775807 + 1);")), "Other(\"integer overflow\")");
}

#[test]
fn vm_store_then_load() {
    assert_eq!(run("let x = 5; x = x + 1; println(x);").unwrap(), "6\n");
}

#[test]
fn vm_undefined_variable() {
    assert_eq!(err_text(run("println(y);")), "UndefinedVar(\"y\")");
}

#[test]
fn vm_conditions_are_strict_booleans() {
    assert_eq!(err_text(run("if (1) { print(1); }")), "ExpectedBool(Int(1))");
}

#[test]
fn vm_if_elif_else_runs_one_branch() {
    let src = "let x = 2; if (x == 1) { println(1); } elif (x == 2) { println(2); } elif (x > 1) { println(22); } else { println(3); }";
    assert_eq!(run(src).unwrap(), "2\n");
    assert_eq!(run("if (false) { println(1); } else { println(3); }").unwrap(), "3\n");
}

#[test]
fn vm_while_with_break_and_continue() {
    let src = "let i = 0; let s = 0; while (true) { i = i + 1; if (i > 5) { break; } if (i == 3) { continue; } s = s + i; } println(s);";
    assert_eq!(run(src).unwrap(), "12\n");
}

#[test]
fn vm_for_over_a_range() {
    assert_eq!(run("for (i in 0..3) { print(i); }").unwrap(), "012");
}

#[test]
fn vm_strings_lists_and_maps() {
    assert_eq!(run("println(\"ab\" + \"cd\");").unwrap(), "abcd\n");
    assert_eq!(run("let l = [1, \"a\", true]; println(l); println(l[1]); println(l.len);").unwrap(), "[1, a, true]\na\n3\n");
    assert_eq!(run("let m = {\"k\": 1, \"j\": 2}; println(m[\"j\"]); println(m.k); println(m);").unwrap(), "2\n1\n{k: 1, j: 2}\n");
    assert_eq!(run("println(\"héllo\"[1]); println(\"héllo\".len);").unwrap(), "é\n5\n");
}

#[test]
fn vm_index_errors() {
    assert_eq!(err_text(run("let l = [1]; println(l[3]);")), "IndexError(\"3\")");
    assert_eq!(err_text(run("let m = {\"a\": 1}; println(m[\"b\"]);")), "KeyNotFound(\"b\")");
    assert_eq!(err_text(run("println(1[0]);")), "CannotIndex(Int(1), Int(0))");
}

#[test]
fn vm_string_methods() {
    assert_eq!(run("println(\"abc\".upper()); println(\"ABC\".lower()); println(\"  hi \".trim());").unwrap(), "ABC\nabc\nhi\n");
    assert_eq!(run("println(\"a,b,,c\".split(\",\"));").unwrap(), "[a, b, , c]\n");
    assert_eq!(run("println(\"aXbXc\".replace(\"X\", \"--\"));").unwrap(), "a--b--c\n");
    assert_eq!(run("println(\"héllo\".find(\"l\")); println(\"abc\".find(\"z\"));").unwrap(), "3\n-1\n");
    assert_eq!(run("println(\"hello\".contains(\"ell\")); println(\"hello\".starts_with(\"he\")); println(\"hello\".ends_with(\"lo\"));").unwrap(), "true\ntrue\ntrue\n");
    assert_eq!(run("println(\"hello\".slice(1, 3)); println(\"hello\".slice(3, 100));").unwrap(), "el\nlo\n");
    assert_eq!(err_text(run("println(\"hello\".slice(3, 1));")), "Other(\"slice start after end\")");
    assert_eq!(err_text(run("println(\"hello\".nope());")), "UnknownMethod(\"string\", \"nope\")");
    assert_eq!(err_text(run("println(\"hello\".contains(1));")), "ArgumentType(\"contains\", Some(Int(1)))");
}

#[test]
fn vm_list_and_map_methods() {
    assert_eq!(run("println([1, 2].push(3)); println([1].concat([2, 3])); println([1, 2, 3].reverse());").unwrap(), "[1, 2, 3]\n[1, 2, 3]\n[3, 2, 1]\n");
    assert_eq!(run("println([1, 2, 3].slice(1, 2)); println([1, 2, 3].contains(2)); println([1, 2, 3].index_of(3));").unwrap(), "[2]\ntrue\n2\n");
    assert_eq!(run("println([1, \"x\", 2].join(\"-\"));").unwrap(), "1-x-2\n");
    assert_eq!(run("let m = {\"a\": 1, \"b\": 2}; println(m.keys()); println(m.values()); println(m.get(\"b\")); println(m.contains(\"z\")); println(m.remove(\"a\"));").unwrap(), "[a, b]\n[1, 2]\n2\nfalse\n{b: 2}\n");
}

#[test]
fn vm_floats_go_through_the_host() {
    assert_eq!(run("println(1.5 + 2); println(1.5 * 2.0);").unwrap(), "3.5\n3.0\n");
    assert_eq!(err_text(run("println(1.5 / 0.0);")), "DivisionByZero");
}

#[test]
fn vm_fstring() {
    assert_eq!(run("let x = 4; println(f\"x={x} and {x * 2}\");").unwrap(), "x=4 and 8\n");
}

#[test]
fn vm_call_then_return() {
    let f = Statement::FunctionDef {
        name: s("inc"),
        params: vec![s("a")],
        body: vec![Statement::Return(Some(Expression::Add(Box::new(Expression::Ident(s("a"))), Box::new(Expression::Int(1)))))],
    };
    let call = Expression::Call { callee: Box::new(Expression::Ident(s("inc"))), args: vec![Expression::Int(41)] };
    let out = run_stmts(vec![f, Statement::Let { name: s("a"), expr: Expression::Int(7) }, Statement::PrintLn(call), Statement::PrintLn(Expression::Ident(s("a")))], &FloatTable::new()).unwrap();
    assert_eq!(out, "42\n7\n");
}

#[test]
fn vm_function_without_return_gives_null() {
    let f = Statement::FunctionDef { name: s("f"), params: vec![], body: vec![] };
    let call = Expression::Call { callee: Box::new(Expression::Ident(s("f"))), args: vec![] };
    assert_eq!(run_stmts(vec![f, Statement::PrintLn(call)], &FloatTable::new()).unwrap(), "null\n");
}

#[test]
fn vm_undefined_function() {
    let call = Expression::Call { callee: Box::new(Expression::Ident(s("g"))), args: vec![] };
    assert_eq!(err_text(run_stmts(vec![Statement::Expr(call)], &FloatTable::new())), "UndefinedFunc(\"g\")");
}

#[test]
fn vm_objects_and_methods() {
    let t = Statement::TypeDef {
        name: s("P"),
        fields: vec![(s("v"), s("int"))],
        methods: vec![MethodDef {
            name: s("get"),
            params: vec![s("self"), s("k")],
            body: vec![Statement::Return(Some(Expression::Add(
                Box::new(Expression::FieldAccess { object: Box::new(Expression::Ident(s("self"))), field: s("v") }),
                Box::new(Expression::Ident(s("k"))),
            )))],
        }],
    };
    let make = Statement::Let {
        name: s("p"),
        expr: Expression::Construct { type_ident: s("P"), fields: vec![(s("v"), Expression::Int(7))] },
    };
    let set = Statement::FieldAssign { object: Expression::Ident(s("p")), field: s("v"), expr: Expression::Int(10) };
    let show = Statement::PrintLn(Expression::Ident(s("p")));
    let call = Statement::PrintLn(Expression::MethodCall { object: Box::new(Expression::Ident(s("p"))), method: s("get"), args: vec![Expression::Int(5)] });
    assert_eq!(run_stmts(vec![t, make, set, show, call], &FloatTable::new()).unwrap(), "P(v: 10)\n15\n");
}

#[test]
fn vm_try_catch_and_throw() {
    let t = Statement::Try {
        body: vec![Statement::Throw(Expression::Str(s("boom"))), Statement::PrintLn(Expression::Int(1))],
        catch_var: Some(s("e")),
        catch_body: vec![Statement::PrintLn(Expression::Ident(s("e")))],
    };
    assert_eq!(run_stmts(vec![t], &FloatTable::new()).unwrap(), "boom\n");
    let r = run_stmts(vec![Statement::Throw(Expression::Int(1))], &FloatTable::new());
    assert!(matches!(r, Err(VmError::UncaughtError(Value::Int(1)))));
}

#[test]
fn vm_native_functions() {
    assert_eq!(run("println(len(\"héllo\")); println(len([1, 2])); println(len(5));").unwrap(), "5\n2\n0\n");
    assert_eq!(run("let b = bytes_new(3); b = bytes_set(b, 1, 258); println(b); println(bytes_get(b, 1)); println(bytes_get(b, 9));").unwrap(), "b[0, 2, 0]\n2\nnull\n");
    assert_eq!(run("let t = clock(); println(t);").unwrap(), "0\n");
}

#[test]
fn vm_bytes_methods() {
    assert_eq!(run("println(b\"hello\".slice(1, 3)); println(b\"hi\\xff\".to_string());").unwrap(), "b[101, 108]\nhi\u{FFFD}\n");
}

#[test]
fn vm_halts_at_the_end_of_the_code() {
    let mut m = Machine::new(julix::bytecode::chunk::Chunk::new(), FunctionTable::new());
    assert!(matches!(m.step(), Ok(Event::Halt)));
    assert!(matches!(m.step(), Ok(Event::Halt)));
}

#[test]
fn vm_functions_from_source() {
    let src = "function fib(n) {\n  if (n < 2) { return n; }\n  return fib(n - 1) + fib(n - 2);\n}\nfunction greet(name) { println(name); }\ngreet(\"julix\");\nprint(fib(10));";
    assert_eq!(run(src).unwrap(), "julix\n55");
}

#[test]
fn vm_fib_as_in_the_syntax_guide() {
    let src = "function fib(n) {\n    if (n < 2) return n;\n    return fib(n - 1) + fib(n - 2);\n}\nprint(fib(10));";
    assert_eq!(run(src).unwrap(), "55");
}

#[test]
fn vm_types_from_source() {
    let src = "type Point {\n    x: int;\n    y: int;\n\n    function add(self, other): Point {\n        return Point(x: self.x + other.x, y: self.y + other.y);\n    }\n}\nlet p = Point(x: 1, y: 2);\nprint(p.x);\nlet q = p.add(Point(x: 3, y: 4));\nprintln(q.y);\nprintln(q);";
    assert_eq!(run(src).unwrap(), "16\nPoint(x: 4, y: 6)\n");
}

#[test]
fn vm_type_annotations_are_accepted() {
    let src = "let big: int = 1_000_000;\nfunction greet(name: string): string { return name; }\nprintln(greet(\"julix\"));\nprintln(big);";
    assert_eq!(run(src).unwrap(), "julix\n1000000\n");
}

#[test]
fn vm_bitwise_operators() {
    assert_eq!(run("println(6 & 3); println(6 | 3); println(6 ^ 3); println(1 << 4); println((0 - 16) >> 2);").unwrap(), "2\n7\n5\n16\n-4\n");
    assert_eq!(run("println(1 | 2 ^ 3 & 4 << 1);").unwrap(), "3\n");
    assert_eq!(run("println(1 + 1 << 2 == 8);").unwrap(), "true\n");
    assert_eq!(err_text(run("println(1 << 64);")), "Other(\"shift out of range\")");
    assert_eq!(err_text(run("println(true & 1);")), "OperandTypes(\"bitand\", Bool(true), Int(1))");
}
