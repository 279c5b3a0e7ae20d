use julix::lixvm::environment::Environment;
use julix::lixvm::error::VmError;
use julix::lixvm::methods::{list_method, map_method, native_method, string_method};
use julix::lixvm::native::{native_bytes_get, native_bytes_new, native_bytes_set, native_len, Native, NativeResult, NativeTable};
use julix::lixvm::operations::arithmetic::{add, div, mul, rem, sub};
use julix::lixvm::operations::comparison::{eq, gt, gt_eq, lt, lt_eq, not_eq};
use julix::lixvm::operations::logic::{and, is_truthy, not, or};
use julix::lixvm::operations::{FloatOp, Outcome};
use julix::lixvm::value::{copy_value, set_field, values_equal, Value};
use julix::text::int_to_string;

fn s(x: &str) -> String {
    x.to_string()
}

fn text(v: &Value) -> String {
    v.stringify()
}

fn int_of(o: Result<Outcome, VmError>) -> i64 {
    match o {
        Ok(Outcome::Value(Value::Int(n))) => n,
        other => panic!("not an int: {:?}", other),
    }
}

#[test]
fn stringify_every_kind() {
    assert_eq!(text(&Value::Null), "null");
    assert_eq!(text(&Value::Int(-42)), "-42");
    assert_eq!(text(&Value::Int(i64::MIN)), "-9223372036854775808");
    assert_eq!(text(&Value::Float(0, s("0.0"))), "0.0");
    assert_eq!(text(&Value::Str(s("hi"))), "hi");
    assert_eq!(text(&Value::Bool(false)), "false");
    assert_eq!(text(&Value::Bytes(vec![1, 255])), "b[1, 255]");
    assert_eq!(text(&Value::List(vec![Value::Int(1), Value::Str(s("a")), Value::List(vec![])])), "[1, a, []]");
    assert_eq!(text(&Value::Mapping(vec![(s("k"), Value::Int(1)), (s("j"), Value::Bool(true))])), "{k: 1, j: true}");
    assert_eq!(text(&Value::Object(s("P"), vec![(s("x"), Value::Int(1))])), "P(x: 1)");
}

#[test]
fn int_text_extremes() {
    assert_eq!(int_to_string(0), "0");
    assert_eq!(int_to_string(i64::MAX), "9223372036854775807");
    assert_eq!(int_to_string(-7), "-7");
}

#[test]
fn equality_of_values() {
    let nan = f64::NAN.to_bits();
    let pz = 0.0f64.to_bits();
    let nz = (-0.0f64).to_bits();
    assert!(!values_equal(&Value::Float(nan, s("NaN")), &Value::Float(nan, s("NaN"))));
    assert!(values_equal(&Value::Float(pz, s("0.0")), &Value::Float(nz, s("-0.0"))));
    assert!(!values_equal(&Value::Int(1), &Value::Float(1.0f64.to_bits(), s("1.0"))));
    let m1 = Value::Mapping(vec![(s("a"), Value::Int(1)), (s("b"), Value::Int(2))]);
    let m2 = Value::Mapping(vec![(s("b"), Value::Int(2)), (s("a"), Value::Int(1))]);
    assert!(values_equal(&m1, &m2));
    let m3 = Value::Mapping(vec![(s("a"), Value::Int(1))]);
    assert!(!values_equal(&m1, &m3));
    assert!(values_equal(&Value::List(vec![Value::Null]), &Value::List(vec![Value::Null])));
    assert!(!values_equal(&Value::List(vec![Value::Null]), &Value::List(vec![])));
    assert!(values_equal(&copy_value(&m1), &m1));
}

#[test]
fn fields_read_back_what_was_written() {
    let mut fs = vec![(s("a"), Value::Int(1))];
    set_field(&mut fs, s("b"), Value::Int(2));
    set_field(&mut fs, s("a"), Value::Int(3));
    assert_eq!(text(&Value::Mapping(fs)), "{a: 3, b: 2}");
}

#[test]
fn arithmetic_on_values() {
    assert_eq!(int_of(add(Value::Int(2), Value::Int(3))), 5);
    assert_eq!(int_of(sub(Value::Int(2), Value::Int(3))), -1);
    assert_eq!(int_of(mul(Value::Int(-4), Value::Int(3))), -12);
    assert_eq!(int_of(div(Value::Int(-7), Value::Int(2))), -3);
    assert_eq!(int_of(rem(Value::Int(-7), Value::Int(2))), -1);
    assert_eq!(int_of(rem(Value::Int(7), Value::Int(-2))), 1);
    assert!(matches!(add(Value::Str(s("a")), Value::Str(s("b"))), Ok(Outcome::Value(Value::Str(x))) if x == "ab"));
    assert!(matches!(add(Value::Int(1), Value::Float(0, s("0.0"))), Ok(Outcome::Float(FloatOp::Add, Value::Int(1), _))));
    assert!(matches!(add(Value::Bool(true), Value::Int(1)), Err(VmError::OperandTypes(x, Value::Bool(true), Value::Int(1))) if x == "add"));
    assert!(matches!(div(Value::Int(1), Value::Int(0)), Err(VmError::DivisionByZero)));
    assert!(matches!(div(Value::Int(i64::MIN), Value::Int(-1)), Err(VmError::Other(x)) if x == "integer overflow"));
    assert!(matches!(rem(Value::Int(i64::MIN), Value::Int(-1)), Err(VmError::Other(x)) if x == "integer overflow"));
    assert!(matches!(mul(Value::Int(i64::MAX), Value::Int(2)), Err(VmError::Other(_))));
    assert!(matches!(sub(Value::Null, Value::Int(2)), Err(VmError::OperandTypes(x, Value::Null, Value::Int(2))) if x == "sub"));
}

#[test]
fn comparisons_and_logic() {
    assert!(matches!(eq(Value::Int(1), Value::Int(1)), Value::Bool(true)));
    assert!(matches!(not_eq(Value::Int(1), Value::Int(1)), Value::Bool(false)));
    assert!(matches!(lt(Value::Int(1), Value::Int(2)), Ok(Value::Bool(true))));
    assert!(matches!(gt(Value::Int(1), Value::Int(2)), Ok(Value::Bool(false))));
    assert!(matches!(lt_eq(Value::Int(2), Value::Int(2)), Ok(Value::Bool(true))));
    assert!(matches!(gt_eq(Value::Int(1), Value::Int(2)), Ok(Value::Bool(false))));
    assert!(matches!(lt(Value::Str(s("a")), Value::Int(2)), Err(VmError::OperandTypes(x, Value::Str(_), Value::Int(2))) if x == "lt"));
    assert!(matches!(and(Value::Bool(true), Value::Bool(false)), Ok(Value::Bool(false))));
    assert!(matches!(or(Value::Bool(true), Value::Bool(false)), Ok(Value::Bool(true))));
    assert!(matches!(not(Value::Bool(true)), Ok(Value::Bool(false))));
    assert!(matches!(not(Value::Int(0)), Err(VmError::OperandTypes(x, Value::Int(0), Value::Bool(false))) if x == "not"));
    assert!(matches!(and(Value::Int(1), Value::Bool(true)), Err(VmError::OperandTypes(x, Value::Int(1), Value::Bool(true))) if x == "and"));
    assert!(matches!(is_truthy(&Value::Bool(false)), Ok(false)));
    assert!(matches!(is_truthy(&Value::Int(1)), Err(VmError::ExpectedBool(Value::Int(1)))));
}

#[test]
fn environment_variables_and_slots() {
    let mut env = Environment::new(2);
    assert!(matches!(env.get_slot(1), Value::Null));
    env.set_slot(4, Value::Int(9));
    assert!(matches!(env.get_slot(4), Value::Int(9)));
    assert!(matches!(env.get_slot(3), Value::Null));
    assert_eq!(env.slot_count(), 5);
    env.set_slot(0, Value::Object(s("P"), vec![]));
    let objs = env.objects();
    assert_eq!(objs.len(), 1);
    env.set(s("x"), Value::Int(1));
    env.set(s("x"), Value::Int(2));
    assert!(matches!(env.get(&s("x")), Some(Value::Int(2))));
    assert!(env.get(&s("y")).is_none());
    let copy = env.copy();
    assert!(matches!(copy.get(&s("x")), Some(Value::Int(2))));
}

#[test]
fn native_table() {
    let t = NativeTable::new();
    assert_eq!(t.get("len"), Some(Native::Len));
    assert_eq!(t.get("nope"), None);
    assert!(matches!(t.call("len", vec![Value::Str(s("abc"))]), Some(Ok(NativeResult::Value(Value::Int(3))))));
    assert!(matches!(t.call("clock", vec![]), Some(Ok(NativeResult::Host(Native::Clock, _)))));
    assert!(t.call("nope", vec![]).is_none());
}

#[test]
fn native_functions() {
    assert!(matches!(native_len(&vec![Value::Bytes(vec![1, 2])]), Value::Int(2)));
    assert!(matches!(native_len(&vec![]), Value::Int(0)));
    assert!(matches!(native_bytes_new(&vec![Value::Int(2)]), Ok(Value::Bytes(b)) if b == vec![0, 0]));
    assert!(matches!(native_bytes_new(&vec![Value::Int(-1)]), Err(VmError::Other(_))));
    assert!(matches!(native_bytes_new(&vec![Value::Str(s("x"))]), Ok(Value::Bytes(b)) if b.is_empty()));
    assert!(matches!(native_bytes_set(&vec![Value::Bytes(vec![0, 0]), Value::Int(0), Value::Int(300)]), Value::Bytes(b) if b == vec![44, 0]));
    assert!(matches!(native_bytes_set(&vec![Value::Bytes(vec![0]), Value::Int(5), Value::Int(1)]), Value::Bytes(b) if b == vec![0]));
    assert!(matches!(native_bytes_set(&vec![]), Value::Null));
    assert!(matches!(native_bytes_get(&vec![Value::Bytes(vec![7]), Value::Int(0)]), Value::Int(7)));
    assert!(matches!(native_bytes_get(&vec![Value::Bytes(vec![7]), Value::Int(-1)]), Value::Null));
}

#[test]
fn string_methods_direct() {
    let m = |x: &str, name: &str, args: Vec<Value>| string_method(&s(x), &s(name), &args).map(|v| v.stringify());
    assert_eq!(m("ÄbC", "lower", vec![]).unwrap(), "äbc");
    assert_eq!(m("straße", "upper", vec![]).unwrap(), "STRASSE");
    assert_eq!(m("\t x y \n", "trim", vec![]).unwrap(), "x y");
    assert_eq!(m("   ", "trim", vec![]).unwrap(), "");
    assert_eq!(m("abc", "replace", vec![Value::Str(s("")), Value::Str(s("-"))]).unwrap(), "-a-b-c-");
    assert_eq!(m("aaa", "replace", vec![Value::Str(s("aa")), Value::Str(s("b"))]).unwrap(), "ba");
    assert_eq!(m("abc", "replace", vec![]).unwrap(), "abc");
    assert_eq!(m("abc", "split", vec![Value::Str(s(""))]).unwrap(), "[, a, b, c, ]");
    assert_eq!(m("a--b", "split", vec![Value::Str(s("--"))]).unwrap(), "[a, b]");
    assert_eq!(m("ab", "find", vec![Value::Str(s(""))]).unwrap(), "0");
    assert_eq!(m("abc", "slice", vec![Value::Int(-1), Value::Int(2)]).unwrap_err().to_owned_text(), "slice start after end");
    assert_eq!(m("abc", "ends_with", vec![Value::Str(s("abcd"))]).unwrap(), "false");
}

trait ErrText {
    fn to_owned_text(&self) -> String;
}

impl ErrText for VmError {
    fn to_owned_text(&self) -> String {
        match self {
            VmError::Other(x) => x.clone(),
            other => format!("{:?}", other),
        }
    }
}

#[test]
fn list_and_map_methods_direct() {
    let items = vec![Value::Int(1), Value::Int(2)];
    assert_eq!(list_method(&items, &s("push"), &vec![]).unwrap().stringify(), "[1, 2]");
    assert_eq!(list_method(&items, &s("join"), &vec![]).unwrap().stringify(), "12");
    assert_eq!(list_method(&items, &s("index_of"), &vec![Value::Int(5)]).unwrap().stringify(), "-1");
    assert!(matches!(list_method(&items, &s("nope"), &vec![]), Err(VmError::UnknownMethod(k, x)) if k == "list" && x == "nope"));
    let fs = vec![(s("a"), Value::Int(1))];
    assert_eq!(map_method(&fs, &s("get"), &vec![Value::Str(s("z"))]).unwrap().stringify(), "false");
    assert_eq!(map_method(&fs, &s("remove"), &vec![Value::Int(1)]).unwrap().stringify(), "{a: 1}");
    assert!(matches!(native_method(&Value::Int(1), &s("x"), &vec![]), Err(VmError::NoMethod(x, Value::Int(1))) if x == "x"));
}

#[test]
fn map_remove_drops_every_binding_of_the_key() {
    let fs = vec![(s("a"), Value::Int(1)), (s("b"), Value::Int(2)), (s("a"), Value::Int(3))];
    let r = map_method(&fs, &s("remove"), &vec![Value::Str(s("a"))]).unwrap();
    assert!(matches!(&r, Value::Mapping(x) if x.len() == 1 && x[0].0 == "b"));
    if let Value::Mapping(m) = r {
        assert_eq!(map_method(&m, &s("contains"), &vec![Value::Str(s("a"))]).unwrap().stringify(), "false");
        assert_eq!(map_method(&m, &s("get"), &vec![Value::Str(s("a"))]).unwrap().stringify(), "false");
        assert_eq!(map_method(&m, &s("get"), &vec![Value::Str(s("b"))]).unwrap().stringify(), "2");
    }
}

#[test]
fn split_then_join_gives_the_text_back() {
    let parts = string_method(&s("a,b,,c"), &s("split"), &vec![Value::Str(s(","))]).unwrap();
    assert_eq!(parts.stringify(), "[a, b, , c]");
    if let Value::List(items) = parts {
        assert_eq!(list_method(&items, &s("join"), &vec![Value::Str(s(","))]).unwrap().stringify(), "a,b,,c");
    }
    let chars = string_method(&s("xyz"), &s("split"), &vec![Value::Str(s(""))]).unwrap();
    if let Value::List(items) = chars {
        assert_eq!(items.len(), 5);
        assert_eq!(list_method(&items, &s("join"), &vec![Value::Str(s(""))]).unwrap().stringify(), "xyz");
    }
}
