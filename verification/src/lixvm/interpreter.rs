//! A tree-walking interpreter for the first Julix dialect: it runs statements in order,
//! collecting what they print, and stops at the first error.
use vstd::prelude::*;
use crate::ast::expression::{Expression, ExprV};
use crate::ast::statement::{Statement, StmtV, stmts_view};
use crate::lixvm::operations::arithmetic::{trunc_div, trunc_rem, magnitude};
use crate::text::{int_text, int_to_string, copy_string, string_eq, push_str, chars_to_string};

verus! {

/// A value of the first dialect.
#[derive(Debug, Clone, PartialEq)]
pub enum Value {
    Int(i64),
    Str(String),
}

/// The mathematical value of a [`Value`].
pub enum ValueV {
    Int(i64),
    Str(Seq<char>),
}

impl View for Value {
    type V = ValueV;

    open spec fn view(&self) -> ValueV {
        match self {
            Value::Int(n) => ValueV::Int(*n),
            Value::Str(s) => ValueV::Str(s@),
        }
    }
}

/// The arithmetic operations, as named in type errors.
#[derive(Debug, Clone, Copy, PartialEq, Eq, Structural)]
pub enum ArithOp {
    Add,
    Sub,
    Mul,
    Div,
    Mod,
}

/// Why a run stopped.
#[derive(Debug, Clone, PartialEq)]
pub enum RunError {
    /// A variable that no `let` or `const` bound.
    UndefinedVariable(String),
    DivisionByZero,
    ModuloByZero,
    /// An operation on operands of the wrong kinds.
    TypeError(ArithOp, Value, Value),
    /// An integer result outside the range of `i64`.
    IntegerOverflow,
}

pub enum RunErrorV {
    UndefinedVariable(Seq<char>),
    DivisionByZero,
    ModuloByZero,
    TypeError(ArithOp, ValueV, ValueV),
    IntegerOverflow,
}

impl View for RunError {
    type V = RunErrorV;

    open spec fn view(&self) -> RunErrorV {
        match self {
            RunError::UndefinedVariable(s) => RunErrorV::UndefinedVariable(s@),
            RunError::DivisionByZero => RunErrorV::DivisionByZero,
            RunError::ModuloByZero => RunErrorV::ModuloByZero,
            RunError::TypeError(op, a, b) => RunErrorV::TypeError(*op, a@, b@),
            RunError::IntegerOverflow => RunErrorV::IntegerOverflow,
        }
    }
}

/// What a run printed, and the error that stopped it, if any.
#[derive(Debug)]
pub struct RunOutput {
    pub output: String,
    pub error: Option<RunError>,
}

/// The text that printing a value writes.
pub open spec fn value_text(v: ValueV) -> Seq<char> {
    match v {
        ValueV::Int(n) => int_text(n as int),
        ValueV::Str(s) => s,
    }
}

impl Value {
    /// The text that printing this value writes.
    pub fn stringify(&self) -> (s: String)
        ensures
            s@ == value_text(self@),
    {
        match self {
            Value::Int(n) => int_to_string(*n),
            Value::Str(s) => copy_string(s),
        }
    }
}

fn copy_value(v: &Value) -> (r: Value)
    ensures
        r@ == v@,
{
    match v {
        Value::Int(n) => Value::Int(*n),
        Value::Str(s) => Value::Str(copy_string(s)),
    }
}

// ---------------------------------------------------------------------------
// The environment: names bound to values, later bindings shadowing earlier ones

pub open spec fn env_view(env: Seq<(String, Value)>) -> Seq<(Seq<char>, ValueV)> {
    env.map_values(|e: (String, Value)| (e.0@, e.1@))
}

/// The map from names to values that a list of bindings makes (a later binding of a name
/// replaces an earlier one).
pub open spec fn env_map(env: Seq<(Seq<char>, ValueV)>) -> Map<Seq<char>, ValueV>
    decreases env.len(),
{
    if env.len() == 0 {
        Map::empty()
    } else {
        env_map(env.drop_last()).insert(env.last().0, env.last().1)
    }
}

fn lookup(env: &Vec<(String, Value)>, name: &String) -> (r: Option<Value>)
    ensures
        match r {
            Some(v) => env_map(env_view(env@)).dom().contains(name@)
                && env_map(env_view(env@))[name@] == v@,
            None => !env_map(env_view(env@)).dom().contains(name@),
        },
{
    let ghost ev = env_view(env@);
    let mut i = env.len();
    assert(ev.take(i as int) =~= ev);
    while i > 0
        invariant
            i <= env.len(),
            ev == env_view(env@),
            forall|k: int| #![trigger ev[k]] i <= k < ev.len() ==> ev[k].0 != name@,
            env_map(ev).dom().contains(name@) == env_map(ev.take(i as int)).dom().contains(name@),
            env_map(ev).dom().contains(name@) ==> env_map(ev)[name@] == env_map(ev.take(i as int))[name@],
        decreases i,
    {
        let ghost pre = ev.take(i as int);
        assert(pre.drop_last() =~= ev.take(i - 1));
        assert(pre.last() == ev[i - 1]);
        if string_eq(&env[i - 1].0, name) {
            return Some(copy_value(&env[i - 1].1));
        }
        i = i - 1;
    }
    assert(ev.take(0) =~= Seq::<(Seq<char>, ValueV)>::empty());
    None
}

// ---------------------------------------------------------------------------
// Evaluation

pub open spec fn type_error(op: ArithOp, a: ValueV, b: ValueV) -> Result<ValueV, RunErrorV> {
    Err(RunErrorV::TypeError(op, a, b))
}

pub open spec fn int_result(x: int) -> Result<ValueV, RunErrorV> {
    if i64::MIN <= x <= i64::MAX {
        Ok(ValueV::Int(x as i64))
    } else {
        Err(RunErrorV::IntegerOverflow)
    }
}

/// `a + b`: integers add, strings concatenate.
pub open spec fn spec_add(a: ValueV, b: ValueV) -> Result<ValueV, RunErrorV> {
    match (a, b) {
        (ValueV::Int(x), ValueV::Int(y)) => int_result(x + y),
        (ValueV::Str(x), ValueV::Str(y)) => Ok(ValueV::Str(x + y)),
        _ => type_error(ArithOp::Add, a, b),
    }
}

pub open spec fn spec_sub(a: ValueV, b: ValueV) -> Result<ValueV, RunErrorV> {
    match (a, b) {
        (ValueV::Int(x), ValueV::Int(y)) => int_result(x - y),
        _ => type_error(ArithOp::Sub, a, b),
    }
}

pub open spec fn spec_mul(a: ValueV, b: ValueV) -> Result<ValueV, RunErrorV> {
    match (a, b) {
        (ValueV::Int(x), ValueV::Int(y)) => int_result(x * y),
        _ => type_error(ArithOp::Mul, a, b),
    }
}

/// `a / b` on integers, rounding toward zero.
pub open spec fn spec_div(a: ValueV, b: ValueV) -> Result<ValueV, RunErrorV> {
    match (a, b) {
        (ValueV::Int(x), ValueV::Int(y)) => if y == 0 {
            Err(RunErrorV::DivisionByZero)
        } else {
            int_result(trunc_div(x as int, y as int))
        },
        _ => type_error(ArithOp::Div, a, b),
    }
}

/// `a % b` on integers; the remainder has the sign of `a`.
pub open spec fn spec_rem(a: ValueV, b: ValueV) -> Result<ValueV, RunErrorV> {
    match (a, b) {
        (ValueV::Int(x), ValueV::Int(y)) => if y == 0 {
            Err(RunErrorV::ModuloByZero)
        } else if x == i64::MIN && y == -1 {
            Err(RunErrorV::IntegerOverflow)
        } else {
            Ok(ValueV::Int(trunc_rem(x as int, y as int) as i64))
        },
        _ => type_error(ArithOp::Mod, a, b),
    }
}

pub open spec fn then_apply(
    l: Result<ValueV, RunErrorV>,
    r: Result<ValueV, RunErrorV>,
    op: ArithOp,
) -> Result<ValueV, RunErrorV> {
    match l {
        Err(e) => Err(e),
        Ok(a) => match r {
            Err(e) => Err(e),
            Ok(b) => match op {
                ArithOp::Add => spec_add(a, b),
                ArithOp::Sub => spec_sub(a, b),
                ArithOp::Mul => spec_mul(a, b),
                ArithOp::Div => spec_div(a, b),
                ArithOp::Mod => spec_rem(a, b),
            },
        },
    }
}

/// The value of an expression under an environment: operands are evaluated left first.
pub open spec fn spec_eval(e: ExprV, env: Map<Seq<char>, ValueV>) -> Result<ValueV, RunErrorV>
    decreases e,
{
    match e {
        ExprV::Int(n) => Ok(ValueV::Int(n)),
        ExprV::Str(s) => Ok(ValueV::Str(s)),
        ExprV::Ident(name) => if env.dom().contains(name) {
            Ok(env[name])
        } else {
            Err(RunErrorV::UndefinedVariable(name))
        },
        ExprV::Add(l, r) => then_apply(spec_eval(*l, env), spec_eval(*r, env), ArithOp::Add),
        ExprV::Sub(l, r) => then_apply(spec_eval(*l, env), spec_eval(*r, env), ArithOp::Sub),
        ExprV::Mul(l, r) => then_apply(spec_eval(*l, env), spec_eval(*r, env), ArithOp::Mul),
        ExprV::Div(l, r) => then_apply(spec_eval(*l, env), spec_eval(*r, env), ArithOp::Div),
        ExprV::Mod(l, r) => then_apply(spec_eval(*l, env), spec_eval(*r, env), ArithOp::Mod),
    }
}

pub open spec fn value_agrees(r: Result<Value, RunError>, s: Result<ValueV, RunErrorV>) -> bool {
    match s {
        Ok(v) => r matches Ok(x) && x@ == v,
        Err(e) => r matches Err(x) && x@ == e,
    }
}

fn add(l: Value, r: Value) -> (res: Result<Value, RunError>)
    ensures
        value_agrees(res, spec_add(l@, r@)),
{
    match (l, r) {
        (Value::Int(a), Value::Int(b)) => match a.checked_add(b) {
            Some(x) => Ok(Value::Int(x)),
            None => Err(RunError::IntegerOverflow),
        },
        (Value::Str(a), Value::Str(b)) => {
            let mut out: Vec<char> = Vec::new();
            push_str(&mut out, a.as_str());
            push_str(&mut out, b.as_str());
            Ok(Value::Str(chars_to_string(out.as_slice())))
        },
        (a, b) => Err(RunError::TypeError(ArithOp::Add, a, b)),
    }
}

fn sub(l: Value, r: Value) -> (res: Result<Value, RunError>)
    ensures
        value_agrees(res, spec_sub(l@, r@)),
{
    match (l, r) {
        (Value::Int(a), Value::Int(b)) => match a.checked_sub(b) {
            Some(x) => Ok(Value::Int(x)),
            None => Err(RunError::IntegerOverflow),
        },
        (a, b) => Err(RunError::TypeError(ArithOp::Sub, a, b)),
    }
}

fn mul(l: Value, r: Value) -> (res: Result<Value, RunError>)
    ensures
        value_agrees(res, spec_mul(l@, r@)),
{
    match (l, r) {
        (Value::Int(a), Value::Int(b)) => match a.checked_mul(b) {
            Some(x) => Ok(Value::Int(x)),
            None => Err(RunError::IntegerOverflow),
        },
        (a, b) => Err(RunError::TypeError(ArithOp::Mul, a, b)),
    }
}

fn div(l: Value, r: Value) -> (res: Result<Value, RunError>)
    ensures
        value_agrees(res, spec_div(l@, r@)),
{
    match (l, r) {
        (Value::Int(a), Value::Int(b)) => {
            if b == 0 {
                return Err(RunError::DivisionByZero);
            }
            let q = magnitude(a) / magnitude(b);
            if (a < 0) != (b < 0) {
                if q <= 9223372036854775808u64 {
                    Ok(Value::Int((0i128 - (q as i128)) as i64))
                } else {
                    Err(RunError::IntegerOverflow)
                }
            } else if q <= 9223372036854775807u64 {
                Ok(Value::Int(q as i64))
            } else {
                Err(RunError::IntegerOverflow)
            }
        },
        (a, b) => Err(RunError::TypeError(ArithOp::Div, a, b)),
    }
}

fn rem(l: Value, r: Value) -> (res: Result<Value, RunError>)
    ensures
        value_agrees(res, spec_rem(l@, r@)),
{
    match (l, r) {
        (Value::Int(a), Value::Int(b)) => {
            if b == 0 {
                return Err(RunError::ModuloByZero);
            }
            if a == i64::MIN && b == -1 {
                return Err(RunError::IntegerOverflow);
            }
            let mb = magnitude(b);
            let m = magnitude(a) % mb;
            assert(m < mb);
            if a < 0 {
                Ok(Value::Int((0i128 - (m as i128)) as i64))
            } else {
                Ok(Value::Int(m as i64))
            }
        },
        (a, b) => Err(RunError::TypeError(ArithOp::Mod, a, b)),
    }
}

fn apply(op: ArithOp, l: Value, r: Value) -> (res: Result<Value, RunError>)
    ensures
        value_agrees(res, then_apply(Ok(l@), Ok(r@), op)),
{
    match op {
        ArithOp::Add => self::add(l, r),
        ArithOp::Sub => self::sub(l, r),
        ArithOp::Mul => self::mul(l, r),
        ArithOp::Div => div(l, r),
        ArithOp::Mod => rem(l, r),
    }
}

/// Evaluates an expression; `env` holds the bindings made so far.
pub fn eval(expr: &Expression, env: &Vec<(String, Value)>) -> (res: Result<Value, RunError>)
    ensures
        value_agrees(res, spec_eval(expr@, env_map(env_view(env@)))),
    decreases expr,
{
    match expr {
        Expression::Int(n) => Ok(Value::Int(*n)),
        Expression::Str(s) => Ok(Value::Str(copy_string(s))),
        Expression::Ident(name) => match lookup(env, name) {
            Some(v) => Ok(v),
            None => Err(RunError::UndefinedVariable(copy_string(name))),
        },
        Expression::Add(l, r) => {
            let a = eval(l, env)?;
            let b = eval(r, env)?;
            apply(ArithOp::Add, a, b)
        },
        Expression::Sub(l, r) => {
            let a = eval(l, env)?;
            let b = eval(r, env)?;
            apply(ArithOp::Sub, a, b)
        },
        Expression::Mul(l, r) => {
            let a = eval(l, env)?;
            let b = eval(r, env)?;
            apply(ArithOp::Mul, a, b)
        },
        Expression::Div(l, r) => {
            let a = eval(l, env)?;
            let b = eval(r, env)?;
            apply(ArithOp::Div, a, b)
        },
        Expression::Mod(l, r) => {
            let a = eval(l, env)?;
            let b = eval(r, env)?;
            apply(ArithOp::Mod, a, b)
        },
    }
}

// ---------------------------------------------------------------------------
// Running statements

/// One statement under `env`: the text it prints and the bindings after it, or the error it
/// stops with. `let` and `const` bind a name for the statements after them.
pub open spec fn spec_step(s: StmtV, env: Map<Seq<char>, ValueV>) -> Result<
    (Seq<char>, Map<Seq<char>, ValueV>),
    RunErrorV,
> {
    match s {
        StmtV::Print(e) => match spec_eval(e, env) {
            Ok(v) => Ok((value_text(v), env)),
            Err(x) => Err(x),
        },
        StmtV::PrintLn(e) => match spec_eval(e, env) {
            Ok(v) => Ok((value_text(v) + seq!['\n'], env)),
            Err(x) => Err(x),
        },
        StmtV::Let { name, expr } => match spec_eval(expr, env) {
            Ok(v) => Ok((Seq::empty(), env.insert(name, v))),
            Err(x) => Err(x),
        },
        StmtV::Const { name, expr } => match spec_eval(expr, env) {
            Ok(v) => Ok((Seq::empty(), env.insert(name, v))),
            Err(x) => Err(x),
        },
    }
}

/// What running `ss` in order under `env` prints, and the error that stops it, if any.
pub open spec fn run_from(ss: Seq<StmtV>, env: Map<Seq<char>, ValueV>) -> (Seq<char>, Option<RunErrorV>)
    decreases ss.len(),
{
    if ss.len() == 0 {
        (Seq::empty(), None)
    } else {
        match spec_step(ss[0], env) {
            Ok((t, next)) => (t + run_from(ss.drop_first(), next).0, run_from(ss.drop_first(), next).1),
            Err(x) => (Seq::empty(), Some(x)),
        }
    }
}

/// What a program prints, starting with no bindings, and the error that stops it, if any.
pub open spec fn spec_run(ss: Seq<StmtV>) -> (Seq<char>, Option<RunErrorV>) {
    run_from(ss, Map::empty())
}

pub open spec fn error_view(e: Option<RunError>) -> Option<RunErrorV> {
    match e {
        Some(x) => Some(x@),
        None => None,
    }
}

proof fn lemma_env_push(env: Seq<(String, Value)>, b: (String, Value))
    ensures
        env_map(env_view(env.push(b))) == env_map(env_view(env)).insert(b.0@, b.1@),
{
    assert(env_view(env.push(b)).drop_last() =~= env_view(env));
}

fn bind(name: &String, expr: &Expression, env: &mut Vec<(String, Value)>, out: &Vec<char>) -> (r: Option<RunError>)
    ensures
        match spec_eval(expr@, env_map(env_view(old(env)@))) {
            Ok(v) => r is None && env_map(env_view(final(env)@)) == env_map(env_view(old(env)@)).insert(name@, v),
            Err(x) => r matches Some(y) && y@ == x,
        },
{
    match eval(expr, env) {
        Ok(v) => {
            let ghost before = env@;
            let pair = (copy_string(name), v);
            proof {
                lemma_env_push(before, pair);
            }
            env.push(pair);
            None
        },
        Err(x) => Some(x),
    }
}

fn exec_stmt(stmt: &Statement, env: &mut Vec<(String, Value)>, out: &mut Vec<char>) -> (r: Option<RunError>)
    ensures
        match spec_step(stmt@, env_map(env_view(old(env)@))) {
            Ok((t, m)) => r is None && final(out)@ == old(out)@ + t && env_map(env_view(final(env)@)) == m,
            Err(x) => r matches Some(y) && y@ == x && final(out)@ == old(out)@,
        },
{
    match stmt {
        Statement::Print(e) => match eval(e, env) {
            Ok(v) => {
                let s = v.stringify();
                push_str(out, s.as_str());
                None
            },
            Err(x) => Some(x),
        },
        Statement::PrintLn(e) => match eval(e, env) {
            Ok(v) => {
                let s = v.stringify();
                push_str(out, s.as_str());
                out.push('\n');
                assert(final(out)@ =~= old(out)@ + (value_text(v@) + seq!['\n']));
                None
            },
            Err(x) => Some(x),
        },
        Statement::Let { name, expr } => bind(name, expr, env, out),
        Statement::Const { name, expr } => bind(name, expr, env, out),
    }
}

/// Runs a program: the text its `print` and `println` statements write, in order, up to the
/// first error, and that error.
pub fn run(stmts: &[Statement]) -> (r: RunOutput)
    ensures
        (r.output@, error_view(r.error)) == spec_run(stmts_view(stmts@)),
{
    let ghost all = stmts_view(stmts@);
    let mut env: Vec<(String, Value)> = Vec::new();
    let mut out: Vec<char> = Vec::new();
    let mut i: usize = 0;
    assert(all.skip(0) =~= all);
    assert(env_map(env_view(env@)) =~= Map::<Seq<char>, ValueV>::empty());
    while i < stmts.len()
        invariant
            i <= stmts.len(),
            all == stmts_view(stmts@),
            spec_run(all) == (out@ + run_from(all.skip(i as int), env_map(env_view(env@))).0,
                run_from(all.skip(i as int), env_map(env_view(env@))).1),
        decreases stmts.len() - i,
    {
        let ghost before = out@;
        let ghost m = env_map(env_view(env@));
        assert(all.skip(i as int).drop_first() =~= all.skip(i + 1));
        assert(all.skip(i as int)[0] == stmts@[i as int]@);
        match exec_stmt(&stmts[i], &mut env, &mut out) {
            None => {
                proof {
                    let t = spec_step(all[i as int], m)->Ok_0.0;
                    let rest = run_from(all.skip(i + 1), env_map(env_view(env@))).0;
                    assert(before + (t + rest) =~= out@ + rest);
                }
            },
            Some(x) => {
                assert(before + Seq::<char>::empty() =~= before);
                return RunOutput { output: chars_to_string(out.as_slice()), error: Some(x) };
            },
        }
        i = i + 1;
    }
    assert(all.skip(i as int) =~= Seq::<StmtV>::empty());
    assert(out@ + Seq::<char>::empty() =~= out@);
    RunOutput { output: chars_to_string(out.as_slice()), error: None }
}

/// A name bound by `let` reads back as the value it was bound to: running `let name = expr`
/// and then `println name` prints the value of `expr` and a newline, and stops with no error.
pub proof fn law_let_then_print(name: Seq<char>, expr: ExprV, v: ValueV)
    requires
        spec_eval(expr, Map::empty()) == Ok::<ValueV, RunErrorV>(v),
    ensures
        spec_run(seq![StmtV::Let { name, expr }, StmtV::PrintLn(ExprV::Ident(name))])
            == (value_text(v) + seq!['\n'], None::<RunErrorV>),
{
    let ss = seq![StmtV::Let { name, expr }, StmtV::PrintLn(ExprV::Ident(name))];
    let env = Map::<Seq<char>, ValueV>::empty().insert(name, v);
    assert(ss.drop_first() =~= seq![StmtV::PrintLn(ExprV::Ident(name))]);
    assert(ss.drop_first().drop_first() =~= Seq::<StmtV>::empty());
    assert(spec_eval(ExprV::Ident(name), env) == Ok::<ValueV, RunErrorV>(v));
    assert(run_from(ss.drop_first().drop_first(), env) == (Seq::<char>::empty(), None::<RunErrorV>));
    assert(run_from(ss.drop_first(), env) == (value_text(v) + seq!['\n'] + Seq::<char>::empty(), None::<RunErrorV>));
    assert(spec_step(ss[0], Map::empty()) == Ok::<(Seq<char>, Map<Seq<char>, ValueV>), RunErrorV>((Seq::<char>::empty(), env)));
    assert(Seq::<char>::empty() + (value_text(v) + seq!['\n'] + Seq::<char>::empty()) =~= value_text(v) + seq!['\n']);
}

/// The arithmetic of the first dialect on int operands: `+ - *` give the sum, difference and
/// product where they fit in 64 bits and an overflow error where they do not; `/` and `%` of
/// a nonnegative by a positive int give quotient and remainder, and by zero they fail; `+` on
/// two strings joins them, the left one first.
pub proof fn law_eval_arithmetic(a: i64, b: i64, x: Seq<char>, y: Seq<char>, env: Map<Seq<char>, ValueV>)
    ensures
        spec_eval(ExprV::Add(Box::new(ExprV::Int(a)), Box::new(ExprV::Int(b))), env) == (if i64::MIN <= a + b <= i64::MAX {
            Ok(ValueV::Int((a + b) as i64))
        } else {
            Err(RunErrorV::IntegerOverflow)
        }),
        spec_eval(ExprV::Sub(Box::new(ExprV::Int(a)), Box::new(ExprV::Int(b))), env) == (if i64::MIN <= a - b <= i64::MAX {
            Ok(ValueV::Int((a - b) as i64))
        } else {
            Err(RunErrorV::IntegerOverflow)
        }),
        spec_eval(ExprV::Mul(Box::new(ExprV::Int(a)), Box::new(ExprV::Int(b))), env) == (if i64::MIN <= a * b <= i64::MAX {
            Ok(ValueV::Int((a * b) as i64))
        } else {
            Err(RunErrorV::IntegerOverflow)
        }),
        a >= 0 && b > 0 ==> spec_eval(ExprV::Div(Box::new(ExprV::Int(a)), Box::new(ExprV::Int(b))), env)
            == Ok::<ValueV, RunErrorV>(ValueV::Int((a / b) as i64)),
        a >= 0 && b > 0 ==> spec_eval(ExprV::Mod(Box::new(ExprV::Int(a)), Box::new(ExprV::Int(b))), env)
            == Ok::<ValueV, RunErrorV>(ValueV::Int((a % b) as i64)),
        spec_eval(ExprV::Div(Box::new(ExprV::Int(a)), Box::new(ExprV::Int(0))), env) == Err::<ValueV, RunErrorV>(
            RunErrorV::DivisionByZero,
        ),
        spec_eval(ExprV::Mod(Box::new(ExprV::Int(a)), Box::new(ExprV::Int(0))), env) == Err::<ValueV, RunErrorV>(
            RunErrorV::ModuloByZero,
        ),
        spec_eval(ExprV::Add(Box::new(ExprV::Str(x)), Box::new(ExprV::Str(y))), env) == Ok::<ValueV, RunErrorV>(
            ValueV::Str(x + y),
        ),
{
    assert(spec_eval(ExprV::Int(a), env) == Ok::<ValueV, RunErrorV>(ValueV::Int(a)));
    assert(spec_eval(ExprV::Int(b), env) == Ok::<ValueV, RunErrorV>(ValueV::Int(b)));
    assert(spec_eval(ExprV::Int(0), env) == Ok::<ValueV, RunErrorV>(ValueV::Int(0)));
    assert(spec_eval(ExprV::Str(x), env) == Ok::<ValueV, RunErrorV>(ValueV::Str(x)));
    assert(spec_eval(ExprV::Str(y), env) == Ok::<ValueV, RunErrorV>(ValueV::Str(y)));
    if a >= 0 && b > 0 {
        assert(0 <= a / b <= a) by (nonlinear_arith)
            requires a >= 0, b > 0;
        assert(0 <= a % b < b) by (nonlinear_arith)
            requires a >= 0, b > 0;
    }
}

} // verus!
