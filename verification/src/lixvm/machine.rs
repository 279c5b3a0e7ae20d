//! The LixVM machine. It runs one instruction per [`Machine::step`]; what needs the outside
//! world (printing, floating point, built-ins that reach the system) comes back as an
//! [`Event`] for the host, which hands results back with [`Machine::push_value`].
use vstd::prelude::*;
use crate::bytecode::chunk::{Chunk, FunctionTable, FuncV, table_get};
use crate::bytecode::instruction::{Instruction, InstrV, copy_instruction, copy_names, names_view};
use crate::lixer::emitter::{TableV, mangled, expr_code, stmt_code, ex, stmts_code, end_var, patch_code, patch_instr, CONTINUE_SENTINEL};
use crate::lixer::ast::{ExprV, BinOp};
use crate::lixer::token::TokenV;
use crate::lixer::parser::{p_expr, binary_token_op, law_binary_of_two_ints};
use crate::lixvm::value::{
    Value, ValueV, values_view, fields_view, lemma_values_view, lemma_fields_view,
    lemma_values_view_push, copy_value, value_eq, value_text, field_get, field_set, set_field,
    field_index,
};
use crate::lixvm::environment::{Environment, EnvV, null_slots, grow_slots};
use crate::lixvm::error::{VmError, VmErrorV};
use crate::lixvm::operations::{FloatOp, Outcome, OutcomeV};
use crate::lixvm::operations::arithmetic::{self, ArithRes, add_spec, sub_spec, mul_spec, div_spec, rem_spec};
use crate::lixvm::operations::comparison::{self, order_spec};
use crate::lixvm::operations::logic::{self, bool_spec};
use crate::lixvm::operations::bitwise::{self, bit_spec, BitOp};
use crate::lixvm::native::{Native, NativeTable, NativeResult, native_names, native_lookup, is_host, pure_native_spec};
use crate::lixvm::methods::{method_spec, native_method};
use crate::text::{int_text, int_to_string, copy_string, string_to_chars, chars_to_string, str_eq};

verus! {

// ---------------------------------------------------------------------------
// The state, by value

/// A suspended caller: where to go back to.
#[verifier::ext_equal]
pub struct FrameV {
    pub return_ip: usize,
    pub env: EnvV,
    pub code: Seq<InstrV>,
}

/// An active `try`: where a thrown value goes, with the state to restore.
#[verifier::ext_equal]
pub struct HandlerV {
    pub catch_ip: usize,
    pub return_ip: usize,
    pub env: EnvV,
    pub code: Seq<InstrV>,
}

/// The mathematical value of a [`Machine`].
#[verifier::ext_equal]
pub struct MachineV {
    pub code: Seq<InstrV>,
    pub ip: usize,
    pub stack: Seq<ValueV>,
    pub env: EnvV,
    pub functions: TableV,
    pub frames: Seq<FrameV>,
    pub handlers: Seq<HandlerV>,
}

/// What a step asks of the host.
#[derive(Debug)]
pub enum Event {
    /// The instruction ran; nothing to do.
    Continue,
    /// The program has ended.
    Halt,
    /// Print the text, with a newline when the flag is set.
    Output(String, bool),
    /// Push the float with these bits.
    LoadFloat(u64),
    /// Push the result of a floating-point operation on two numbers.
    Float(FloatOp, Value, Value),
    /// Carry out a built-in function and push its result.
    Native(Native, Vec<Value>),
}

pub enum EventV {
    Continue,
    Halt,
    Output(Seq<char>, bool),
    LoadFloat(u64),
    Float(FloatOp, ValueV, ValueV),
    Native(Native, Seq<ValueV>),
}

impl View for Event {
    type V = EventV;

    open spec fn view(&self) -> EventV {
        match self {
            Event::Continue => EventV::Continue,
            Event::Halt => EventV::Halt,
            Event::Output(s, nl) => EventV::Output(s@, *nl),
            Event::LoadFloat(b) => EventV::LoadFloat(*b),
            Event::Float(op, l, r) => EventV::Float(*op, l@, r@),
            Event::Native(n, args) => EventV::Native(*n, values_view(args@)),
        }
    }
}

pub type StepRes = Result<(MachineV, EventV), VmErrorV>;

// ---------------------------------------------------------------------------
// The instructions, by value

/// The top of the stack and the rest; an empty stack gives `false`.
pub open spec fn pop_v(s: Seq<ValueV>) -> (ValueV, Seq<ValueV>) {
    if s.len() == 0 {
        (ValueV::Bool(false), s)
    } else {
        (s.last(), s.drop_last())
    }
}

/// The top `n` values in stack order (the deepest first) and the rest; missing values are
/// `false` and come first.
pub open spec fn pop_n_v(s: Seq<ValueV>, n: nat) -> (Seq<ValueV>, Seq<ValueV>) {
    if n <= s.len() {
        (s.subrange(s.len() - n, s.len() as int), s.take(s.len() - n))
    } else {
        (Seq::new((n - s.len()) as nat, |_i: int| ValueV::Bool(false)) + s, Seq::empty())
    }
}

/// `n` key-value pairs from the top of the stack, the deepest first, and the rest.
pub open spec fn pop_pairs_v(s: Seq<ValueV>, n: nat) -> (Seq<(ValueV, ValueV)>, Seq<ValueV>)
    decreases n,
{
    if n == 0 {
        (Seq::empty(), s)
    } else {
        let (v, s1) = pop_v(s);
        let (k, s2) = pop_v(s1);
        let (es, s3) = pop_pairs_v(s2, (n - 1) as nat);
        (es.push((k, v)), s3)
    }
}

/// The map of pairs with string keys; of two pairs with one key, the first counts.
pub open spec fn map_from(es: Seq<(ValueV, ValueV)>, acc: Seq<(Seq<char>, ValueV)>) -> Seq<(Seq<char>, ValueV)>
    decreases es.len(),
{
    if es.len() == 0 {
        acc
    } else {
        let next = match es[0].0 {
            ValueV::Str(k) => if field_get(acc, k) is None {
                acc.push((k, es[0].1))
            } else {
                acc
            },
            _ => acc,
        };
        map_from(es.drop_first(), next)
    }
}

/// The fields of a new object; of two fields with one name, the first counts.
pub open spec fn construct_from(names: Seq<Seq<char>>, vals: Seq<ValueV>, acc: Seq<(Seq<char>, ValueV)>) -> Seq<(Seq<char>, ValueV)>
    decreases names.len(),
{
    if names.len() == 0 || vals.len() == 0 {
        acc
    } else {
        let next = if field_get(acc, names[0]) is None {
            acc.push((names[0], vals[0]))
        } else {
            acc
        };
        construct_from(names.drop_first(), vals.drop_first(), next)
    }
}

/// The variables with parameters bound to arguments, in order, as far as both go.
pub open spec fn bind_args(vars: Seq<(Seq<char>, ValueV)>, params: Seq<Seq<char>>, args: Seq<ValueV>) -> Seq<(Seq<char>, ValueV)>
    decreases params.len(),
{
    if params.len() == 0 || args.len() == 0 {
        vars
    } else {
        bind_args(field_set(vars, params[0], args[0]), params.drop_first(), args.drop_first())
    }
}

/// The parameters of a method other than `self`.
pub open spec fn method_params(params: Seq<Seq<char>>) -> Seq<Seq<char>> {
    params.filter(|p: Seq<char>| p != "self"@)
}

/// The state with a value pushed.
pub open spec fn pushed(m: MachineV, s: Seq<ValueV>, v: ValueV) -> StepRes {
    Ok((MachineV { stack: s.push(v), ..m }, EventV::Continue))
}

/// The state after an operation on the two top values.
pub open spec fn binary_v(m: MachineV, f: spec_fn(ValueV, ValueV) -> Result<ValueV, VmErrorV>) -> StepRes {
    let (r, s1) = pop_v(m.stack);
    let (l, s2) = pop_v(s1);
    match f(l, r) {
        Ok(v) => pushed(m, s2, v),
        Err(e) => Err(e),
    }
}

/// The state after an arithmetic operation on the two top values.
pub open spec fn arith_v(m: MachineV, f: spec_fn(ValueV, ValueV) -> ArithRes) -> StepRes {
    let (r, s1) = pop_v(m.stack);
    let (l, s2) = pop_v(s1);
    match f(l, r) {
        Ok(OutcomeV::Value(v)) => pushed(m, s2, v),
        Ok(OutcomeV::Float(op, a, b)) => Ok((MachineV { stack: s2, ..m }, EventV::Float(op, a, b))),
        Err(e) => Err(e),
    }
}

/// The state entering a function with its environment.
pub open spec fn enter(m: MachineV, s: Seq<ValueV>, f: FuncV, vars: Seq<(Seq<char>, ValueV)>) -> StepRes {
    Ok((
        MachineV {
            code: f.code,
            ip: 0,
            stack: s,
            env: EnvV { slots: null_slots(0), vars },
            frames: m.frames.push(FrameV { return_ip: m.ip, env: m.env, code: m.code }),
            ..m
        },
        EventV::Continue,
    ))
}

/// `GetField`: a property of a built-in value or a field of an object.
pub open spec fn get_field_v(obj: ValueV, f: Seq<char>) -> Result<ValueV, VmErrorV> {
    match obj {
        ValueV::Str(x) => if f == "len"@ {
            Ok(ValueV::Int(x.len() as i64))
        } else {
            Err(VmErrorV::NoProperty("string"@, f))
        },
        ValueV::Bytes(x) => if f == "len"@ {
            Ok(ValueV::Int(x.len() as i64))
        } else {
            Err(VmErrorV::NoProperty("bytes"@, f))
        },
        ValueV::List(x) => if f == "len"@ {
            Ok(ValueV::Int(x.len() as i64))
        } else {
            Err(VmErrorV::NoProperty("list"@, f))
        },
        ValueV::Mapping(fs) => if f == "len"@ {
            Ok(ValueV::Int(fs.len() as i64))
        } else {
            match field_get(fs, f) {
                Some(v) => Ok(v),
                None => Err(VmErrorV::KeyNotInMap(f)),
            }
        },
        ValueV::Object(_, fs) => match field_get(fs, f) {
            Some(v) => Ok(v),
            None => Err(VmErrorV::NoField(f)),
        },
        _ => Err(VmErrorV::CannotGetField(obj)),
    }
}

/// `IndexGet`.
pub open spec fn index_get_v(obj: ValueV, idx: ValueV) -> Result<ValueV, VmErrorV> {
    match (obj, idx) {
        (ValueV::List(items), ValueV::Int(i)) => if 0 <= i < items.len() {
            Ok(items[i as int])
        } else {
            Err(VmErrorV::IndexError(int_text(i as int)))
        },
        (ValueV::Str(s), ValueV::Int(i)) => if 0 <= i < s.len() {
            Ok(ValueV::Str(seq![s[i as int]]))
        } else {
            Err(VmErrorV::IndexError(int_text(i as int)))
        },
        (ValueV::Bytes(b), ValueV::Int(i)) => if 0 <= i < b.len() {
            Ok(ValueV::Int(b[i as int] as i64))
        } else {
            Err(VmErrorV::IndexError(int_text(i as int)))
        },
        (ValueV::Mapping(fs), ValueV::Str(k)) => match field_get(fs, k) {
            Some(v) => Ok(v),
            None => Err(VmErrorV::KeyNotFound(k)),
        },
        _ => Err(VmErrorV::CannotIndex(obj, idx)),
    }
}

/// `IndexSet`.
pub open spec fn index_set_v(obj: ValueV, idx: ValueV, v: ValueV) -> Result<ValueV, VmErrorV> {
    match (obj, idx) {
        (ValueV::List(items), ValueV::Int(i)) => if 0 <= i < items.len() {
            Ok(ValueV::List(items.update(i as int, v)))
        } else {
            Err(VmErrorV::IndexError(int_text(i as int)))
        },
        (ValueV::Mapping(fs), ValueV::Str(k)) => Ok(ValueV::Mapping(field_set(fs, k, v))),
        _ => Err(VmErrorV::CannotIndexSet(obj, idx)),
    }
}

/// What an instruction does; `m.ip` is already past it.
pub open spec fn exec_v(m: MachineV, i: InstrV) -> StepRes {
    match i {
        InstrV::LoadInt(n) => pushed(m, m.stack, ValueV::Int(n)),
        InstrV::LoadFloat(b) => Ok((m, EventV::LoadFloat(b))),
        InstrV::LoadStr(s) => pushed(m, m.stack, ValueV::Str(s)),
        InstrV::LoadBool(b) => pushed(m, m.stack, ValueV::Bool(b)),
        InstrV::LoadNull => pushed(m, m.stack, ValueV::Null),
        InstrV::LoadConst(_) => Ok((m, EventV::Continue)),
        InstrV::LoadVar(name) => match field_get(m.env.vars, name) {
            Some(v) => pushed(m, m.stack, v),
            None => Err(VmErrorV::UndefinedVar(name)),
        },
        InstrV::StoreVar(name) => {
            let (v, s) = pop_v(m.stack);
            Ok((
                MachineV { stack: s, env: EnvV { vars: field_set(m.env.vars, name, v), ..m.env }, ..m },
                EventV::Continue,
            ))
        },
        InstrV::LoadSlot(k) => if (k as int) < m.env.slots.len() {
            pushed(m, m.stack, m.env.slots[k as int])
        } else {
            Err(VmErrorV::Other("slot out of range"@))
        },
        InstrV::StoreSlot(k) => {
            let (v, s) = pop_v(m.stack);
            Ok((
                MachineV {
                    stack: s,
                    env: EnvV { slots: grow_slots(m.env.slots, k as nat).update(k as int, v), ..m.env },
                    ..m
                },
                EventV::Continue,
            ))
        },
        InstrV::Add => arith_v(m, |l: ValueV, r: ValueV| add_spec(l, r)),
        InstrV::Sub => arith_v(m, |l: ValueV, r: ValueV| sub_spec(l, r)),
        InstrV::Mul => arith_v(m, |l: ValueV, r: ValueV| mul_spec(l, r)),
        InstrV::Div => arith_v(m, |l: ValueV, r: ValueV| div_spec(l, r)),
        InstrV::Mod => arith_v(m, |l: ValueV, r: ValueV| rem_spec(l, r)),
        InstrV::Eq => binary_v(m, |l: ValueV, r: ValueV| Ok(ValueV::Bool(value_eq(l, r)))),
        InstrV::NotEq => binary_v(m, |l: ValueV, r: ValueV| Ok(ValueV::Bool(!value_eq(l, r)))),
        InstrV::Lt => binary_v(m, |l: ValueV, r: ValueV| order_spec(l, r, "lt"@, |a: i64, b: i64| a < b)),
        InstrV::Gt => binary_v(m, |l: ValueV, r: ValueV| order_spec(l, r, "gt"@, |a: i64, b: i64| a > b)),
        InstrV::LtEq => binary_v(m, |l: ValueV, r: ValueV| order_spec(l, r, "le"@, |a: i64, b: i64| a <= b)),
        InstrV::GtEq => binary_v(m, |l: ValueV, r: ValueV| order_spec(l, r, "ge"@, |a: i64, b: i64| a >= b)),
        InstrV::And => binary_v(m, |l: ValueV, r: ValueV| bool_spec(l, r, "and"@, |a: bool, b: bool| a && b)),
        InstrV::Or => binary_v(m, |l: ValueV, r: ValueV| bool_spec(l, r, "or"@, |a: bool, b: bool| a || b)),
        InstrV::Bitwise(op) => binary_v(m, |l: ValueV, r: ValueV| bit_spec(op, l, r)),
        InstrV::Not => {
            let (v, s) = pop_v(m.stack);
            match v {
                ValueV::Bool(b) => pushed(m, s, ValueV::Bool(!b)),
                _ => Err(VmErrorV::OperandTypes("not"@, v, ValueV::Bool(false))),
            }
        },
        InstrV::Jump(t) => Ok((MachineV { ip: t, ..m }, EventV::Continue)),
        InstrV::JumpIfFalse(t) => {
            let (v, s) = pop_v(m.stack);
            match v {
                ValueV::Bool(b) => Ok((
                    MachineV { stack: s, ip: if b { m.ip } else { t }, ..m },
                    EventV::Continue,
                )),
                _ => Err(VmErrorV::ExpectedBool(v)),
            }
        },
        InstrV::Print => {
            let (v, s) = pop_v(m.stack);
            Ok((MachineV { stack: s, ..m }, EventV::Output(value_text(v), false)))
        },
        InstrV::PrintLn => {
            let (v, s) = pop_v(m.stack);
            Ok((MachineV { stack: s, ..m }, EventV::Output(value_text(v), true)))
        },
        InstrV::Call(name, argc) => {
            let (args, s) = pop_n_v(m.stack, argc as nat);
            match native_lookup(native_names(), name) {
                Some(n) => if is_host(n) {
                    Ok((MachineV { stack: s, ..m }, EventV::Native(n, args)))
                } else {
                    match pure_native_spec(n, args) {
                        Ok(v) => pushed(m, s, v),
                        Err(e) => Err(e),
                    }
                },
                None => match table_get(m.functions, name) {
                    Some(f) => enter(m, s, f, bind_args(Seq::empty(), f.params, args)),
                    None => Err(VmErrorV::UndefinedFunc(name)),
                },
            }
        },
        InstrV::Return => {
            let (v, s) = pop_v(m.stack);
            if m.frames.len() > 0 {
                let f = m.frames.last();
                Ok((
                    MachineV {
                        ip: f.return_ip,
                        env: f.env,
                        code: f.code,
                        frames: m.frames.drop_last(),
                        stack: s.push(v),
                        ..m
                    },
                    EventV::Continue,
                ))
            } else {
                pushed(m, s, v)
            }
        },
        InstrV::Construct(t, names) => {
            let (vals, s) = pop_n_v(m.stack, names.len());
            pushed(m, s, ValueV::Object(t, construct_from(names, vals, Seq::empty())))
        },
        InstrV::GetField(f) => {
            let (obj, s) = pop_v(m.stack);
            match get_field_v(obj, f) {
                Ok(v) => pushed(m, s, v),
                Err(e) => Err(e),
            }
        },
        InstrV::SetField(f) => {
            let (v, s1) = pop_v(m.stack);
            let (obj, s2) = pop_v(s1);
            match obj {
                ValueV::Object(t, fs) => pushed(m, s2, ValueV::Object(t, field_set(fs, f, v))),
                _ => Err(VmErrorV::CannotSetField),
            }
        },
        InstrV::MethodCall(method, argc) => {
            let (args, s1) = pop_n_v(m.stack, argc as nat);
            let (obj, s2) = pop_v(s1);
            match obj {
                ValueV::Object(t, _) => match table_get(m.functions, mangled(t, method)) {
                    Some(f) => enter(
                        m,
                        s2,
                        f,
                        bind_args(field_set(Seq::empty(), "self"@, obj), method_params(f.params), args),
                    ),
                    None => Err(VmErrorV::UndefinedMethod(t, method)),
                },
                _ => match method_spec(obj, method, args) {
                    Ok(v) => pushed(m, s2, v),
                    Err(e) => Err(e),
                },
            }
        },
        InstrV::Deinit => Ok((m, EventV::Continue)),
        InstrV::Throw => {
            let (err, s) = pop_v(m.stack);
            if m.handlers.len() > 0 {
                let h = m.handlers.last();
                Ok((
                    MachineV {
                        ip: h.catch_ip,
                        env: h.env,
                        code: h.code,
                        handlers: m.handlers.drop_last(),
                        stack: s.push(err),
                        ..m
                    },
                    EventV::Continue,
                ))
            } else {
                Err(VmErrorV::UncaughtError(err))
            }
        },
        InstrV::TryCatch(c, _) => Ok((
            MachineV {
                handlers: m.handlers.push(HandlerV { catch_ip: c, return_ip: m.ip, env: m.env, code: m.code }),
                ..m
            },
            EventV::Continue,
        )),
        InstrV::LoadBytes(b) => pushed(m, m.stack, ValueV::Bytes(b)),
        InstrV::NewList(n) => {
            let (items, s) = pop_n_v(m.stack, n as nat);
            pushed(m, s, ValueV::List(items))
        },
        InstrV::NewMap(n) => {
            let (es, s) = pop_pairs_v(m.stack, n as nat);
            pushed(m, s, ValueV::Mapping(map_from(es, Seq::empty())))
        },
        InstrV::IndexGet => {
            let (idx, s1) = pop_v(m.stack);
            let (obj, s2) = pop_v(s1);
            match index_get_v(obj, idx) {
                Ok(v) => pushed(m, s2, v),
                Err(e) => Err(e),
            }
        },
        InstrV::IndexSet => {
            let (v, s1) = pop_v(m.stack);
            let (idx, s2) = pop_v(s1);
            let (obj, s3) = pop_v(s2);
            match index_set_v(obj, idx, v) {
                Ok(x) => pushed(m, s3, x),
                Err(e) => Err(e),
            }
        },
        InstrV::Stringify => {
            let (v, s) = pop_v(m.stack);
            pushed(m, s, ValueV::Str(value_text(v)))
        },
        InstrV::Pop => {
            let (_, s) = pop_v(m.stack);
            Ok((MachineV { stack: s, ..m }, EventV::Continue))
        },
        InstrV::Halt => Ok((m, EventV::Halt)),
    }
}

/// One step: past the end of the code the program halts; otherwise the instruction at
/// `ip` runs with `ip` already moved past it.
pub open spec fn step_v(m: MachineV) -> StepRes {
    if m.ip >= m.code.len() {
        Ok((m, EventV::Halt))
    } else {
        exec_v(MachineV { ip: (m.ip + 1) as usize, ..m }, m.code[m.ip as int])
    }
}


pub open spec fn step_agrees(r: Result<Event, VmError>, after: MachineV, s: StepRes) -> bool {
    match s {
        Ok((m, ev)) => r matches Ok(e) && e@ == ev && after == m,
        Err(e) => r matches Err(x) && x@ == e,
    }
}

pub proof fn lemma_values_view_subrange(s: Seq<Value>, a: int, b: int)
    requires
        0 <= a <= b <= s.len(),
    ensures
        values_view(s.subrange(a, b)) == values_view(s).subrange(a, b),
{
    lemma_values_view(s);
    lemma_values_view(s.subrange(a, b));
    assert(values_view(s.subrange(a, b)) =~= values_view(s).subrange(a, b));
}

// ---------------------------------------------------------------------------
// The machine

struct Frame {
    return_ip: usize,
    return_env: Environment,
    return_chunk: Chunk,
}

struct CatchHandler {
    catch_ip: usize,
    return_ip: usize,
    return_env: Environment,
    return_chunk: Chunk,
}

spec fn frame_view(f: Frame) -> FrameV {
    FrameV { return_ip: f.return_ip, env: f.return_env@, code: f.return_chunk@ }
}

spec fn handler_view(h: CatchHandler) -> HandlerV {
    HandlerV { catch_ip: h.catch_ip, return_ip: h.return_ip, env: h.return_env@, code: h.return_chunk@ }
}

/// The VM: the code being run, its variables, the functions, the value stack, the callers
/// and the active `try` handlers.
pub struct Machine {
    chunk: Chunk,
    env: Environment,
    functions: FunctionTable,
    native: NativeTable,
    stack: Vec<Value>,
    ip: usize,
    frames: Vec<Frame>,
    catch_stack: Vec<CatchHandler>,
}

impl View for Machine {
    type V = MachineV;

    closed spec fn view(&self) -> MachineV {
        MachineV {
            code: self.chunk@,
            ip: self.ip,
            stack: values_view(self.stack@),
            env: self.env@,
            functions: self.functions@,
            frames: self.frames@.map_values(|f: Frame| frame_view(f)),
            handlers: self.catch_stack@.map_values(|h: CatchHandler| handler_view(h)),
        }
    }
}

impl Machine {
    /// The machine holds the table of built-in functions.
    pub closed spec fn wf(&self) -> bool {
        self.native@ == native_names()
    }

    /// A machine at the start of `chunk`, with empty stack and variables.
    pub fn new(chunk: Chunk, functions: FunctionTable) -> (m: Machine)
        ensures
            m.wf(),
            m@ == (MachineV {
                code: chunk@,
                ip: 0,
                stack: Seq::empty(),
                env: EnvV { slots: null_slots(0), vars: Seq::empty() },
                functions: functions@,
                frames: Seq::empty(),
                handlers: Seq::empty(),
            }),
    {
        let m = Machine {
            chunk,
            env: Environment::new(0),
            functions,
            native: NativeTable::new(),
            stack: Vec::new(),
            ip: 0,
            frames: Vec::new(),
            catch_stack: Vec::new(),
        };
        assert(m@ =~= (MachineV {
            code: chunk@,
            ip: 0,
            stack: Seq::empty(),
            env: EnvV { slots: null_slots(0), vars: Seq::empty() },
            functions: functions@,
            frames: Seq::empty(),
            handlers: Seq::empty(),
        }));
        m
    }

    /// Pushes a value: the host's answer to an event.
    pub fn push_value(&mut self, v: Value)
        requires
            old(self).wf(),
        ensures
            final(self).wf(),
            final(self)@ == (MachineV { stack: old(self)@.stack.push(v@), ..old(self)@ }),
    {
        self.push(v);
    }

    fn push(&mut self, v: Value)
        requires
            old(self).wf(),
        ensures
            final(self).wf(),
            final(self)@ == (MachineV { stack: old(self)@.stack.push(v@), ..old(self)@ }),
    {
        proof {
            lemma_values_view_push(self.stack@, v);
        }
        self.stack.push(v);
        assert(self@ =~= (MachineV { stack: old(self)@.stack.push(v@), ..old(self)@ }));
    }

    fn pop(&mut self) -> (v: Value)
        requires
            old(self).wf(),
        ensures
            final(self).wf(),
            v@ == pop_v(old(self)@.stack).0,
            final(self)@ == (MachineV { stack: pop_v(old(self)@.stack).1, ..old(self)@ }),
    {
        proof {
            lemma_values_view(self.stack@);
            if self.stack@.len() > 0 {
                assert(self.stack@.subrange(0, self.stack@.len() - 1) =~= self.stack@.drop_last());
            }
        }
        match self.stack.pop() {
            Some(v) => {
                assert(self@ =~= (MachineV { stack: pop_v(old(self)@.stack).1, ..old(self)@ }));
                v
            },
            None => Value::Bool(false),
        }
    }

    fn pop_n(&mut self, n: usize) -> (r: Vec<Value>)
        requires
            old(self).wf(),
        ensures
            final(self).wf(),
            values_view(r@) == pop_n_v(old(self)@.stack, n as nat).0,
            final(self)@ == (MachineV { stack: pop_n_v(old(self)@.stack, n as nat).1, ..old(self)@ }),
    {
        let len = self.stack.len();
        proof {
            lemma_values_view(self.stack@);
        }
        if n <= len {
            let ghost before = self.stack@;
            let r = self.stack.split_off(len - n);
            proof {
                lemma_values_view_subrange(before, (len - n) as int, len as int);
                lemma_values_view_subrange(before, 0, (len - n) as int);
                assert(before.subrange(0, (len - n) as int) =~= before.take((len - n) as int));
                assert(values_view(before).subrange(0, (len - n) as int) =~= values_view(before).take(
                    (len - n) as int,
                ));
            }
            assert(self@ =~= (MachineV { stack: pop_n_v(old(self)@.stack, n as nat).1, ..old(self)@ }));
            r
        } else {
            let mut r: Vec<Value> = Vec::new();
            let mut k: usize = 0;
            while k < n - len
                invariant
                    k <= n - len,
                    values_view(r@) == Seq::new(k as nat, |_i: int| ValueV::Bool(false)),
                decreases n - len - k,
            {
                proof {
                    lemma_values_view_push(r@, Value::Bool(false));
                }
                r.push(Value::Bool(false));
                k = k + 1;
                assert(values_view(r@) =~= Seq::new(k as nat, |_i: int| ValueV::Bool(false)));
            }
            let ghost before = self.stack@;
            let ghost rv = r@;
            let mut rest = self.stack.split_off(0);
            r.append(&mut rest);
            proof {
                lemma_values_view(rv);
                lemma_values_view(before);
                lemma_values_view(r@);
                lemma_values_view(self.stack@);
                assert(before.subrange(0, before.len() as int) =~= before);
                assert(values_view(r@) =~= pop_n_v(old(self)@.stack, n as nat).0);
            }
            assert(self@ =~= (MachineV { stack: pop_n_v(old(self)@.stack, n as nat).1, ..old(self)@ }));
            r
        }
    }

    fn finish_arith(&mut self, res: Result<Outcome, VmError>) -> (r: Result<Event, VmError>)
        requires
            old(self).wf(),
        ensures
            final(self).wf(),
            match res {
                Ok(Outcome::Value(v)) => r matches Ok(Event::Continue) && final(self)@ == (MachineV {
                    stack: old(self)@.stack.push(v@),
                    ..old(self)@
                }),
                Ok(Outcome::Float(op, a, b)) => r matches Ok(Event::Float(op2, a2, b2)) && op2 == op && a2@
                    == a@ && b2@ == b@ && final(self)@ == old(self)@,
                Err(e) => r matches Err(x) && x@ == e@,
            },
    {
        match res {
            Ok(Outcome::Value(v)) => {
                self.push(v);
                Ok(Event::Continue)
            },
            Ok(Outcome::Float(op, a, b)) => Ok(Event::Float(op, a, b)),
            Err(e) => Err(e),
        }
    }

    fn finish_value(&mut self, res: Result<Value, VmError>) -> (r: Result<Event, VmError>)
        requires
            old(self).wf(),
        ensures
            final(self).wf(),
            match res {
                Ok(v) => r matches Ok(Event::Continue) && final(self)@ == (MachineV {
                    stack: old(self)@.stack.push(v@),
                    ..old(self)@
                }),
                Err(e) => r matches Err(x) && x@ == e@,
            },
    {
        match res {
            Ok(v) => {
                self.push(v);
                Ok(Event::Continue)
            },
            Err(e) => Err(e),
        }
    }
}


// ---------------------------------------------------------------------------
// Fields and indexing

/// `GetField` on a value.
fn get_field_value(obj: &Value, f: &String) -> (r: Result<Value, VmError>)
    ensures
        match get_field_v(obj@, f@) {
            Ok(v) => r matches Ok(x) && x@ == v,
            Err(e) => r matches Err(x) && x@ == e,
        },
{
    let is_len = str_eq(f.as_str(), "len");
    match obj {
        Value::Str(x) => if is_len {
            Ok(Value::Int(x.unicode_len() as i64))
        } else {
            Err(VmError::NoProperty("string".to_owned(), copy_string(f)))
        },
        Value::Bytes(x) => if is_len {
            Ok(Value::Int(x.len() as i64))
        } else {
            Err(VmError::NoProperty("bytes".to_owned(), copy_string(f)))
        },
        Value::List(x) => {
            proof {
                lemma_values_view(x@);
            }
            if is_len {
                Ok(Value::Int(x.len() as i64))
            } else {
                Err(VmError::NoProperty("list".to_owned(), copy_string(f)))
            }
        },
        Value::Mapping(fs) => {
            proof {
                lemma_fields_view(fs@);
            }
            if is_len {
                Ok(Value::Int(fs.len() as i64))
            } else {
                match field_index(fs, f) {
                    Some(i) => Ok(copy_value(&fs[i].1)),
                    None => Err(VmError::KeyNotInMap(copy_string(f))),
                }
            }
        },
        Value::Object(_, fs) => match field_index(fs, f) {
            Some(i) => Ok(copy_value(&fs[i].1)),
            None => Err(VmError::NoField(copy_string(f))),
        },
        _ => Err(VmError::CannotGetField(copy_value(obj))),
    }
}

/// `IndexGet` on a value.
fn index_get_value(obj: &Value, idx: &Value) -> (r: Result<Value, VmError>)
    ensures
        match index_get_v(obj@, idx@) {
            Ok(v) => r matches Ok(x) && x@ == v,
            Err(e) => r matches Err(x) && x@ == e,
        },
{
    match (obj, idx) {
        (Value::List(items), Value::Int(i)) => {
            proof {
                lemma_values_view(items@);
            }
            if 0 <= *i && (*i as u64) < (items.len() as u64) {
                Ok(copy_value(&items[*i as usize]))
            } else {
                Err(VmError::IndexError(int_to_string(*i)))
            }
        },
        (Value::Str(s), Value::Int(i)) => {
            let chars = string_to_chars(s.as_str());
            if 0 <= *i && (*i as u64) < (chars.len() as u64) {
                let one: [char; 1] = [chars[*i as usize]];
                assert(one@ =~= seq![s@[*i as int]]);
                Ok(Value::Str(chars_to_string(&one)))
            } else {
                Err(VmError::IndexError(int_to_string(*i)))
            }
        },
        (Value::Bytes(b), Value::Int(i)) => {
            if 0 <= *i && (*i as u64) < (b.len() as u64) {
                Ok(Value::Int(b[*i as usize] as i64))
            } else {
                Err(VmError::IndexError(int_to_string(*i)))
            }
        },
        (Value::Mapping(fs), Value::Str(k)) => match field_index(fs, k) {
            Some(j) => Ok(copy_value(&fs[j].1)),
            None => Err(VmError::KeyNotFound(copy_string(k))),
        },
        _ => Err(VmError::CannotIndex(copy_value(obj), copy_value(idx))),
    }
}

/// `IndexSet` on a value.
fn index_set_value(obj: Value, idx: Value, v: Value) -> (r: Result<Value, VmError>)
    ensures
        match index_set_v(obj@, idx@, v@) {
            Ok(x) => r matches Ok(y) && y@ == x,
            Err(e) => r matches Err(y) && y@ == e,
        },
{
    match (obj, idx) {
        (Value::List(mut items), Value::Int(i)) => {
            proof {
                lemma_values_view(items@);
            }
            if 0 <= i && (i as u64) < (items.len() as u64) {
                let ghost before = items@;
                items.set(i as usize, v);
                proof {
                    lemma_values_view(items@);
                    assert(values_view(items@) =~= values_view(before).update(i as int, v@));
                }
                Ok(Value::List(items))
            } else {
                Err(VmError::IndexError(int_to_string(i)))
            }
        },
        (Value::Mapping(mut fs), Value::Str(k)) => {
            set_field(&mut fs, k, v);
            Ok(Value::Mapping(fs))
        },
        (o, i) => Err(VmError::CannotIndexSet(o, i)),
    }
}


// ---------------------------------------------------------------------------
// Calls

/// Binds parameters to arguments in `env`, in order, as far as both go.
fn bind_params(env: &mut Environment, params: &Vec<String>, args: &Vec<Value>)
    ensures
        final(env)@.slots == old(env)@.slots,
        final(env)@.vars == bind_args(old(env)@.vars, names_view(params@), values_view(args@)),
{
    let ghost pv = names_view(params@);
    let ghost av = values_view(args@);
    proof {
        lemma_values_view(args@);
        assert(pv.skip(0) =~= pv);
        assert(av.skip(0) =~= av);
    }
    let mut k: usize = 0;
    while k < params.len() && k < args.len()
        invariant
            k <= params.len(),
            k <= args.len(),
            pv == names_view(params@),
            av == values_view(args@),
            pv.len() == params@.len(),
            av.len() == args@.len(),
            forall|j: int| 0 <= j < args@.len() ==> #[trigger] av[j] == args@[j]@,
            env@.slots == old(env)@.slots,
            bind_args(old(env)@.vars, pv, av) == bind_args(env@.vars, pv.skip(k as int), av.skip(k as int)),
        decreases params.len() - k,
    {
        assert(pv.skip(k as int)[0] == pv[k as int]);
        assert(av.skip(k as int)[0] == av[k as int]);
        assert(pv.skip(k as int).drop_first() =~= pv.skip(k + 1));
        assert(av.skip(k as int).drop_first() =~= av.skip(k + 1));
        env.set(copy_string(&params[k]), copy_value(&args[k]));
        k = k + 1;
    }
    proof {
        if k == params.len() {
            assert(pv.skip(k as int).len() == 0);
        } else {
            assert(av.skip(k as int).len() == 0);
        }
    }
}

/// The parameters other than `self`.
fn non_self_params(params: &Vec<String>) -> (r: Vec<String>)
    ensures
        names_view(r@) == method_params(names_view(params@)),
{
    let ghost pv = names_view(params@);
    proof {
        reveal(Seq::filter);
        assert(pv.take(0) =~= Seq::<Seq<char>>::empty());
    }
    let mut r: Vec<String> = Vec::new();
    assert(names_view(r@) =~= Seq::<Seq<char>>::empty());
    let mut k: usize = 0;
    while k < params.len()
        invariant
            k <= params.len(),
            pv == names_view(params@),
            names_view(r@) == pv.take(k as int).filter(|p: Seq<char>| p != "self"@),
        decreases params.len() - k,
    {
        proof {
            reveal(Seq::filter);
            assert(pv.take(k + 1).drop_last() =~= pv.take(k as int));
            assert(pv.take(k + 1).last() == params@[k as int]@);
        }
        if !str_eq(params[k].as_str(), "self") {
            let ghost before = r@;
            r.push(copy_string(&params[k]));
            assert(names_view(r@) =~= names_view(before).push(params@[k as int]@));
        }
        k = k + 1;
    }
    assert(pv.take(k as int) =~= pv);
    r
}

impl Machine {
    /// Enters a function: the caller's code and variables are kept in a frame.
    fn enter_function(&mut self, code: Chunk, env: Environment)
        requires
            old(self).wf(),
        ensures
            final(self).wf(),
            final(self)@ == (MachineV {
                code: code@,
                ip: 0,
                env: env@,
                frames: old(self)@.frames.push(FrameV {
                    return_ip: old(self)@.ip,
                    env: old(self)@.env,
                    code: old(self)@.code,
                }),
                ..old(self)@
            }),
    {
        let mut code = code;
        let mut env = env;
        std::mem::swap(&mut self.chunk, &mut code);
        std::mem::swap(&mut self.env, &mut env);
        let frame = Frame { return_ip: self.ip, return_env: env, return_chunk: code };
        self.frames.push(frame);
        self.ip = 0;
        assert(self@ =~= (MachineV {
            code: self.chunk@,
            ip: 0,
            env: self.env@,
            frames: old(self)@.frames.push(FrameV {
                return_ip: old(self)@.ip,
                env: old(self)@.env,
                code: old(self)@.code,
            }),
            ..old(self)@
        }));
    }

    fn call(&mut self, name: String, argc: usize) -> (r: Result<Event, VmError>)
        requires
            old(self).wf(),
        ensures
            final(self).wf(),
            step_agrees(r, final(self)@, exec_v(old(self)@, InstrV::Call(name@, argc))),
    {
        let args = self.pop_n(argc);
        match self.native.get(name.as_str()) {
            Some(_) => match self.native.call(name.as_str(), args) {
                Some(Ok(NativeResult::Value(v))) => {
                    self.push(v);
                    Ok(Event::Continue)
                },
                Some(Ok(NativeResult::Host(n, a))) => Ok(Event::Native(n, a)),
                Some(Err(e)) => Err(e),
                None => Err(VmError::UndefinedFunc(name)),
            },
            None => {
                let found = match self.functions.get(name.as_str()) {
                    Some(f) => Some((f.chunk.copy(), copy_names(&f.params))),
                    None => None,
                };
                match found {
                    Some((code, params)) => {
                        let mut env = Environment::new(0);
                        bind_params(&mut env, &params, &args);
                        self.enter_function(code, env);
                        Ok(Event::Continue)
                    },
                    None => Err(VmError::UndefinedFunc(name)),
                }
            },
        }
    }

    fn method_call(&mut self, method: String, argc: usize) -> (r: Result<Event, VmError>)
        requires
            old(self).wf(),
        ensures
            final(self).wf(),
            step_agrees(r, final(self)@, exec_v(old(self)@, InstrV::MethodCall(method@, argc))),
    {
        let args = self.pop_n(argc);
        let obj = self.pop();
        match &obj {
            Value::Object(t, _) => {
                let name = crate::lixer::emitter::mangle(t, &method);
                let found = match self.functions.get(name.as_str()) {
                    Some(f) => Some((f.chunk.copy(), copy_names(&f.params))),
                    None => None,
                };
                match found {
                    Some((code, params)) => {
                        let mut env = Environment::new(0);
                        let ghost ov = obj@;
                        env.set("self".to_owned(), obj);
                        let ps = non_self_params(&params);
                        bind_params(&mut env, &ps, &args);
                        self.enter_function(code, env);
                        Ok(Event::Continue)
                    },
                    None => Err(VmError::UndefinedMethod(copy_string(t), copy_string(&method))),
                }
            },
            _ => {
                let res = native_method(&obj, &method, &args);
                self.finish_value(res)
            },
        }
    }

    fn ret(&mut self) -> (r: Result<Event, VmError>)
        requires
            old(self).wf(),
        ensures
            final(self).wf(),
            step_agrees(r, final(self)@, exec_v(old(self)@, InstrV::Return)),
    {
        let v = self.pop();
        let ghost mid = self@;
        match self.frames.pop() {
            Some(frame) => {
                self.ip = frame.return_ip;
                self.env = frame.return_env;
                self.chunk = frame.return_chunk;
                proof {
                    assert(self.frames@.map_values(|f: Frame| frame_view(f)) =~= mid.frames.drop_last());
                }
            },
            None => {},
        }
        self.push(v);
        Ok(Event::Continue)
    }

    fn throw(&mut self) -> (r: Result<Event, VmError>)
        requires
            old(self).wf(),
        ensures
            final(self).wf(),
            step_agrees(r, final(self)@, exec_v(old(self)@, InstrV::Throw)),
    {
        let err = self.pop();
        let ghost mid = self@;
        match self.catch_stack.pop() {
            Some(handler) => {
                self.ip = handler.catch_ip;
                self.env = handler.return_env;
                self.chunk = handler.return_chunk;
                proof {
                    assert(self.catch_stack@.map_values(|h: CatchHandler| handler_view(h)) =~= mid.handlers.drop_last());
                }
                self.push(err);
                Ok(Event::Continue)
            },
            None => Err(VmError::UncaughtError(err)),
        }
    }

    fn try_catch(&mut self, catch_ip: usize, end_ip: usize) -> (r: Result<Event, VmError>)
        requires
            old(self).wf(),
        ensures
            final(self).wf(),
            step_agrees(r, final(self)@, exec_v(old(self)@, InstrV::TryCatch(catch_ip, end_ip))),
    {
        let handler = CatchHandler {
            catch_ip,
            return_ip: self.ip,
            return_env: self.env.copy(),
            return_chunk: self.chunk.copy(),
        };
        self.catch_stack.push(handler);
        assert(self@.handlers =~= old(self)@.handlers.push(HandlerV {
            catch_ip,
            return_ip: old(self)@.ip,
            env: old(self)@.env,
            code: old(self)@.code,
        }));
        Ok(Event::Continue)
    }
}


pub open spec fn pairs_view(ps: Seq<(Value, Value)>) -> Seq<(ValueV, ValueV)> {
    ps.map_values(|p: (Value, Value)| (p.0@, p.1@))
}

impl Machine {
    fn construct(&mut self, t: String, names: Vec<String>) -> (r: Result<Event, VmError>)
        requires
            old(self).wf(),
        ensures
            final(self).wf(),
            step_agrees(r, final(self)@, exec_v(old(self)@, InstrV::Construct(t@, names_view(names@)))),
    {
        let ghost nv = names_view(names@);
        let vals = self.pop_n(names.len());
        let ghost vv = values_view(vals@);
        proof {
            lemma_values_view(vals@);
            assert(nv.skip(0) =~= nv);
            assert(vv.skip(0) =~= vv);
        }
        let mut fields: Vec<(String, Value)> = Vec::new();
        assert(fields_view(fields@) =~= Seq::<(Seq<char>, ValueV)>::empty());
        let mut k: usize = 0;
        while k < names.len()
            invariant
                k <= names.len(),
                names@.len() == vals@.len(),
                nv == names_view(names@),
                vv == values_view(vals@),
                nv.len() == names@.len(),
                vv.len() == vals@.len(),
                forall|j: int| 0 <= j < vals@.len() ==> #[trigger] vv[j] == vals@[j]@,
                construct_from(nv, vv, Seq::empty()) == construct_from(
                    nv.skip(k as int),
                    vv.skip(k as int),
                    fields_view(fields@),
                ),
            decreases names.len() - k,
        {
            assert(nv.skip(k as int)[0] == nv[k as int]);
            assert(vv.skip(k as int)[0] == vv[k as int]);
            assert(nv.skip(k as int).drop_first() =~= nv.skip(k + 1));
            assert(vv.skip(k as int).drop_first() =~= vv.skip(k + 1));
            match field_index(&fields, &names[k]) {
                Some(_) => {},
                None => {
                    let e = (copy_string(&names[k]), copy_value(&vals[k]));
                    proof {
                        crate::lixvm::value::lemma_fields_view_push(fields@, e);
                    }
                    fields.push(e);
                },
            }
            k = k + 1;
        }
        proof {
            assert(nv.skip(k as int).len() == 0);
        }
        self.push(Value::Object(t, fields));
        Ok(Event::Continue)
    }

    fn new_map(&mut self, n: usize) -> (r: Result<Event, VmError>)
        requires
            old(self).wf(),
        ensures
            final(self).wf(),
            step_agrees(r, final(self)@, exec_v(old(self)@, InstrV::NewMap(n))),
    {
        let ghost total = pop_pairs_v(old(self)@.stack, n as nat);
        let mut ps: Vec<(Value, Value)> = Vec::new();
        let mut j: usize = 0;
        proof {
            assert(pairs_view(ps@).reverse() =~= Seq::<(ValueV, ValueV)>::empty());
            assert(pop_pairs_v(self@.stack, n as nat).0 + Seq::<(ValueV, ValueV)>::empty() =~= pop_pairs_v(
                self@.stack,
                n as nat,
            ).0);
        }
        while j < n
            invariant
                j <= n,
                self.wf(),
                self@ == (MachineV { stack: self@.stack, ..old(self)@ }),
                total.0 == pop_pairs_v(self@.stack, (n - j) as nat).0 + pairs_view(ps@).reverse(),
                total.1 == pop_pairs_v(self@.stack, (n - j) as nat).1,
                ps@.len() == j,
            decreases n - j,
        {
            let ghost cur = self@.stack;
            let ghost rest = pop_pairs_v(pop_v(pop_v(cur).1).1, (n - j - 1) as nat);
            let v = self.pop();
            let k = self.pop();
            let ghost before = pairs_view(ps@);
            ps.push((k, v));
            proof {
                assert(pairs_view(ps@) =~= before.push((k@, v@)));
                assert(pairs_view(ps@).reverse() =~= seq![(k@, v@)] + before.reverse());
                assert(rest.0.push((k@, v@)) + before.reverse() =~= rest.0 + pairs_view(ps@).reverse());
            }
            j = j + 1;
        }
        proof {
            assert(pop_pairs_v(self@.stack, 0).0 + pairs_view(ps@).reverse() =~= pairs_view(ps@).reverse());
        }
        let ghost es = pairs_view(ps@).reverse();
        let mut fields: Vec<(String, Value)> = Vec::new();
        assert(fields_view(fields@) =~= Seq::<(Seq<char>, ValueV)>::empty());
        assert(es.skip(0) =~= es);
        let mut i: usize = 0;
        while i < ps.len()
            invariant
                i <= ps.len(),
                es == pairs_view(ps@).reverse(),
                es.len() == ps@.len(),
                self.wf(),
                map_from(es, Seq::empty()) == map_from(es.skip(i as int), fields_view(fields@)),
            decreases ps.len() - i,
        {
            let q = ps.len() - 1 - i;
            assert(es.skip(i as int)[0] == es[i as int]);
            assert(es[i as int] == (ps@[q as int].0@, ps@[q as int].1@));
            assert(es.skip(i as int).drop_first() =~= es.skip(i + 1));
            match &ps[q].0 {
                Value::Str(key) => match field_index(&fields, key) {
                    Some(_) => {},
                    None => {
                        let e = (copy_string(key), copy_value(&ps[q].1));
                        proof {
                            crate::lixvm::value::lemma_fields_view_push(fields@, e);
                        }
                        fields.push(e);
                    },
                },
                _ => {},
            }
            i = i + 1;
        }
        assert(es.skip(i as int).len() == 0);
        self.push(Value::Mapping(fields));
        Ok(Event::Continue)
    }
}


impl Machine {
    fn binary(&mut self) -> (r: (Value, Value))
        requires
            old(self).wf(),
        ensures
            final(self).wf(),
            r.1@ == pop_v(old(self)@.stack).0,
            r.0@ == pop_v(pop_v(old(self)@.stack).1).0,
            final(self)@ == (MachineV { stack: pop_v(pop_v(old(self)@.stack).1).1, ..old(self)@ }),
    {
        let r = self.pop();
        let l = self.pop();
        (l, r)
    }

    /// Runs one instruction; `ip` is already past it.
    #[verifier::rlimit(100)]
    fn exec(&mut self, instr: Instruction) -> (r: Result<Event, VmError>)
        requires
            old(self).wf(),
        ensures
            final(self).wf(),
            step_agrees(r, final(self)@, exec_v(old(self)@, instr@)),
    {
        match instr {
            Instruction::LoadInt(n) => {
                self.push(Value::Int(n));
                Ok(Event::Continue)
            },
            Instruction::LoadFloat(b) => Ok(Event::LoadFloat(b)),
            Instruction::LoadStr(s) => {
                self.push(Value::Str(s));
                Ok(Event::Continue)
            },
            Instruction::LoadBool(b) => {
                self.push(Value::Bool(b));
                Ok(Event::Continue)
            },
            Instruction::LoadNull => {
                self.push(Value::Null);
                Ok(Event::Continue)
            },
            Instruction::LoadConst(_) => Ok(Event::Continue),
            Instruction::LoadVar(name) => {
                let found = match self.env.get(&name) {
                    Some(v) => Some(copy_value(v)),
                    None => None,
                };
                match found {
                    Some(v) => {
                        self.push(v);
                        Ok(Event::Continue)
                    },
                    None => Err(VmError::UndefinedVar(name)),
                }
            },
            Instruction::StoreVar(name) => {
                let v = self.pop();
                self.env.set(name, v);
                Ok(Event::Continue)
            },
            Instruction::LoadSlot(k) => {
                if (k as usize) < self.env.slot_count() {
                    let v = copy_value(self.env.get_slot(k));
                    self.push(v);
                    Ok(Event::Continue)
                } else {
                    Err(VmError::Other("slot out of range".to_owned()))
                }
            },
            Instruction::StoreSlot(k) => {
                let v = self.pop();
                self.env.set_slot(k, v);
                Ok(Event::Continue)
            },
            Instruction::Add => {
                let (l, r) = self.binary();
                self.finish_arith(arithmetic::add(l, r))
            },
            Instruction::Sub => {
                let (l, r) = self.binary();
                self.finish_arith(arithmetic::sub(l, r))
            },
            Instruction::Mul => {
                let (l, r) = self.binary();
                self.finish_arith(arithmetic::mul(l, r))
            },
            Instruction::Div => {
                let (l, r) = self.binary();
                self.finish_arith(arithmetic::div(l, r))
            },
            Instruction::Mod => {
                let (l, r) = self.binary();
                self.finish_arith(arithmetic::rem(l, r))
            },
            Instruction::Eq => {
                let (l, r) = self.binary();
                self.finish_value(Ok(comparison::eq(l, r)))
            },
            Instruction::NotEq => {
                let (l, r) = self.binary();
                self.finish_value(Ok(comparison::not_eq(l, r)))
            },
            Instruction::Lt => {
                let (l, r) = self.binary();
                self.finish_value(comparison::lt(l, r))
            },
            Instruction::Gt => {
                let (l, r) = self.binary();
                self.finish_value(comparison::gt(l, r))
            },
            Instruction::LtEq => {
                let (l, r) = self.binary();
                self.finish_value(comparison::lt_eq(l, r))
            },
            Instruction::GtEq => {
                let (l, r) = self.binary();
                self.finish_value(comparison::gt_eq(l, r))
            },
            Instruction::And => {
                let (l, r) = self.binary();
                self.finish_value(logic::and(l, r))
            },
            Instruction::Or => {
                let (l, r) = self.binary();
                self.finish_value(logic::or(l, r))
            },
            Instruction::Not => {
                let v = self.pop();
                self.finish_value(logic::not(v))
            },
            Instruction::Bitwise(op) => {
                let (l, r) = self.binary();
                self.finish_value(bitwise::bitwise(op, l, r))
            },
            Instruction::Jump(t) => {
                self.ip = t;
                Ok(Event::Continue)
            },
            Instruction::JumpIfFalse(t) => {
                let v = self.pop();
                match logic::is_truthy(&v) {
                    Ok(b) => {
                        if !b {
                            self.ip = t;
                        }
                        Ok(Event::Continue)
                    },
                    Err(e) => Err(e),
                }
            },
            Instruction::Print => {
                let v = self.pop();
                Ok(Event::Output(v.stringify(), false))
            },
            Instruction::PrintLn => {
                let v = self.pop();
                Ok(Event::Output(v.stringify(), true))
            },
            Instruction::Call(name, argc) => self.call(name, argc),
            Instruction::Return => self.ret(),
            Instruction::Construct(t, names) => self.construct(t, names),
            Instruction::GetField(f) => {
                let obj = self.pop();
                let res = get_field_value(&obj, &f);
                self.finish_value(res)
            },
            Instruction::SetField(f) => {
                let v = self.pop();
                let obj = self.pop();
                match obj {
                    Value::Object(t, fs) => {
                        let mut fs = fs;
                        set_field(&mut fs, f, v);
                        self.push(Value::Object(t, fs));
                        Ok(Event::Continue)
                    },
                    _ => Err(VmError::CannotSetField),
                }
            },
            Instruction::MethodCall(method, argc) => self.method_call(method, argc),
            Instruction::Deinit => Ok(Event::Continue),
            Instruction::Throw => self.throw(),
            Instruction::TryCatch(c, e) => self.try_catch(c, e),
            Instruction::LoadBytes(b) => {
                self.push(Value::Bytes(b));
                Ok(Event::Continue)
            },
            Instruction::NewList(n) => {
                let items = self.pop_n(n);
                self.push(Value::List(items));
                Ok(Event::Continue)
            },
            Instruction::NewMap(n) => self.new_map(n),
            Instruction::IndexGet => {
                let (obj, idx) = self.binary();
                let res = index_get_value(&obj, &idx);
                self.finish_value(res)
            },
            Instruction::IndexSet => {
                let v = self.pop();
                let (obj, idx) = self.binary();
                self.finish_value(index_set_value(obj, idx, v))
            },
            Instruction::Stringify => {
                let v = self.pop();
                let s = v.stringify();
                self.push(Value::Str(s));
                Ok(Event::Continue)
            },
            Instruction::Pop => {
                self.pop();
                Ok(Event::Continue)
            },
            Instruction::Halt => Ok(Event::Halt),
        }
    }

    /// Runs the instruction at `ip`, or halts past the end of the code.
    pub fn step(&mut self) -> (r: Result<Event, VmError>)
        requires
            old(self).wf(),
        ensures
            final(self).wf(),
            step_agrees(r, final(self)@, step_v(old(self)@)),
    {
        if self.ip >= self.chunk.len() {
            return Ok(Event::Halt);
        }
        assert(self.chunk@[self.ip as int] == self.chunk.code@[self.ip as int]@);
        let instr = copy_instruction(&self.chunk.code[self.ip]);
        self.ip = self.ip + 1;
        self.exec(instr)
    }
}


// ---------------------------------------------------------------------------
// Laws

/// A variable read right after a write gives back the written value: storing the top of
/// the stack in a variable and loading it again leaves the stack as it was.
pub proof fn law_store_then_load(m: MachineV, name: Seq<char>)
    ensures
        exec_v(m, InstrV::StoreVar(name)) matches Ok((m1, EventV::Continue)) && exec_v(m1, InstrV::LoadVar(name))
            == Ok::<(MachineV, EventV), VmErrorV>((
            MachineV { stack: pop_v(m.stack).1.push(pop_v(m.stack).0), ..m1 },
            EventV::Continue,
        )),
{
    let (v, s) = pop_v(m.stack);
    crate::lixvm::value::law_field_get_set(m.env.vars, name, v, name);
}

/// Conditions are strict booleans: a conditional jump on a value that is not a boolean
/// is a type error.
pub proof fn law_condition_is_bool(m: MachineV, t: usize)
    requires
        m.stack.len() > 0,
        !(m.stack.last() is Bool),
    ensures
        exec_v(m, InstrV::JumpIfFalse(t)) == Err::<(MachineV, EventV), VmErrorV>(VmErrorV::ExpectedBool(m.stack.last())),
{
}

/// A call of a function and its return: after the return, the caller's code, position,
/// variables and frames are back, and the returned value is on the caller's stack.
pub proof fn law_call_then_return(m: MachineV, name: Seq<char>, f: FuncV, v: ValueV)
    requires
        native_lookup(native_names(), name) is None,
        table_get(m.functions, name) == Some(f),
    ensures
        exec_v(m, InstrV::Call(name, 0)) matches Ok((m1, EventV::Continue)) && exec_v(
            MachineV { stack: m1.stack.push(v), ..m1 },
            InstrV::Return,
        ) == Ok::<(MachineV, EventV), VmErrorV>((
            MachineV { stack: m.stack.push(v), ..m },
            EventV::Continue,
        )),
{
    let (args, s) = pop_n_v(m.stack, 0);
    assert(s =~= m.stack);
    let (m1, ev) = exec_v(m, InstrV::Call(name, 0))->Ok_0;
    let m2 = MachineV { stack: m1.stack.push(v), ..m1 };
    assert(m2.frames.drop_last() =~= m.frames);
    let (w, s2) = pop_v(m2.stack);
    assert(s2 =~= m.stack);
}

/// Names with no repetition.
pub open spec fn names_distinct(ps: Seq<Seq<char>>) -> bool {
    forall|i: int, j: int| 0 <= i < j < ps.len() ==> ps[i] != ps[j]
}

proof fn lemma_bind_keeps_others(vars: Seq<(Seq<char>, ValueV)>, ps: Seq<Seq<char>>, args: Seq<ValueV>, p: Seq<char>)
    requires
        !ps.contains(p),
    ensures
        field_get(bind_args(vars, ps, args), p) == field_get(vars, p),
    decreases ps.len(),
{
    if ps.len() > 0 && args.len() > 0 {
        assert(ps[0] != p);
        crate::lixvm::value::law_field_get_set(vars, ps[0], args[0], p);
        assert(!ps.drop_first().contains(p)) by {
            if ps.drop_first().contains(p) {
                let j = choose|j: int| 0 <= j < ps.drop_first().len() && ps.drop_first()[j] == p;
                assert(ps[j + 1] == p);
            }
        }
        lemma_bind_keeps_others(field_set(vars, ps[0], args[0]), ps.drop_first(), args.drop_first(), p);
    }
}

proof fn lemma_bind_in_order(vars: Seq<(Seq<char>, ValueV)>, ps: Seq<Seq<char>>, args: Seq<ValueV>, k: int)
    requires
        names_distinct(ps),
        0 <= k < ps.len(),
        k < args.len(),
    ensures
        field_get(bind_args(vars, ps, args), ps[k]) == Some(args[k]),
    decreases ps.len(),
{
    let rest = ps.drop_first();
    let v1 = field_set(vars, ps[0], args[0]);
    assert(names_distinct(rest)) by {
        assert forall|i: int, j: int| 0 <= i < j < rest.len() implies rest[i] != rest[j] by {
            assert(rest[i] == ps[i + 1] && rest[j] == ps[j + 1]);
        }
    }
    if k == 0 {
        assert(!rest.contains(ps[0])) by {
            if rest.contains(ps[0]) {
                let j = choose|j: int| 0 <= j < rest.len() && rest[j] == ps[0];
                assert(ps[j + 1] == ps[0]);
            }
        }
        crate::lixvm::value::law_field_get_set(vars, ps[0], args[0], ps[0]);
        lemma_bind_keeps_others(v1, rest, args.drop_first(), ps[0]);
    } else {
        lemma_bind_in_order(v1, rest, args.drop_first(), k - 1);
        assert(rest[k - 1] == ps[k]);
    }
}

/// Calling a user function binds its parameters to the arguments in source order: the
/// i-th parameter gets the i-th argument pushed (the deepest of the `n` top values is the
/// first), and the arguments leave the caller's stack.
pub proof fn law_call_binds_in_order(m: MachineV, name: Seq<char>, f: FuncV, n: nat, k: int)
    requires
        native_lookup(native_names(), name) is None,
        table_get(m.functions, name) == Some(f),
        names_distinct(f.params),
        n <= m.stack.len(),
        0 <= k < f.params.len(),
        k < n,
        n <= usize::MAX,
    ensures
        exec_v(m, InstrV::Call(name, n as usize)) matches Ok((m1, EventV::Continue)) && field_get(
            m1.env.vars,
            f.params[k],
        ) == Some(m.stack[m.stack.len() - n + k]) && m1.stack == m.stack.take(m.stack.len() - n),
{
    let args = m.stack.subrange(m.stack.len() - n, m.stack.len() as int);
    assert(pop_n_v(m.stack, n) == (args, m.stack.take(m.stack.len() - n)));
    lemma_bind_in_order(Seq::empty(), f.params, args, k);
}

/// Calling a method binds `self` to the object and the other parameters to the arguments in
/// source order.
pub proof fn law_method_call_binds_in_order(m: MachineV, t: Seq<char>, fs: Seq<(Seq<char>, ValueV)>, method: Seq<char>, f: FuncV, n: nat, k: int)
    requires
        n + 1 <= m.stack.len(),
        m.stack[m.stack.len() - n - 1] == ValueV::Object(t, fs),
        table_get(m.functions, mangled(t, method)) == Some(f),
        names_distinct(method_params(f.params)),
        0 <= k < method_params(f.params).len(),
        k < n,
        n <= usize::MAX,
    ensures
        exec_v(m, InstrV::MethodCall(method, n as usize)) matches Ok((m1, EventV::Continue)) && field_get(
            m1.env.vars,
            method_params(f.params)[k],
        ) == Some(m.stack[m.stack.len() - n + k]) && field_get(m1.env.vars, "self"@) == Some(
            ValueV::Object(t, fs),
        ),
{
    let args = m.stack.subrange(m.stack.len() - n, m.stack.len() as int);
    let s1 = m.stack.take(m.stack.len() - n);
    assert(pop_n_v(m.stack, n) == (args, s1));
    assert(s1.last() == ValueV::Object(t, fs));
    let obj = ValueV::Object(t, fs);
    let mp = method_params(f.params);
    let v0 = field_set(Seq::empty(), "self"@, obj);
    lemma_bind_in_order(v0, mp, args, k);
    assert(!mp.contains("self"@)) by {
        if mp.contains("self"@) {
            let j = choose|j: int| 0 <= j < mp.len() && mp[j] == "self"@;
            f.params.lemma_filter_pred(|p: Seq<char>| p != "self"@, j);
        }
    }
    lemma_bind_keeps_others(v0, mp, args, "self"@);
    crate::lixvm::value::law_field_get_set(Seq::empty(), "self"@, obj, "self"@);
}

/// The state after the instructions of `c` run one after another, the position aside; the
/// first error, or the first event other than `Continue`, ends the run.
pub open spec fn run_straight(m: MachineV, c: Seq<InstrV>) -> StepRes
    decreases c.len(),
{
    if c.len() == 0 {
        Ok((m, EventV::Continue))
    } else {
        match exec_v(m, c[0]) {
            Ok((m1, EventV::Continue)) => run_straight(m1, c.drop_first()),
            other => other,
        }
    }
}

/// The state with `v` pushed and nothing else changed.
pub open spec fn with_pushed(m: MachineV, v: ValueV) -> StepRes {
    Ok((MachineV { stack: m.stack.push(v), ..m }, EventV::Continue))
}

/// The code of `op` applied to two int literals.
pub open spec fn int_binary_code(op: BinOp, a: i64, b: i64, fl: Seq<(Seq<char>, u64)>, depth: nat) -> Result<Seq<InstrV>, crate::lixer::emitter::CompileErrorV> {
    expr_code(ExprV::Binary(op, Box::new(ExprV::Int(a)), Box::new(ExprV::Int(b))), fl, depth)
}

#[verifier::spinoff_prover]
#[verifier::rlimit(50)]
proof fn lemma_run_int_binary(m: MachineV, op: BinOp, a: i64, b: i64, fl: Seq<(Seq<char>, u64)>, depth: nat)
    requires
        op != BinOp::Range,
    ensures
        int_binary_code(op, a, b, fl, depth) matches Ok(c) && run_straight(m, c) == exec_v(
            MachineV { stack: m.stack.push(ValueV::Int(a)).push(ValueV::Int(b)), ..m },
            c[2],
        ) && c.len() == 3,
{
    assert(expr_code(ExprV::Int(a), fl, depth) == Ok::<Seq<InstrV>, crate::lixer::emitter::CompileErrorV>(seq![InstrV::LoadInt(a)]));
    assert(expr_code(ExprV::Int(b), fl, depth) == Ok::<Seq<InstrV>, crate::lixer::emitter::CompileErrorV>(seq![InstrV::LoadInt(b)]));
    let c = seq![InstrV::LoadInt(a), InstrV::LoadInt(b)] + crate::lixer::emitter::bin_code(op);
    assert(seq![InstrV::LoadInt(a)] + seq![InstrV::LoadInt(b)] =~= seq![InstrV::LoadInt(a), InstrV::LoadInt(b)]);
    assert(int_binary_code(op, a, b, fl, depth) == Ok::<Seq<InstrV>, crate::lixer::emitter::CompileErrorV>(c));
    let x = crate::lixer::emitter::bin_code(op)[0];
    assert(c =~= seq![InstrV::LoadInt(a), InstrV::LoadInt(b), x]);
    let m1 = MachineV { stack: m.stack.push(ValueV::Int(a)), ..m };
    let m2 = MachineV { stack: m.stack.push(ValueV::Int(a)).push(ValueV::Int(b)), ..m };
    assert(exec_v(m, InstrV::LoadInt(a)) == Ok::<(MachineV, EventV), VmErrorV>((m1, EventV::Continue)));
    assert(exec_v(m1, InstrV::LoadInt(b)) == Ok::<(MachineV, EventV), VmErrorV>((m2, EventV::Continue)));
    assert(c.drop_first() =~= seq![InstrV::LoadInt(b), x]);
    assert(c.drop_first().drop_first() =~= seq![x]);
    assert(run_straight(m, c) == run_straight(m1, c.drop_first()));
    assert(run_straight(m1, c.drop_first()) == run_straight(m2, seq![x]));
    lemma_run_one(m2, x);
}

#[verifier::spinoff_prover]
proof fn lemma_run_one(m: MachineV, x: InstrV)
    ensures
        run_straight(m, seq![x]) == exec_v(m, x),
{
    assert(seq![x].drop_first() =~= Seq::<InstrV>::empty());
    match exec_v(m, x) {
        Ok((m3, EventV::Continue)) => {
            assert(run_straight(m3, Seq::<InstrV>::empty()) == Ok::<(MachineV, EventV), VmErrorV>((m3, EventV::Continue)));
        },
        _ => {},
    }
}

/// Each comparison of the language, compiled and run on two ints, pushes what the operator
/// means: `a < b`, `a > b`, `a <= b`, `a >= b`, `a == b`, `a != b`.
pub proof fn law_compiled_comparison(m: MachineV, op: BinOp, a: i64, b: i64, fl: Seq<(Seq<char>, u64)>, depth: nat)
    ensures
        int_binary_code(op, a, b, fl, depth) matches Ok(c) && (op == BinOp::Lt ==> run_straight(m, c) == with_pushed(m, ValueV::Bool(a < b))) && (op == BinOp::Gt ==> run_straight(m, c)
            == with_pushed(m, ValueV::Bool(a > b))) && (op == BinOp::LtEq ==> run_straight(m, c) == with_pushed(
            m,
            ValueV::Bool(a <= b),
        )) && (op == BinOp::GtEq ==> run_straight(m, c) == with_pushed(m, ValueV::Bool(a >= b))) && (op
            == BinOp::Eq ==> run_straight(m, c) == with_pushed(m, ValueV::Bool(a == b))) && (op == BinOp::NotEq
            ==> run_straight(m, c) == with_pushed(m, ValueV::Bool(a != b))),
{
    if op != BinOp::Range {
        lemma_run_int_binary(m, op, a, b, fl, depth);
        let m2 = MachineV { stack: m.stack.push(ValueV::Int(a)).push(ValueV::Int(b)), ..m };
        assert(m2.stack.drop_last().drop_last() =~= m.stack);
        assert(m2.stack.last() == ValueV::Int(b));
        assert(m2.stack.drop_last().last() == ValueV::Int(a));
    }
}

/// `+ - *` compiled and run on two ints push the sum, difference and product where it fits
/// in 64 bits and fail with an overflow where it does not; `/` and `%` on a nonnegative and a
/// positive int push quotient and remainder, and `/` by zero fails.
pub proof fn law_compiled_arithmetic(m: MachineV, op: BinOp, a: i64, b: i64, fl: Seq<(Seq<char>, u64)>, depth: nat)
    ensures
        int_binary_code(op, a, b, fl, depth) matches Ok(c) && (op == BinOp::Add ==> run_straight(m, c) == (if i64::MIN <= a + b <= i64::MAX {
            with_pushed(m, ValueV::Int((a + b) as i64))
        } else {
            Err(VmErrorV::Other("integer overflow"@))
        })) && (op == BinOp::Sub ==> run_straight(m, c) == (if i64::MIN <= a - b <= i64::MAX {
            with_pushed(m, ValueV::Int((a - b) as i64))
        } else {
            Err(VmErrorV::Other("integer overflow"@))
        })) && (op == BinOp::Mul ==> run_straight(m, c) == (if i64::MIN <= a * b <= i64::MAX {
            with_pushed(m, ValueV::Int((a * b) as i64))
        } else {
            Err(VmErrorV::Other("integer overflow"@))
        })) && (op == BinOp::Div && b == 0 ==> run_straight(m, c) == Err::<(MachineV, EventV), VmErrorV>(
            VmErrorV::DivisionByZero,
        )) && (op == BinOp::Div && a >= 0 && b > 0 ==> run_straight(m, c) == with_pushed(m, ValueV::Int((a / b) as i64)))
            && (op == BinOp::Mod && a >= 0 && b > 0 ==> run_straight(m, c) == with_pushed(m, ValueV::Int((a % b) as i64))),
{
    if op != BinOp::Range {
        lemma_run_int_binary(m, op, a, b, fl, depth);
        let m2 = MachineV { stack: m.stack.push(ValueV::Int(a)).push(ValueV::Int(b)), ..m };
        assert(m2.stack.drop_last().drop_last() =~= m.stack);
        assert(m2.stack.last() == ValueV::Int(b));
        assert(m2.stack.drop_last().last() == ValueV::Int(a));
        if a >= 0 && b > 0 {
            assert(0 <= a / b <= a) by (nonlinear_arith)
                requires a >= 0, b > 0;
            assert(0 <= a % b < b) by (nonlinear_arith)
                requires a >= 0, b > 0;
        }
    }
}

/// `& | ^` compiled and run on two ints push the bitwise and, or and exclusive or.
pub proof fn law_compiled_bitwise(m: MachineV, op: BitOp, a: i64, b: i64, fl: Seq<(Seq<char>, u64)>, depth: nat)
    ensures
        int_binary_code(BinOp::Bit(op), a, b, fl, depth) matches Ok(c) && (op == BitOp::And ==> run_straight(m, c) == with_pushed(
            m,
            ValueV::Int(a & b),
        )) && (op == BitOp::Or ==> run_straight(m, c) == with_pushed(m, ValueV::Int(a | b))) && (op
            == BitOp::Xor ==> run_straight(m, c) == with_pushed(m, ValueV::Int(a ^ b))),
{
    lemma_run_int_binary(m, BinOp::Bit(op), a, b, fl, depth);
    let m2 = MachineV { stack: m.stack.push(ValueV::Int(a)).push(ValueV::Int(b)), ..m };
    assert(m2.stack.drop_last().drop_last() =~= m.stack);
    assert(m2.stack.last() == ValueV::Int(b));
    assert(m2.stack.drop_last().last() == ValueV::Int(a));
}

/// Source text `a t b`, with two ints and one operator token, parses, compiles and runs to
/// what the operator means: the comparisons give `a < b`, `a > b`, `a <= b`, `a >= b`,
/// `a == b`, `a != b`; `+ - *` give the sum, difference and product where they fit in 64
/// bits; `/` and `%` give quotient and remainder of a nonnegative by a positive int.
pub proof fn law_source_operator_runs(m: MachineV, a: i64, t: TokenV, b: i64, fl: Seq<(Seq<char>, u64)>, depth: nat)
    requires
        binary_token_op(t) is Some,
    ensures
        p_expr(seq![TokenV::Int(a), t, TokenV::Int(b), TokenV::Eof], 0) matches Ok((e, q)) && q == 3 && (expr_code(
            e,
            fl,
            depth,
        ) matches Ok(c) && (t == TokenV::Lt ==> run_straight(m, c) == with_pushed(m, ValueV::Bool(a < b))) && (t
            == TokenV::Gt ==> run_straight(m, c) == with_pushed(m, ValueV::Bool(a > b))) && (t == TokenV::LtEq
            ==> run_straight(m, c) == with_pushed(m, ValueV::Bool(a <= b))) && (t == TokenV::GtEq ==> run_straight(
            m,
            c,
        ) == with_pushed(m, ValueV::Bool(a >= b))) && (t == TokenV::EqEq ==> run_straight(m, c) == with_pushed(
            m,
            ValueV::Bool(a == b),
        )) && (t == TokenV::NotEq ==> run_straight(m, c) == with_pushed(m, ValueV::Bool(a != b))) && (t
            == TokenV::Plus && i64::MIN <= a + b <= i64::MAX ==> run_straight(m, c) == with_pushed(
            m,
            ValueV::Int((a + b) as i64),
        )) && (t == TokenV::Minus && i64::MIN <= a - b <= i64::MAX ==> run_straight(m, c) == with_pushed(
            m,
            ValueV::Int((a - b) as i64),
        )) && (t == TokenV::Star && i64::MIN <= a * b <= i64::MAX ==> run_straight(m, c) == with_pushed(
            m,
            ValueV::Int((a * b) as i64),
        )) && (t == TokenV::Slash && a >= 0 && b > 0 ==> run_straight(m, c) == with_pushed(
            m,
            ValueV::Int((a / b) as i64),
        )) && (t == TokenV::Percent && a >= 0 && b > 0 ==> run_straight(m, c) == with_pushed(
            m,
            ValueV::Int((a % b) as i64),
        ))),
{
    law_binary_of_two_ints(a, t, b);
    let op = binary_token_op(t)->0;
    law_compiled_comparison(m, op, a, b, fl, depth);
    law_compiled_arithmetic(m, op, a, b, fl, depth);
}

#[verifier::spinoff_prover]
#[verifier::rlimit(50)]
proof fn lemma_run_bool_binary(m: MachineV, op: BinOp, x: bool, y: bool, fl: Seq<(Seq<char>, u64)>, depth: nat)
    requires
        op != BinOp::Range,
    ensures
        expr_code(ExprV::Binary(op, Box::new(ExprV::Bool(x)), Box::new(ExprV::Bool(y))), fl, depth) matches Ok(c)
            && run_straight(m, c) == exec_v(
            MachineV { stack: m.stack.push(ValueV::Bool(x)).push(ValueV::Bool(y)), ..m },
            c[2],
        ) && c.len() == 3,
{
    assert(expr_code(ExprV::Bool(x), fl, depth) == Ok::<Seq<InstrV>, crate::lixer::emitter::CompileErrorV>(seq![InstrV::LoadBool(x)]));
    assert(expr_code(ExprV::Bool(y), fl, depth) == Ok::<Seq<InstrV>, crate::lixer::emitter::CompileErrorV>(seq![InstrV::LoadBool(y)]));
    let c = seq![InstrV::LoadBool(x), InstrV::LoadBool(y)] + crate::lixer::emitter::bin_code(op);
    assert(seq![InstrV::LoadBool(x)] + seq![InstrV::LoadBool(y)] =~= seq![InstrV::LoadBool(x), InstrV::LoadBool(y)]);
    let e = ExprV::Binary(op, Box::new(ExprV::Bool(x)), Box::new(ExprV::Bool(y)));
    assert(expr_code(e, fl, depth) == Ok::<Seq<InstrV>, crate::lixer::emitter::CompileErrorV>(c));
    let z = crate::lixer::emitter::bin_code(op)[0];
    assert(c =~= seq![InstrV::LoadBool(x), InstrV::LoadBool(y), z]);
    let m1 = MachineV { stack: m.stack.push(ValueV::Bool(x)), ..m };
    let m2 = MachineV { stack: m.stack.push(ValueV::Bool(x)).push(ValueV::Bool(y)), ..m };
    assert(exec_v(m, InstrV::LoadBool(x)) == Ok::<(MachineV, EventV), VmErrorV>((m1, EventV::Continue)));
    assert(exec_v(m1, InstrV::LoadBool(y)) == Ok::<(MachineV, EventV), VmErrorV>((m2, EventV::Continue)));
    assert(c.drop_first() =~= seq![InstrV::LoadBool(y), z]);
    assert(c.drop_first().drop_first() =~= seq![z]);
    assert(run_straight(m, c) == run_straight(m1, c.drop_first()));
    assert(run_straight(m1, c.drop_first()) == run_straight(m2, seq![z]));
    lemma_run_one(m2, z);
}

/// `and`, `or` and `not` compiled and run on booleans push the conjunction, the disjunction
/// and the negation.
pub proof fn law_compiled_logic(m: MachineV, op: BinOp, x: bool, y: bool, fl: Seq<(Seq<char>, u64)>, depth: nat)
    ensures
        expr_code(ExprV::Binary(op, Box::new(ExprV::Bool(x)), Box::new(ExprV::Bool(y))), fl, depth) matches Ok(c)
            && (op == BinOp::And ==> run_straight(m, c) == with_pushed(m, ValueV::Bool(x && y))) && (op == BinOp::Or
            ==> run_straight(m, c) == with_pushed(m, ValueV::Bool(x || y))),
        expr_code(ExprV::Not(Box::new(ExprV::Bool(x))), fl, depth) matches Ok(c) && run_straight(m, c) == with_pushed(
            m,
            ValueV::Bool(!x),
        ),
{
    if op != BinOp::Range {
        lemma_run_bool_binary(m, op, x, y, fl, depth);
        let m2 = MachineV { stack: m.stack.push(ValueV::Bool(x)).push(ValueV::Bool(y)), ..m };
        assert(m2.stack.drop_last().drop_last() =~= m.stack);
        assert(m2.stack.last() == ValueV::Bool(y));
        assert(m2.stack.drop_last().last() == ValueV::Bool(x));
    }
    assert(expr_code(ExprV::Bool(x), fl, depth) == Ok::<Seq<InstrV>, crate::lixer::emitter::CompileErrorV>(seq![InstrV::LoadBool(x)]));
    let c = seq![InstrV::LoadBool(x)].push(InstrV::Not);
    assert(expr_code(ExprV::Not(Box::new(ExprV::Bool(x))), fl, depth) == Ok::<Seq<InstrV>, crate::lixer::emitter::CompileErrorV>(c));
    let m1 = MachineV { stack: m.stack.push(ValueV::Bool(x)), ..m };
    assert(exec_v(m, InstrV::LoadBool(x)) == Ok::<(MachineV, EventV), VmErrorV>((m1, EventV::Continue)));
    assert(c.drop_first() =~= seq![InstrV::Not]);
    assert(run_straight(m, c) == run_straight(m1, seq![InstrV::Not]));
    lemma_run_one(m1, InstrV::Not);
    assert(m1.stack.drop_last() =~= m.stack);
}

/// A conditional jump takes the condition off the stack and goes to its target exactly
/// when the condition is `false`; on `true` it goes on with the next instruction.
pub proof fn law_branch_on_false(m: MachineV, t: usize, b: bool)
    requires
        m.stack.len() > 0,
        m.stack.last() == ValueV::Bool(b),
    ensures
        exec_v(m, InstrV::JumpIfFalse(t)) == Ok::<(MachineV, EventV), VmErrorV>((
            MachineV { stack: m.stack.drop_last(), ip: if b { m.ip } else { t }, ..m },
            EventV::Continue,
        )),
{
}

/// Reading an index after writing it gives the written value back; the other int indices of
/// a list, and the other string keys of a map, read as before, and a list keeps its length.
pub proof fn law_index_read_after_write(obj: ValueV, idx: ValueV, v: ValueV, other: ValueV)
    requires
        index_set_v(obj, idx, v) is Ok,
    ensures
        index_get_v(index_set_v(obj, idx, v)->Ok_0, idx) == Ok::<ValueV, VmErrorV>(v),
        other != idx && (other is Int && idx is Int || other is Str && idx is Str) ==> index_get_v(
            index_set_v(obj, idx, v)->Ok_0,
            other,
        ) == index_get_v(obj, other),
        obj matches ValueV::List(items) ==> index_set_v(obj, idx, v)->Ok_0 matches ValueV::List(r) && r.len()
            == items.len(),
{
    match (obj, idx) {
        (ValueV::List(items), ValueV::Int(i)) => {
            let r = items.update(i as int, v);
            match other {
                ValueV::Int(j) => {
                    if j != i && 0 <= j < items.len() {
                        assert(r[j as int] == items[j as int]);
                    }
                },
                _ => {},
            }
        },
        (ValueV::Mapping(fs), ValueV::Str(k)) => {
            crate::lixvm::value::law_field_get_set(fs, k, v, k);
            match other {
                ValueV::Str(k2) => {
                    crate::lixvm::value::law_field_get_set(fs, k, v, k2);
                },
                _ => {},
            }
        },
        _ => {},
    }
}

/// A value thrown while the handler of a `try` is the innermost one lands in its `catch`: the
/// code, position and variables of the `try` come back, the handler is gone, and the thrown
/// value is on top of the stack. With no handler, the throw is an uncaught error.
pub proof fn law_throw_lands_in_catch(m: MachineV, catch_ip: usize, end_ip: usize, later: MachineV)
    requires
        exec_v(m, InstrV::TryCatch(catch_ip, end_ip)) matches Ok((m1, _)) && later.handlers == m1.handlers,
        later.stack.len() > 0,
    ensures
        exec_v(later, InstrV::Throw) == Ok::<(MachineV, EventV), VmErrorV>((
            MachineV {
                ip: catch_ip,
                env: m.env,
                code: m.code,
                handlers: m.handlers,
                stack: later.stack.drop_last().push(later.stack.last()),
                ..later
            },
            EventV::Continue,
        )),
        m.handlers.len() == 0 ==> exec_v(MachineV { handlers: m.handlers, ..later }, InstrV::Throw) == Err::<
            (MachineV, EventV),
            VmErrorV,
        >(VmErrorV::UncaughtError(later.stack.last())),
{
    let m1 = exec_v(m, InstrV::TryCatch(catch_ip, end_ip))->Ok_0.0;
    assert(m1.handlers.drop_last() =~= m.handlers);
}

/// `print(n)` and `println(n)` of an int, compiled and run, hand the host the decimal text of
/// `n` with no newline and with a newline; the stack is as before.
pub proof fn law_print_statements(m: MachineV, n: i64, pos: nat, in_loop: bool, ft: TableV, fl: Seq<(Seq<char>, u64)>)
    ensures
        stmt_code(crate::lixer::ast::StmtV::Print(ExprV::Int(n)), pos, in_loop, ft, fl) matches Ok((c, _)) && run_straight(m, c)
            == Ok::<(MachineV, EventV), VmErrorV>((m, EventV::Output(crate::text::int_text(n as int), false))),
        stmt_code(crate::lixer::ast::StmtV::PrintLn(ExprV::Int(n)), pos, in_loop, ft, fl) matches Ok((c, _)) && run_straight(m, c)
            == Ok::<(MachineV, EventV), VmErrorV>((m, EventV::Output(crate::text::int_text(n as int), true))),
{
    assert(expr_code(ExprV::Int(n), fl, crate::lixer::emitter::fstring_depth()) == Ok::<Seq<InstrV>, crate::lixer::emitter::CompileErrorV>(seq![InstrV::LoadInt(n)]));
    let m1 = MachineV { stack: m.stack.push(ValueV::Int(n)), ..m };
    assert(exec_v(m, InstrV::LoadInt(n)) == Ok::<(MachineV, EventV), VmErrorV>((m1, EventV::Continue)));
    assert(m1.stack.drop_last() =~= m.stack);
    assert(m1.stack.last() == ValueV::Int(n));
    let c1 = seq![InstrV::LoadInt(n)] + seq![InstrV::Print];
    let c2 = seq![InstrV::LoadInt(n)] + seq![InstrV::PrintLn];
    assert(c1.drop_first() =~= seq![InstrV::Print]);
    assert(c2.drop_first() =~= seq![InstrV::PrintLn]);
    assert(run_straight(m, c1) == run_straight(m1, seq![InstrV::Print]));
    assert(run_straight(m, c2) == run_straight(m1, seq![InstrV::PrintLn]));
    lemma_run_one(m1, InstrV::Print);
    lemma_run_one(m1, InstrV::PrintLn);
    assert(MachineV { stack: m1.stack.drop_last(), ..m1 } == m);
}

/// Int literals as expressions, as load instructions, and as values.
pub open spec fn int_exprs(xs: Seq<i64>) -> Seq<ExprV> {
    xs.map_values(|x: i64| ExprV::Int(x))
}

pub open spec fn int_loads(xs: Seq<i64>) -> Seq<InstrV> {
    xs.map_values(|x: i64| InstrV::LoadInt(x))
}

pub open spec fn int_values(xs: Seq<i64>) -> Seq<ValueV> {
    xs.map_values(|x: i64| ValueV::Int(x))
}

proof fn lemma_exprs_code_ints(xs: Seq<i64>, fl: Seq<(Seq<char>, u64)>, depth: nat)
    ensures
        crate::lixer::emitter::exprs_code(int_exprs(xs), fl, depth) == Ok::<Seq<InstrV>, crate::lixer::emitter::CompileErrorV>(int_loads(xs)),
    decreases xs.len(),
{
    if xs.len() > 0 {
        let rest = xs.drop_first();
        lemma_exprs_code_ints(rest, fl, depth);
        assert(int_exprs(xs).drop_first() =~= int_exprs(rest));
        assert(int_exprs(xs)[0] == ExprV::Int(xs[0]));
        assert(expr_code(ExprV::Int(xs[0]), fl, depth) == Ok::<Seq<InstrV>, crate::lixer::emitter::CompileErrorV>(seq![InstrV::LoadInt(xs[0])]));
        assert(seq![InstrV::LoadInt(xs[0])] + int_loads(rest) =~= int_loads(xs));
    } else {
        assert(int_exprs(xs) =~= Seq::<ExprV>::empty());
        assert(int_loads(xs) =~= Seq::<InstrV>::empty());
    }
}

proof fn lemma_run_loads(m: MachineV, xs: Seq<i64>)
    ensures
        run_straight(m, int_loads(xs)) == Ok::<(MachineV, EventV), VmErrorV>((
            MachineV { stack: m.stack + int_values(xs), ..m },
            EventV::Continue,
        )),
    decreases xs.len(),
{
    if xs.len() > 0 {
        let rest = xs.drop_first();
        let m1 = MachineV { stack: m.stack.push(ValueV::Int(xs[0])), ..m };
        assert(int_loads(xs)[0] == InstrV::LoadInt(xs[0]));
        assert(exec_v(m, InstrV::LoadInt(xs[0])) == Ok::<(MachineV, EventV), VmErrorV>((m1, EventV::Continue)));
        assert(int_loads(xs).drop_first() =~= int_loads(rest));
        lemma_run_loads(m1, rest);
        assert(m1.stack + int_values(rest) =~= m.stack + int_values(xs));
    } else {
        assert(int_loads(xs) =~= Seq::<InstrV>::empty());
        assert(m.stack + int_values(xs) =~= m.stack);
    }
}

proof fn lemma_run_concat(m: MachineV, a: Seq<InstrV>, b: Seq<InstrV>)
    ensures
        run_straight(m, a + b) == (match run_straight(m, a) {
            Ok((m1, EventV::Continue)) => run_straight(m1, b),
            other => other,
        }),
    decreases a.len(),
{
    if a.len() == 0 {
        assert(a + b =~= b);
    } else {
        assert((a + b)[0] == a[0]);
        assert((a + b).drop_first() =~= a.drop_first() + b);
        match exec_v(m, a[0]) {
            Ok((m1, EventV::Continue)) => {
                lemma_run_concat(m1, a.drop_first(), b);
            },
            _ => {},
        }
    }
}

/// Compiling and running a call of a user function on int arguments `x0, ..., x(n-1)` enters
/// the function with its `k`-th parameter bound to `xk`: `sub(5, 3)` binds the first
/// parameter to 5 and the second to 3.
pub proof fn law_compiled_call_binds_arguments(
    m: MachineV,
    name: Seq<char>,
    f: FuncV,
    xs: Seq<i64>,
    k: int,
    fl: Seq<(Seq<char>, u64)>,
    depth: nat,
)
    requires
        native_lookup(native_names(), name) is None,
        table_get(m.functions, name) == Some(f),
        names_distinct(f.params),
        0 <= k < f.params.len(),
        k < xs.len(),
        xs.len() <= usize::MAX,
    ensures
        expr_code(ExprV::Call { callee: Box::new(ExprV::Ident(name)), args: int_exprs(xs) }, fl, depth) matches Ok(c)
            && run_straight(m, c) matches Ok((m1, EventV::Continue)) && field_get(m1.env.vars, f.params[k]) == Some(
            ValueV::Int(xs[k]),
        ),
{
    lemma_exprs_code_ints(xs, fl, depth);
    let n = xs.len();
    assert(int_exprs(xs).len() == n);
    let loads = int_loads(xs);
    let c = loads.push(InstrV::Call(name, n as usize));
    assert(expr_code(ExprV::Call { callee: Box::new(ExprV::Ident(name)), args: int_exprs(xs) }, fl, depth)
        == Ok::<Seq<InstrV>, crate::lixer::emitter::CompileErrorV>(c));
    assert(c =~= loads + seq![InstrV::Call(name, n as usize)]);
    lemma_run_concat(m, loads, seq![InstrV::Call(name, n as usize)]);
    lemma_run_loads(m, xs);
    let m2 = MachineV { stack: m.stack + int_values(xs), ..m };
    lemma_run_one(m2, InstrV::Call(name, n as usize));
    law_call_binds_in_order(m2, name, f, n, k);
    assert(m2.stack[m2.stack.len() - n + k] == ValueV::Int(xs[k]));
}

/// A list literal of ints, compiled and run, pushes the list of those ints in source order.
pub proof fn law_compiled_list_literal(m: MachineV, xs: Seq<i64>, fl: Seq<(Seq<char>, u64)>, depth: nat)
    requires
        xs.len() <= usize::MAX,
    ensures
        expr_code(ExprV::List(int_exprs(xs)), fl, depth) matches Ok(c) && run_straight(m, c) == with_pushed(
            m,
            ValueV::List(int_values(xs)),
        ),
{
    lemma_exprs_code_ints(xs, fl, depth);
    let n = xs.len();
    assert(int_exprs(xs).len() == n);
    let loads = int_loads(xs);
    let c = loads.push(InstrV::NewList(n as usize));
    assert(expr_code(ExprV::List(int_exprs(xs)), fl, depth) == Ok::<Seq<InstrV>, crate::lixer::emitter::CompileErrorV>(c));
    assert(c =~= loads + seq![InstrV::NewList(n as usize)]);
    lemma_run_concat(m, loads, seq![InstrV::NewList(n as usize)]);
    lemma_run_loads(m, xs);
    let m2 = MachineV { stack: m.stack + int_values(xs), ..m };
    lemma_run_one(m2, InstrV::NewList(n as usize));
    assert(m2.stack.subrange(m2.stack.len() - n, m2.stack.len() as int) =~= int_values(xs));
    assert(m2.stack.take(m2.stack.len() - n) =~= m.stack);
}

proof fn lemma_run_step(m: MachineV, c: Seq<InstrV>, m1: MachineV)
    requires
        c.len() > 0,
        exec_v(m, c[0]) == Ok::<(MachineV, EventV), VmErrorV>((m1, EventV::Continue)),
    ensures
        run_straight(m, c) == run_straight(m1, c.drop_first()),
{
}

/// The instructions that test a counting loop's variable against its bound.
pub open spec fn for_head(var: Seq<char>, loop_end: usize) -> Seq<InstrV> {
    seq![InstrV::LoadVar(var), InstrV::LoadVar(end_var(var)), InstrV::Lt, InstrV::JumpIfFalse(loop_end)]
}

/// The instructions that step a counting loop's variable and go back to the test.
pub open spec fn for_tail(var: Seq<char>, loop_start: usize) -> Seq<InstrV> {
    seq![InstrV::LoadVar(var), InstrV::LoadInt(1), InstrV::Add, InstrV::StoreVar(var), InstrV::Jump(loop_start)]
}

#[verifier::spinoff_prover]
#[verifier::rlimit(50)]
proof fn lemma_for_head(m: MachineV, var: Seq<char>, loop_end: usize, i: i64, n: i64)
    requires
        field_get(m.env.vars, var) == Some(ValueV::Int(i)),
        field_get(m.env.vars, end_var(var)) == Some(ValueV::Int(n)),
    ensures
        run_straight(m, for_head(var, loop_end)) == Ok::<(MachineV, EventV), VmErrorV>((
            MachineV { ip: if i < n { m.ip } else { loop_end }, ..m },
            EventV::Continue,
        )),
{
    let head = for_head(var, loop_end);
    let m1 = MachineV { stack: m.stack.push(ValueV::Int(i)), ..m };
    let m2 = MachineV { stack: m.stack.push(ValueV::Int(i)).push(ValueV::Int(n)), ..m };
    let m3 = MachineV { stack: m.stack.push(ValueV::Bool(i < n)), ..m };
    let m4 = MachineV { ip: if i < n { m.ip } else { loop_end }, ..m };
    assert(m2.stack.drop_last().drop_last() =~= m.stack);
    assert(m3.stack.drop_last() =~= m.stack);
    assert(head[0] == InstrV::LoadVar(var));
    assert(exec_v(m, InstrV::LoadVar(var)) == Ok::<(MachineV, EventV), VmErrorV>((m1, EventV::Continue)));
    lemma_run_step(m, head, m1);
    let r1 = head.drop_first();
    assert(r1 =~= seq![InstrV::LoadVar(end_var(var)), InstrV::Lt, InstrV::JumpIfFalse(loop_end)]);
    assert(exec_v(m1, InstrV::LoadVar(end_var(var))) == Ok::<(MachineV, EventV), VmErrorV>((m2, EventV::Continue)));
    lemma_run_step(m1, r1, m2);
    let r2 = r1.drop_first();
    assert(r2 =~= seq![InstrV::Lt, InstrV::JumpIfFalse(loop_end)]);
    assert(m2.stack.last() == ValueV::Int(n) && m2.stack.drop_last().last() == ValueV::Int(i));
    assert(exec_v(m2, InstrV::Lt) == Ok::<(MachineV, EventV), VmErrorV>((m3, EventV::Continue)));
    lemma_run_step(m2, r2, m3);
    assert(r2.drop_first() =~= seq![InstrV::JumpIfFalse(loop_end)]);
    lemma_run_one(m3, InstrV::JumpIfFalse(loop_end));
    assert(exec_v(m3, InstrV::JumpIfFalse(loop_end)) == Ok::<(MachineV, EventV), VmErrorV>((m4, EventV::Continue)));
}

#[verifier::spinoff_prover]
#[verifier::rlimit(50)]
proof fn lemma_for_tail(m: MachineV, var: Seq<char>, loop_start: usize, i: i64)
    requires
        field_get(m.env.vars, var) == Some(ValueV::Int(i)),
        i < i64::MAX,
    ensures
        run_straight(m, for_tail(var, loop_start)) == Ok::<(MachineV, EventV), VmErrorV>((
            MachineV {
                ip: loop_start,
                env: EnvV { vars: field_set(m.env.vars, var, ValueV::Int((i + 1) as i64)), ..m.env },
                ..m
            },
            EventV::Continue,
        )),
{
    let tail = for_tail(var, loop_start);
    let t1 = MachineV { stack: m.stack.push(ValueV::Int(i)), ..m };
    let t2 = MachineV { stack: m.stack.push(ValueV::Int(i)).push(ValueV::Int(1)), ..m };
    let t3 = MachineV { stack: m.stack.push(ValueV::Int((i + 1) as i64)), ..m };
    let t4 = MachineV { env: EnvV { vars: field_set(m.env.vars, var, ValueV::Int((i + 1) as i64)), ..m.env }, ..m };
    assert(t2.stack.drop_last().drop_last() =~= m.stack);
    assert(t3.stack.drop_last() =~= m.stack);
    assert(tail[0] == InstrV::LoadVar(var));
    assert(exec_v(m, InstrV::LoadVar(var)) == Ok::<(MachineV, EventV), VmErrorV>((t1, EventV::Continue)));
    lemma_run_step(m, tail, t1);
    let r1 = tail.drop_first();
    assert(r1 =~= seq![InstrV::LoadInt(1), InstrV::Add, InstrV::StoreVar(var), InstrV::Jump(loop_start)]);
    assert(exec_v(t1, InstrV::LoadInt(1)) == Ok::<(MachineV, EventV), VmErrorV>((t2, EventV::Continue)));
    lemma_run_step(t1, r1, t2);
    let r2 = r1.drop_first();
    assert(r2 =~= seq![InstrV::Add, InstrV::StoreVar(var), InstrV::Jump(loop_start)]);
    assert(t2.stack.last() == ValueV::Int(1) && t2.stack.drop_last().last() == ValueV::Int(i));
    assert(exec_v(t2, InstrV::Add) == Ok::<(MachineV, EventV), VmErrorV>((t3, EventV::Continue)));
    lemma_run_step(t2, r2, t3);
    let r3 = r2.drop_first();
    assert(r3 =~= seq![InstrV::StoreVar(var), InstrV::Jump(loop_start)]);
    assert(t3.stack.last() == ValueV::Int((i + 1) as i64));
    assert(exec_v(t3, InstrV::StoreVar(var)) == Ok::<(MachineV, EventV), VmErrorV>((t4, EventV::Continue)));
    lemma_run_step(t3, r3, t4);
    assert(r3.drop_first() =~= seq![InstrV::Jump(loop_start)]);
    lemma_run_one(t4, InstrV::Jump(loop_start));
}

/// A counting `for v in start..end` loop, compiled at `pos`: with `v` at `i` and the bound at
/// `n`, the loop head leaves the state as it was and goes on into the body exactly when
/// `i < n` (otherwise past the loop), and the loop tail sets `v` to `i + 1` and goes back to
/// the head.
#[verifier::spinoff_prover]
pub proof fn law_for_loop_counts(
    var: Seq<char>,
    start: ExprV,
    end: ExprV,
    body: Seq<crate::lixer::ast::StmtV>,
    pos: nat,
    in_loop: bool,
    ft: TableV,
    fl: Seq<(Seq<char>, u64)>,
    m: MachineV,
    i: i64,
    n: i64,
)
    requires
        stmt_code(crate::lixer::ast::StmtV::For { var, start, end, body }, pos, in_loop, ft, fl) is Ok,
        pos + stmt_code(crate::lixer::ast::StmtV::For { var, start, end, body }, pos, in_loop, ft, fl)->Ok_0.0.len()
            < CONTINUE_SENTINEL,
        field_get(m.env.vars, var) == Some(ValueV::Int(i)),
        field_get(m.env.vars, end_var(var)) == Some(ValueV::Int(n)),
        i < i64::MAX,
    ensures
        ({
            let c = stmt_code(crate::lixer::ast::StmtV::For { var, start, end, body }, pos, in_loop, ft, fl)->Ok_0.0;
            let pre_len = ex(start, fl)->Ok_0.len() + ex(end, fl)->Ok_0.len() + 2;
            let b = stmts_code(body, pos + pre_len + 4, true, ft, fl)->Ok_0.0;
            let loop_end = pos + pre_len + b.len() + 9;
            &&& c.len() == pre_len + b.len() + 9
            &&& run_straight(m, c.subrange(pre_len as int, (pre_len + 4) as int)) == Ok::<(MachineV, EventV), VmErrorV>((
                MachineV { ip: if i < n { m.ip } else { loop_end as usize }, ..m },
                EventV::Continue,
            ))
            &&& run_straight(m, c.subrange((pre_len + 4 + b.len()) as int, c.len() as int)) == Ok::<(MachineV, EventV), VmErrorV>((
                MachineV {
                    ip: (pos + pre_len) as usize,
                    env: EnvV { vars: field_set(m.env.vars, var, ValueV::Int((i + 1) as i64)), ..m.env },
                    ..m
                },
                EventV::Continue,
            ))
        }),
{
    let cs = ex(start, fl)->Ok_0;
    let ce = ex(end, fl)->Ok_0;
    let pre = cs + seq![InstrV::StoreVar(var)] + ce + seq![InstrV::StoreVar(end_var(var))];
    let loop_start = pos + pre.len();
    let b = stmts_code(body, loop_start + 4, true, ft, fl)->Ok_0.0;
    let cont = loop_start + 4 + b.len();
    let loop_end = cont + 5;
    let head = for_head(var, loop_end as usize);
    let tail = for_tail(var, loop_start as usize);
    let body_code = head + b + tail;
    let c = pre + patch_code(body_code, cont as usize, loop_end as usize);
    assert(stmt_code(crate::lixer::ast::StmtV::For { var, start, end, body }, pos, in_loop, ft, fl)->Ok_0.0 == c);
    assert(pre.len() == cs.len() + ce.len() + 2);
    let pl = pre.len() as int;
    assert(c.subrange(pl, pl + 4) =~= head) by {
        assert forall|k: int| 0 <= k < 4 implies c.subrange(pl, pl + 4)[k] == head[k] by {
            assert(c[pl + k] == patch_instr(body_code[k], cont as usize, loop_end as usize));
            assert(body_code[k] == head[k]);
        }
    }
    assert(c.subrange(pl + 4 + b.len(), c.len() as int) =~= tail) by {
        assert forall|k: int| 0 <= k < 5 implies c.subrange(pl + 4 + b.len(), c.len() as int)[k] == tail[k] by {
            assert(c[pl + 4 + b.len() + k] == patch_instr(body_code[4 + b.len() + k], cont as usize, loop_end as usize));
            assert(body_code[4 + b.len() + k] == tail[k]);
        }
    }
    lemma_for_head(m, var, loop_end as usize, i, n);
    lemma_for_tail(m, var, loop_start as usize, i);
}

proof fn lemma_field_get_push(acc: Seq<(Seq<char>, ValueV)>, a: Seq<char>, v: ValueV, x: Seq<char>)
    ensures
        field_get(acc.push((a, v)), x) == (match field_get(acc, x) {
            Some(w) => Some(w),
            None => if a == x { Some(v) } else { None },
        }),
    decreases acc.len(),
{
    if acc.len() > 0 {
        assert(acc.push((a, v))[0] == acc[0]);
        assert(acc.push((a, v)).drop_first() =~= acc.drop_first().push((a, v)));
        lemma_field_get_push(acc.drop_first(), a, v, x);
    } else {
        let e = Seq::<(Seq<char>, ValueV)>::empty();
        assert(acc.push((a, v)).drop_first() =~= e);
        assert(field_get(e, x) is None);
        assert(acc.push((a, v))[0] == (a, v));
    }
}

proof fn lemma_construct_keeps(names: Seq<Seq<char>>, vals: Seq<ValueV>, acc: Seq<(Seq<char>, ValueV)>, x: Seq<char>)
    requires
        field_get(acc, x) is Some,
    ensures
        field_get(construct_from(names, vals, acc), x) == field_get(acc, x),
    decreases names.len(),
{
    if names.len() > 0 && vals.len() > 0 {
        let next = if field_get(acc, names[0]) is None {
            acc.push((names[0], vals[0]))
        } else {
            acc
        };
        lemma_field_get_push(acc, names[0], vals[0], x);
        lemma_construct_keeps(names.drop_first(), vals.drop_first(), next, x);
    }
}

proof fn lemma_construct_first(names: Seq<Seq<char>>, vals: Seq<ValueV>, acc: Seq<(Seq<char>, ValueV)>, k: int)
    requires
        0 <= k < names.len(),
        k < vals.len(),
        forall|j: int| 0 <= j < k ==> names[j] != names[k],
        field_get(acc, names[k]) is None,
    ensures
        field_get(construct_from(names, vals, acc), names[k]) == Some(vals[k]),
    decreases names.len(),
{
    let next = if field_get(acc, names[0]) is None {
        acc.push((names[0], vals[0]))
    } else {
        acc
    };
    lemma_field_get_push(acc, names[0], vals[0], names[k]);
    if k == 0 {
        lemma_construct_keeps(names.drop_first(), vals.drop_first(), next, names[0]);
    } else {
        assert(names[0] != names[k]);
        assert(names.drop_first()[k - 1] == names[k]);
        assert forall|j: int| 0 <= j < k - 1 implies #[trigger] names.drop_first()[j] != names.drop_first()[k - 1] by {
            assert(names.drop_first()[j] == names[j + 1]);
        }
        lemma_construct_first(names.drop_first(), vals.drop_first(), next, k - 1);
    }
}

/// Constructing an object binds each field name to the value given for it; of two values
/// given for one name, the first counts.
pub proof fn law_construct_binds_fields(m: MachineV, t: Seq<char>, names: Seq<Seq<char>>, k: int)
    requires
        names.len() <= m.stack.len(),
        0 <= k < names.len(),
        forall|j: int| 0 <= j < k ==> names[j] != names[k],
        names.len() <= usize::MAX,
    ensures
        exec_v(m, InstrV::Construct(t, names)) matches Ok((m1, EventV::Continue)) && m1.stack.last() matches ValueV::Object(
            u,
            fs,
        ) && u == t && field_get(fs, names[k]) == Some(m.stack[m.stack.len() - names.len() + k]) && get_field_v(
            ValueV::Object(u, fs),
            names[k],
        ) == Ok::<ValueV, VmErrorV>(m.stack[m.stack.len() - names.len() + k]),
{
    let n = names.len();
    let vals = m.stack.subrange(m.stack.len() - n, m.stack.len() as int);
    assert(pop_n_v(m.stack, n) == (vals, m.stack.take(m.stack.len() - n)));
    lemma_construct_first(names, vals, Seq::empty(), k);
}

proof fn lemma_map_from_keeps(es: Seq<(ValueV, ValueV)>, acc: Seq<(Seq<char>, ValueV)>, x: Seq<char>)
    requires
        field_get(acc, x) is Some,
    ensures
        field_get(map_from(es, acc), x) == field_get(acc, x),
    decreases es.len(),
{
    if es.len() > 0 {
        match es[0].0 {
            ValueV::Str(k) => {
                lemma_field_get_push(acc, k, es[0].1, x);
                let next = if field_get(acc, k) is None { acc.push((k, es[0].1)) } else { acc };
                lemma_map_from_keeps(es.drop_first(), next, x);
            },
            _ => {
                lemma_map_from_keeps(es.drop_first(), acc, x);
            },
        }
    }
}

proof fn lemma_map_from_first(es: Seq<(ValueV, ValueV)>, acc: Seq<(Seq<char>, ValueV)>, key: Seq<char>, k: int)
    requires
        0 <= k < es.len(),
        es[k].0 == ValueV::Str(key),
        forall|j: int| 0 <= j < k ==> es[j].0 != ValueV::Str(key),
        field_get(acc, key) is None,
    ensures
        field_get(map_from(es, acc), key) == Some(es[k].1),
    decreases es.len(),
{
    let next = match es[0].0 {
        ValueV::Str(k0) => if field_get(acc, k0) is None { acc.push((k0, es[0].1)) } else { acc },
        _ => acc,
    };
    match es[0].0 {
        ValueV::Str(k0) => {
            lemma_field_get_push(acc, k0, es[0].1, key);
        },
        _ => {},
    }
    if k == 0 {
        lemma_map_from_keeps(es.drop_first(), next, key);
    } else {
        assert(es.drop_first()[k - 1] == es[k]);
        assert forall|j: int| 0 <= j < k - 1 implies #[trigger] es.drop_first()[j].0 != ValueV::Str(key) by {
            assert(es.drop_first()[j] == es[j + 1]);
        }
        lemma_map_from_first(es.drop_first(), next, key, k - 1);
    }
}

/// A map literal binds each string key to the value written with it; of two entries with
/// one key, the first counts.
pub proof fn law_map_literal_binds_keys(es: Seq<(ValueV, ValueV)>, key: Seq<char>, k: int)
    requires
        0 <= k < es.len(),
        es[k].0 == ValueV::Str(key),
        forall|j: int| 0 <= j < k ==> es[j].0 != ValueV::Str(key),
    ensures
        field_get(map_from(es, Seq::empty()), key) == Some(es[k].1),
{
    lemma_map_from_first(es, Seq::empty(), key, k);
}

/// Setting a field of an object and then reading it gives the new value; the other fields read
/// as before, and the object keeps its type.
pub proof fn law_set_field_then_get(m: MachineV, t: Seq<char>, fs: Seq<(Seq<char>, ValueV)>, f: Seq<char>, v: ValueV, g: Seq<char>)
    requires
        m.stack.len() >= 2,
        m.stack.last() == v,
        m.stack.drop_last().last() == ValueV::Object(t, fs),
    ensures
        exec_v(m, InstrV::SetField(f)) matches Ok((m1, EventV::Continue)) && m1.stack.last() matches ValueV::Object(u, gs)
            && u == t && get_field_v(ValueV::Object(u, gs), f) == Ok::<ValueV, VmErrorV>(v) && (g != f ==> get_field_v(
            ValueV::Object(u, gs),
            g,
        ) == get_field_v(ValueV::Object(t, fs), g)),
{
    crate::lixvm::value::law_field_get_set(fs, f, v, f);
    crate::lixvm::value::law_field_get_set(fs, f, v, g);
}

} // verus!
