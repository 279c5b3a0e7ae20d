//! The functions built into the VM. Those that only compute run here; those that reach
//! the outside world (clock, process, environment, files) are handed to the host.
use vstd::prelude::*;
use crate::lixvm::value::{Value, ValueV, values_view, lemma_values_view, copy_value};
use crate::lixvm::error::{VmError, VmErrorV};
use crate::text::{str_eq, copy_bytes};

verus! {

/// A built-in function.
#[derive(Debug, Clone, Copy, PartialEq, Eq, Structural)]
pub enum Native {
    Println,
    Print,
    Len,
    Clock,
    Exit,
    Env,
    Args,
    ReadFile,
    WriteFile,
    FileExists,
    BytesNew,
    BytesSet,
    BytesGet,
}

/// Whether a built-in function is carried out by the host.
pub open spec fn is_host(n: Native) -> bool {
    match n {
        Native::Len | Native::BytesNew | Native::BytesSet | Native::BytesGet => false,
        _ => true,
    }
}

/// The names of the built-in functions.
pub open spec fn native_names() -> Seq<(Seq<char>, Native)> {
    seq![
        ("println"@, Native::Println),
        ("print"@, Native::Print),
        ("len"@, Native::Len),
        ("clock"@, Native::Clock),
        ("exit"@, Native::Exit),
        ("env"@, Native::Env),
        ("args"@, Native::Args),
        ("read_file"@, Native::ReadFile),
        ("write_file"@, Native::WriteFile),
        ("file_exists"@, Native::FileExists),
        ("bytes_new"@, Native::BytesNew),
        ("bytes_set"@, Native::BytesSet),
        ("bytes_get"@, Native::BytesGet),
    ]
}

/// The built-in function of a name (the first binding).
pub open spec fn native_lookup(t: Seq<(Seq<char>, Native)>, name: Seq<char>) -> Option<Native>
    decreases t.len(),
{
    if t.len() == 0 {
        None
    } else if t[0].0 == name {
        Some(t[0].1)
    } else {
        native_lookup(t.drop_first(), name)
    }
}

/// The length of a string (in characters), byte string, list or map; 0 for anything else.
pub open spec fn len_spec(args: Seq<ValueV>) -> ValueV {
    if args.len() == 0 {
        ValueV::Int(0)
    } else {
        match args[0] {
            ValueV::Str(s) => ValueV::Int(s.len() as i64),
            ValueV::Bytes(b) => ValueV::Int(b.len() as i64),
            ValueV::List(items) => ValueV::Int(items.len() as i64),
            ValueV::Mapping(fs) => ValueV::Int(fs.len() as i64),
            _ => ValueV::Int(0),
        }
    }
}

/// A byte string of zeros of the length given by the first argument (0 when it is not an
/// int); a negative length is an error.
pub open spec fn bytes_new_spec(args: Seq<ValueV>) -> Result<ValueV, VmErrorV> {
    match (if args.len() == 0 { ValueV::Null } else { args[0] }) {
        ValueV::Int(n) => if n < 0 {
            Err(VmErrorV::Other("capacity overflow"@))
        } else {
            Ok(ValueV::Bytes(Seq::new(n as nat, |_i: int| 0u8)))
        },
        _ => Ok(ValueV::Bytes(Seq::empty())),
    }
}

/// `bytes_set(b, i, v)`: `b` with byte `i` set to `v` truncated to a byte; the first
/// argument unchanged (or null) when the arguments do not fit.
pub open spec fn bytes_set_spec(args: Seq<ValueV>) -> ValueV {
    let fallback = if args.len() == 0 { ValueV::Null } else { args[0] };
    if args.len() >= 3 {
        match (args[0], args[1], args[2]) {
            (ValueV::Bytes(b), ValueV::Int(i), ValueV::Int(v)) => if 0 <= i < b.len() {
                ValueV::Bytes(b.update(i as int, v as u8))
            } else {
                fallback
            },
            _ => fallback,
        }
    } else {
        fallback
    }
}

/// `bytes_get(b, i)`: byte `i` of `b` as an int, or null.
pub open spec fn bytes_get_spec(args: Seq<ValueV>) -> ValueV {
    if args.len() >= 2 {
        match (args[0], args[1]) {
            (ValueV::Bytes(b), ValueV::Int(i)) => if 0 <= i < b.len() {
                ValueV::Int(b[i as int] as i64)
            } else {
                ValueV::Null
            },
            _ => ValueV::Null,
        }
    } else {
        ValueV::Null
    }
}

/// What a call of a built-in function that runs here comes to.
pub open spec fn pure_native_spec(n: Native, args: Seq<ValueV>) -> Result<ValueV, VmErrorV> {
    match n {
        Native::Len => Ok(len_spec(args)),
        Native::BytesNew => bytes_new_spec(args),
        Native::BytesSet => Ok(bytes_set_spec(args)),
        _ => Ok(bytes_get_spec(args)),
    }
}

/// What calling a built-in function comes to: a value, or work for the host.
#[derive(Debug)]
pub enum NativeResult {
    Value(Value),
    Host(Native, Vec<Value>),
}

/// The table of built-in functions, by name.
pub struct NativeTable {
    funcs: Vec<(String, Native)>,
}

impl View for NativeTable {
    type V = Seq<(Seq<char>, Native)>;

    closed spec fn view(&self) -> Seq<(Seq<char>, Native)> {
        self.funcs@.map_values(|e: (String, Native)| (e.0@, e.1))
    }
}

impl NativeTable {
    /// The table of all built-in functions.
    pub fn new() -> (t: NativeTable)
        ensures
            t@ == native_names(),
    {
        let mut table = NativeTable { funcs: Vec::new() };
        assert(table@ =~= Seq::<(Seq<char>, Native)>::empty());
        table.register_all();
        table
    }

    fn add(&mut self, name: &str, f: Native)
        ensures
            final(self)@ == old(self)@.push((name@, f)),
    {
        self.funcs.push((name.to_owned(), f));
        assert(self@ =~= old(self)@.push((name@, f)));
    }

    fn register_all(&mut self)
        requires
            old(self)@ == Seq::<(Seq<char>, Native)>::empty(),
        ensures
            final(self)@ == native_names(),
    {
        self.add("println", Native::Println);
        self.add("print", Native::Print);
        self.add("len", Native::Len);
        self.add("clock", Native::Clock);
        self.add("exit", Native::Exit);
        self.add("env", Native::Env);
        self.add("args", Native::Args);
        self.add("read_file", Native::ReadFile);
        self.add("write_file", Native::WriteFile);
        self.add("file_exists", Native::FileExists);
        self.add("bytes_new", Native::BytesNew);
        self.add("bytes_set", Native::BytesSet);
        self.add("bytes_get", Native::BytesGet);
        assert(self@ =~= native_names());
    }

    /// The built-in function of a name.
    pub fn get(&self, name: &str) -> (r: Option<Native>)
        ensures
            r == native_lookup(self@, name@),
    {
        let ghost t = self@;
        assert(t.skip(0) =~= t);
        let mut k: usize = 0;
        while k < self.funcs.len()
            invariant
                k <= self.funcs.len(),
                t == self@,
                t.len() == self.funcs@.len(),
                native_lookup(t, name@) == native_lookup(t.skip(k as int), name@),
            decreases self.funcs.len() - k,
        {
            assert(t.skip(k as int)[0] == t[k as int]);
            assert(t.skip(k as int).drop_first() =~= t.skip(k + 1));
            if str_eq(self.funcs[k].0.as_str(), name) {
                return Some(self.funcs[k].1);
            }
            k = k + 1;
        }
        None
    }

    /// Calls the built-in function of a name, if there is one: those that only compute
    /// give their value, the others are handed back with their arguments for the host.
    pub fn call(&self, name: &str, args: Vec<Value>) -> (r: Option<Result<NativeResult, VmError>>)
        ensures
            match native_lookup(self@, name@) {
                None => r is None,
                Some(n) => if is_host(n) {
                    r matches Some(Ok(NativeResult::Host(m, a))) && m == n && values_view(a@)
                        == values_view(args@)
                } else {
                    match pure_native_spec(n, values_view(args@)) {
                        Ok(v) => r matches Some(Ok(NativeResult::Value(x))) && x@ == v,
                        Err(e) => r matches Some(Err(x)) && x@ == e,
                    }
                },
            },
    {
        match self.get(name) {
            None => None,
            Some(n) => match n {
                Native::Len => Some(Ok(NativeResult::Value(native_len(&args)))),
                Native::BytesNew => Some(
                    match native_bytes_new(&args) {
                        Ok(v) => Ok(NativeResult::Value(v)),
                        Err(e) => Err(e),
                    },
                ),
                Native::BytesSet => Some(Ok(NativeResult::Value(native_bytes_set(&args)))),
                Native::BytesGet => Some(Ok(NativeResult::Value(native_bytes_get(&args)))),
                _ => Some(Ok(NativeResult::Host(n, args))),
            },
        }
    }
}

/// `len(x)`.
pub fn native_len(args: &Vec<Value>) -> (v: Value)
    ensures
        v@ == len_spec(values_view(args@)),
{
    proof {
        lemma_values_view(args@);
    }
    if args.len() == 0 {
        return Value::Int(0);
    }
    match &args[0] {
        Value::Str(s) => Value::Int(s.unicode_len() as i64),
        Value::Bytes(b) => Value::Int(b.len() as i64),
        Value::List(items) => {
            proof {
                lemma_values_view(items@);
            }
            Value::Int(items.len() as i64)
        },
        Value::Mapping(fs) => {
            proof {
                crate::lixvm::value::lemma_fields_view(fs@);
            }
            Value::Int(fs.len() as i64)
        },
        _ => Value::Int(0),
    }
}

/// `bytes_new(n)`.
pub fn native_bytes_new(args: &Vec<Value>) -> (r: Result<Value, VmError>)
    ensures
        match bytes_new_spec(values_view(args@)) {
            Ok(v) => r matches Ok(x) && x@ == v,
            Err(e) => r matches Err(x) && x@ == e,
        },
{
    proof {
        lemma_values_view(args@);
    }
    let n: i64 = if args.len() == 0 {
        0
    } else {
        match &args[0] {
            Value::Int(n) => *n,
            _ => 0,
        }
    };
    if n < 0 {
        return Err(VmError::Other("capacity overflow".to_owned()));
    }
    let size = n as u64;
    let mut b: Vec<u8> = Vec::new();
    let mut k: u64 = 0;
    while k < size
        invariant
            k <= size,
            b@ == Seq::new(k as nat, |_i: int| 0u8),
        decreases size - k,
    {
        b.push(0u8);
        k = k + 1;
        assert(b@ =~= Seq::new(k as nat, |_i: int| 0u8));
    }
    proof {
        if size == 0 {
            assert(b@ =~= Seq::<u8>::empty());
        }
    }
    Ok(Value::Bytes(b))
}

/// `bytes_set(b, i, v)`.
pub fn native_bytes_set(args: &Vec<Value>) -> (v: Value)
    ensures
        v@ == bytes_set_spec(values_view(args@)),
{
    proof {
        lemma_values_view(args@);
    }
    if args.len() >= 3 {
        match (&args[0], &args[1], &args[2]) {
            (Value::Bytes(b), Value::Int(i), Value::Int(x)) => {
                if 0 <= *i && (*i as u64) < (b.len() as u64) {
                    let mut c = copy_bytes(b);
                    c.set(*i as usize, *x as u8);
                    return Value::Bytes(c);
                }
            },
            _ => {},
        }
    }
    if args.len() == 0 {
        Value::Null
    } else {
        copy_value(&args[0])
    }
}

/// `bytes_get(b, i)`.
pub fn native_bytes_get(args: &Vec<Value>) -> (v: Value)
    ensures
        v@ == bytes_get_spec(values_view(args@)),
{
    proof {
        lemma_values_view(args@);
    }
    if args.len() >= 2 {
        match (&args[0], &args[1]) {
            (Value::Bytes(b), Value::Int(i)) => {
                if 0 <= *i && (*i as u64) < (b.len() as u64) {
                    return Value::Int(b[*i as usize] as i64);
                }
            },
            _ => {},
        }
    }
    Value::Null
}

/// Reading a byte after writing it gives the written value back (for a value that fits in a
/// byte); the other bytes read as before; a new byte string of length `n` has `n` zero
/// bytes.
pub proof fn law_bytes_read_after_write(b: Seq<u8>, i: i64, v: i64, j: i64, n: i64)
    requires
        0 <= i < b.len(),
        0 <= v < 256,
    ensures
        bytes_get_spec(seq![bytes_set_spec(seq![ValueV::Bytes(b), ValueV::Int(i), ValueV::Int(v)]), ValueV::Int(i)])
            == ValueV::Int(v),
        j != i ==> bytes_get_spec(
            seq![bytes_set_spec(seq![ValueV::Bytes(b), ValueV::Int(i), ValueV::Int(v)]), ValueV::Int(j)],
        ) == bytes_get_spec(seq![ValueV::Bytes(b), ValueV::Int(j)]),
        n >= 0 ==> (bytes_new_spec(seq![ValueV::Int(n)]) matches Ok(ValueV::Bytes(z)) && z.len() == n && forall|k: int|
            0 <= k < n ==> #[trigger] z[k] == 0u8),
{
    let w: u8 = v as u8;
    assert(w == v) by (bit_vector)
        requires 0 <= v < 256, w == v as u8;
    let b2 = b.update(i as int, w);
    assert(bytes_set_spec(seq![ValueV::Bytes(b), ValueV::Int(i), ValueV::Int(v)]) == ValueV::Bytes(b2));
    if j != i && 0 <= j < b.len() {
        assert(b2[j as int] == b[j as int]);
    }
}

} // verus!
