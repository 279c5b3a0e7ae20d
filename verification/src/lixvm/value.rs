//! Runtime values and their text.
use vstd::prelude::*;
use crate::text::{int_text, push_int, push_str, chars_to_string, copy_string, copy_bytes, string_eq};

verus! {

/// A runtime value. A float carries its IEEE-754 bits and its display text, which the
/// host computes when it makes the float; a map and an object's fields are lists of
/// entries whose keys are distinct (`keys_distinct`), in insertion order.
#[derive(Debug)]
pub enum Value {
    Null,
    Int(i64),
    Float(u64, String),
    Str(String),
    Bool(bool),
    Bytes(Vec<u8>),
    List(Vec<Value>),
    Mapping(Vec<(String, Value)>),
    Object(String, Vec<(String, Value)>),
}

/// The mathematical value of a [`Value`].
pub enum ValueV {
    Null,
    Int(i64),
    Float(u64, Seq<char>),
    Str(Seq<char>),
    Bool(bool),
    Bytes(Seq<u8>),
    List(Seq<ValueV>),
    Mapping(Seq<(Seq<char>, ValueV)>),
    Object(Seq<char>, Seq<(Seq<char>, ValueV)>),
}

pub open spec fn value_view(v: Value) -> ValueV
    decreases v,
{
    match v {
        Value::Null => ValueV::Null,
        Value::Int(n) => ValueV::Int(n),
        Value::Float(b, t) => ValueV::Float(b, t@),
        Value::Str(s) => ValueV::Str(s@),
        Value::Bool(b) => ValueV::Bool(b),
        Value::Bytes(b) => ValueV::Bytes(b@),
        Value::List(items) => ValueV::List(values_view(items@)),
        Value::Mapping(fs) => ValueV::Mapping(fields_view(fs@)),
        Value::Object(t, fs) => ValueV::Object(t@, fields_view(fs@)),
    }
}

pub open spec fn values_view(s: Seq<Value>) -> Seq<ValueV>
    decreases s,
{
    if s.len() == 0 {
        Seq::empty()
    } else {
        values_view(s.drop_last()).push(value_view(s.last()))
    }
}

pub open spec fn fields_view(s: Seq<(String, Value)>) -> Seq<(Seq<char>, ValueV)>
    decreases s,
{
    if s.len() == 0 {
        Seq::empty()
    } else {
        fields_view(s.drop_last()).push((s.last().0@, value_view(s.last().1)))
    }
}

impl View for Value {
    type V = ValueV;

    open spec fn view(&self) -> ValueV {
        value_view(*self)
    }
}

pub proof fn lemma_values_view(s: Seq<Value>)
    ensures
        values_view(s).len() == s.len(),
        forall|k: int| 0 <= k < s.len() ==> #[trigger] values_view(s)[k] == s[k]@,
    decreases s.len(),
{
    if s.len() > 0 {
        lemma_values_view(s.drop_last());
    }
}

pub proof fn lemma_fields_view(s: Seq<(String, Value)>)
    ensures
        fields_view(s).len() == s.len(),
        forall|k: int| 0 <= k < s.len() ==> #[trigger] fields_view(s)[k] == (s[k].0@, s[k].1@),
    decreases s.len(),
{
    if s.len() > 0 {
        lemma_fields_view(s.drop_last());
    }
}

pub proof fn lemma_values_view_push(s: Seq<Value>, x: Value)
    ensures
        values_view(s.push(x)) == values_view(s).push(x@),
{
    assert(s.push(x).drop_last() =~= s);
}

pub proof fn lemma_fields_view_push(s: Seq<(String, Value)>, x: (String, Value))
    ensures
        fields_view(s.push(x)) == fields_view(s).push((x.0@, x.1@)),
{
    assert(s.push(x).drop_last() =~= s);
}

/// A deep copy of a value.
pub fn copy_value(v: &Value) -> (r: Value)
    ensures
        r@ == v@,
    decreases v, 1int,
{
    match v {
        Value::Null => Value::Null,
        Value::Int(n) => Value::Int(*n),
        Value::Float(b, t) => Value::Float(*b, copy_string(t)),
        Value::Str(s) => Value::Str(copy_string(s)),
        Value::Bool(b) => Value::Bool(*b),
        Value::Bytes(b) => Value::Bytes(copy_bytes(b)),
        Value::List(items) => Value::List(copy_values(items)),
        Value::Mapping(fs) => Value::Mapping(copy_fields(fs)),
        Value::Object(t, fs) => Value::Object(copy_string(t), copy_fields(fs)),
    }
}

/// A deep copy of a list of values.
pub fn copy_values(items: &Vec<Value>) -> (r: Vec<Value>)
    ensures
        values_view(r@) == values_view(items@),
    decreases items, 0int,
{
    let mut r: Vec<Value> = Vec::new();
    let mut k: usize = 0;
    while k < items.len()
        invariant
            k <= items.len(),
            values_view(r@) == values_view(items@.take(k as int)),
        decreases items.len() - k,
    {
        let x = copy_value(&items[k]);
        proof {
            lemma_values_view_push(r@, x);
            lemma_values_view_push(items@.take(k as int), items@[k as int]);
            assert(items@.take(k + 1) =~= items@.take(k as int).push(items@[k as int]));
        }
        r.push(x);
        k = k + 1;
    }
    assert(items@.take(k as int) =~= items@);
    r
}

/// A deep copy of a list of named values.
pub fn copy_fields(fs: &Vec<(String, Value)>) -> (r: Vec<(String, Value)>)
    ensures
        fields_view(r@) == fields_view(fs@),
    decreases fs, 0int,
{
    let mut r: Vec<(String, Value)> = Vec::new();
    let mut k: usize = 0;
    while k < fs.len()
        invariant
            k <= fs.len(),
            fields_view(r@) == fields_view(fs@.take(k as int)),
        decreases fs.len() - k,
    {
        let x = (copy_string(&fs[k].0), copy_value(&fs[k].1));
        proof {
            lemma_fields_view_push(r@, x);
            lemma_fields_view_push(fs@.take(k as int), fs@[k as int]);
            assert(fs@.take(k + 1) =~= fs@.take(k as int).push(fs@[k as int]));
        }
        r.push(x);
        k = k + 1;
    }
    assert(fs@.take(k as int) =~= fs@);
    r
}


// ---------------------------------------------------------------------------
// Equality

/// Whether the double with these bits is a NaN.
pub open spec fn float_is_nan(b: u64) -> bool {
    (b >> 52u64) & 0x7ffu64 == 0x7ffu64 && b & 0xf_ffff_ffff_ffffu64 != 0
}

/// Whether the double with these bits is +0.0 or -0.0.
pub open spec fn float_is_zero(b: u64) -> bool {
    b & 0x7fff_ffff_ffff_ffffu64 == 0
}

/// IEEE-754 equality of two doubles given by their bits: no NaN equals anything, and the
/// two zeros are equal.
pub open spec fn float_eq(a: u64, b: u64) -> bool {
    !float_is_nan(a) && !float_is_nan(b) && (a == b || (float_is_zero(a) && float_is_zero(b)))
}

/// The value bound to `key` in a list of entries (the first binding).
pub open spec fn field_get(fs: Seq<(Seq<char>, ValueV)>, key: Seq<char>) -> Option<ValueV>
    decreases fs.len(),
{
    if fs.len() == 0 {
        None
    } else if fs[0].0 == key {
        Some(fs[0].1)
    } else {
        field_get(fs.drop_first(), key)
    }
}

/// Equality of values: floats compare as doubles, maps and fields compare as maps
/// (same size, and each key of one bound in the other to an equal value).
pub open spec fn value_eq(a: ValueV, b: ValueV) -> bool
    decreases a, 1int,
{
    match (a, b) {
        (ValueV::Null, ValueV::Null) => true,
        (ValueV::Int(x), ValueV::Int(y)) => x == y,
        (ValueV::Float(x, _), ValueV::Float(y, _)) => float_eq(x, y),
        (ValueV::Str(x), ValueV::Str(y)) => x == y,
        (ValueV::Bool(x), ValueV::Bool(y)) => x == y,
        (ValueV::Bytes(x), ValueV::Bytes(y)) => x == y,
        (ValueV::List(x), ValueV::List(y)) => x.len() == y.len() && values_eq(x, y),
        (ValueV::Mapping(x), ValueV::Mapping(y)) => x.len() == y.len() && fields_in(x, y),
        (ValueV::Object(t, x), ValueV::Object(u, y)) => t == u && x.len() == y.len() && fields_in(x, y),
        _ => false,
    }
}

/// Pairwise equality of the elements of `x` with those of `y`.
pub open spec fn values_eq(x: Seq<ValueV>, y: Seq<ValueV>) -> bool
    decreases x, 0int,
{
    if x.len() == 0 {
        true
    } else {
        y.len() > 0 && value_eq(x[0], y[0]) && values_eq(x.drop_first(), y.drop_first())
    }
}

/// Every entry of `x` is bound in `y` to an equal value.
pub open spec fn fields_in(x: Seq<(Seq<char>, ValueV)>, y: Seq<(Seq<char>, ValueV)>) -> bool
    decreases x, 0int,
{
    if x.len() == 0 {
        true
    } else {
        match field_get(y, x[0].0) {
            Some(v) => value_eq(x[0].1, v) && fields_in(x.drop_first(), y),
            None => false,
        }
    }
}

/// Whether the double with these bits is a NaN.
pub fn is_nan_bits(b: u64) -> (r: bool)
    ensures
        r == float_is_nan(b),
{
    (b >> 52u64) & 0x7ffu64 == 0x7ffu64 && b & 0xf_ffff_ffff_ffffu64 != 0
}

/// Whether the double with these bits is a zero.
pub fn is_zero_bits(b: u64) -> (r: bool)
    ensures
        r == float_is_zero(b),
{
    b & 0x7fff_ffff_ffff_ffffu64 == 0
}

/// The index of the entry bound to `key`, if any.
pub fn field_index(fs: &Vec<(String, Value)>, key: &String) -> (r: Option<usize>)
    ensures
        match r {
            Some(i) => i < fs@.len() && fs@[i as int].0@ == key@ && i == field_pos(fields_view(fs@), key@)
                && field_get(fields_view(fs@), key@) == Some(fs@[i as int].1@),
            None => field_get(fields_view(fs@), key@) is None && field_pos(fields_view(fs@), key@) == -1,
        },
{
    let ghost fv = fields_view(fs@);
    proof {
        lemma_fields_view(fs@);
        lemma_field_pos(fv, key@);
    }
    let mut k: usize = 0;
    while k < fs.len()
        invariant
            k <= fs.len(),
            fv == fields_view(fs@),
            fv.len() == fs@.len(),
            forall|j: int| 0 <= j < fs@.len() ==> #[trigger] fv[j] == (fs@[j].0@, fs@[j].1@),
            forall|j: int| 0 <= j < k ==> (#[trigger] fv[j]).0 != key@,
            -1 <= field_pos(fv, key@) < fv.len(),
            field_pos(fv, key@) >= 0 ==> fv[field_pos(fv, key@)].0 == key@ && field_get(fv, key@) == Some(
                fv[field_pos(fv, key@)].1,
            ),
            field_pos(fv, key@) >= 0 ==> forall|j: int| 0 <= j < field_pos(fv, key@) ==> fv[j].0 != key@,
            field_pos(fv, key@) == -1 ==> field_get(fv, key@) is None,
            field_pos(fv, key@) == -1 ==> forall|j: int| 0 <= j < fv.len() ==> fv[j].0 != key@,
        decreases fs.len() - k,
    {
        if string_eq(&fs[k].0, key) {
            assert(fv[k as int].0 == key@);
            return Some(k);
        }
        k = k + 1;
    }
    proof {
        if field_pos(fv, key@) >= 0 {
            assert(fv[field_pos(fv, key@)].0 == key@);
        }
    }
    None
}

/// Whether two values are equal, as [`value_eq`] says.
pub fn values_equal(a: &Value, b: &Value) -> (r: bool)
    ensures
        r == value_eq(a@, b@),
    decreases a, 1int,
{
    match (a, b) {
        (Value::Null, Value::Null) => true,
        (Value::Int(x), Value::Int(y)) => *x == *y,
        (Value::Float(x, _), Value::Float(y, _)) => !is_nan_bits(*x) && !is_nan_bits(*y) && (*x == *y || (
        is_zero_bits(*x) && is_zero_bits(*y))),
        (Value::Str(x), Value::Str(y)) => string_eq(x, y),
        (Value::Bool(x), Value::Bool(y)) => *x == *y,
        (Value::Bytes(x), Value::Bytes(y)) => crate::text::bytes_eq(x, y),
        (Value::List(x), Value::List(y)) => {
            proof {
                lemma_values_view(x@);
                lemma_values_view(y@);
            }
            x.len() == y.len() && lists_equal(x, y)
        },
        (Value::Mapping(x), Value::Mapping(y)) => {
            proof {
                lemma_fields_view(x@);
                lemma_fields_view(y@);
            }
            x.len() == y.len() && fields_equal(x, y)
        },
        (Value::Object(t, x), Value::Object(u, y)) => {
            proof {
                lemma_fields_view(x@);
                lemma_fields_view(y@);
            }
            string_eq(t, u) && x.len() == y.len() && fields_equal(x, y)
        },
        _ => false,
    }
}

/// Pairwise equality of two lists of the same length.
fn lists_equal(x: &Vec<Value>, y: &Vec<Value>) -> (r: bool)
    requires
        x@.len() == y@.len(),
    ensures
        r == values_eq(values_view(x@), values_view(y@)),
    decreases x, 0int,
{
    let ghost xv = values_view(x@);
    let ghost yv = values_view(y@);
    proof {
        lemma_values_view(x@);
        lemma_values_view(y@);
        assert(xv.skip(0) =~= xv);
        assert(yv.skip(0) =~= yv);
    }
    let mut k: usize = 0;
    while k < x.len()
        invariant
            k <= x.len(),
            x@.len() == y@.len(),
            xv == values_view(x@),
            yv == values_view(y@),
            xv.len() == x@.len(),
            yv.len() == y@.len(),
            forall|j: int| 0 <= j < x@.len() ==> #[trigger] xv[j] == x@[j]@,
            forall|j: int| 0 <= j < y@.len() ==> #[trigger] yv[j] == y@[j]@,
            values_eq(xv, yv) == values_eq(xv.skip(k as int), yv.skip(k as int)),
        decreases x.len() - k,
    {
        assert(xv.skip(k as int)[0] == xv[k as int]);
        assert(yv.skip(k as int)[0] == yv[k as int]);
        assert(xv.skip(k as int).drop_first() =~= xv.skip(k + 1));
        assert(yv.skip(k as int).drop_first() =~= yv.skip(k + 1));
        if !values_equal(&x[k], &y[k]) {
            return false;
        }
        k = k + 1;
    }
    assert(xv.skip(k as int).len() == 0);
    true
}

/// Whether every entry of `x` is bound in `y` to an equal value.
fn fields_equal(x: &Vec<(String, Value)>, y: &Vec<(String, Value)>) -> (r: bool)
    ensures
        r == fields_in(fields_view(x@), fields_view(y@)),
    decreases x, 0int,
{
    let ghost xv = fields_view(x@);
    let ghost yv = fields_view(y@);
    proof {
        lemma_fields_view(x@);
        assert(xv.skip(0) =~= xv);
    }
    let mut k: usize = 0;
    while k < x.len()
        invariant
            k <= x.len(),
            xv == fields_view(x@),
            yv == fields_view(y@),
            xv.len() == x@.len(),
            forall|j: int| 0 <= j < x@.len() ==> #[trigger] xv[j] == (x@[j].0@, x@[j].1@),
            fields_in(xv, yv) == fields_in(xv.skip(k as int), yv),
        decreases x.len() - k,
    {
        assert(xv.skip(k as int)[0] == xv[k as int]);
        assert(xv.skip(k as int).drop_first() =~= xv.skip(k + 1));
        match field_index(y, &x[k].0) {
            Some(i) => {
                if !values_equal(&x[k].1, &y[i].1) {
                    return false;
                }
            },
            None => {
                return false;
            },
        }
        k = k + 1;
    }
    assert(xv.skip(k as int).len() == 0);
    true
}

// ---------------------------------------------------------------------------
// Text

/// `init` followed by `", "` when `more` holds.
pub open spec fn then_sep(init: Seq<char>, more: bool) -> Seq<char> {
    if more {
        init + seq![',', ' ']
    } else {
        init
    }
}

/// The text of a value, as `print` shows it.
pub open spec fn value_text(v: ValueV) -> Seq<char>
    decreases v, 1int,
{
    match v {
        ValueV::Null => seq!['n', 'u', 'l', 'l'],
        ValueV::Int(n) => int_text(n as int),
        ValueV::Float(_, t) => t,
        ValueV::Str(s) => s,
        ValueV::Bool(b) => if b {
            seq!['t', 'r', 'u', 'e']
        } else {
            seq!['f', 'a', 'l', 's', 'e']
        },
        ValueV::Bytes(b) => seq!['b', '['] + bytes_text(b) + seq![']'],
        ValueV::List(items) => seq!['['] + items_text(items) + seq![']'],
        ValueV::Mapping(fs) => seq!['{'] + fields_text(fs) + seq!['}'],
        ValueV::Object(t, fs) => t + seq!['('] + fields_text(fs) + seq![')'],
    }
}

/// The numbers of a byte string, separated by `", "`.
pub open spec fn bytes_text(b: Seq<u8>) -> Seq<char>
    decreases b.len(),
{
    if b.len() == 0 {
        Seq::empty()
    } else {
        then_sep(bytes_text(b.drop_last()), b.len() > 1) + int_text(b.last() as int)
    }
}

/// The texts of values, separated by `", "`.
pub open spec fn items_text(s: Seq<ValueV>) -> Seq<char>
    decreases s, 0int,
{
    if s.len() == 0 {
        Seq::empty()
    } else {
        then_sep(items_text(s.drop_last()), s.len() > 1) + value_text(s.last())
    }
}

/// Entries as `key: value`, separated by `", "`.
pub open spec fn fields_text(fs: Seq<(Seq<char>, ValueV)>) -> Seq<char>
    decreases fs, 0int,
{
    if fs.len() == 0 {
        Seq::empty()
    } else {
        then_sep(fields_text(fs.drop_last()), fs.len() > 1) + fs.last().0 + seq![':', ' '] + value_text(
            fs.last().1,
        )
    }
}

fn push_sep(out: &mut Vec<char>, more: bool)
    ensures
        final(out)@ == then_sep(old(out)@, more),
{
    if more {
        out.push(',');
        out.push(' ');
        assert(final(out)@ =~= then_sep(old(out)@, more));
    }
}

/// Appends the text of a value.
pub fn push_value_text(out: &mut Vec<char>, v: &Value)
    ensures
        final(out)@ == old(out)@ + value_text(v@),
    decreases v, 1int,
{
    let ghost o = out@;
    match v {
        Value::Null => {
            out.push('n');
            out.push('u');
            out.push('l');
            out.push('l');
        },
        Value::Int(n) => {
            push_int(out, *n);
        },
        Value::Float(_, t) => {
            push_str(out, t.as_str());
        },
        Value::Str(s) => {
            push_str(out, s.as_str());
        },
        Value::Bool(b) => {
            if *b {
                out.push('t');
                out.push('r');
                out.push('u');
                out.push('e');
            } else {
                out.push('f');
                out.push('a');
                out.push('l');
                out.push('s');
                out.push('e');
            }
        },
        Value::Bytes(b) => {
            out.push('b');
            out.push('[');
            let ghost o2 = out@;
            let mut k: usize = 0;
            while k < b.len()
                invariant
                    k <= b.len(),
                    out@ == o2 + bytes_text(b@.take(k as int)),
                decreases b.len() - k,
            {
                assert(b@.take(k + 1).drop_last() =~= b@.take(k as int));
                push_sep(out, k > 0);
                push_int(out, b[k] as i64);
                k = k + 1;
                assert(out@ =~= o2 + bytes_text(b@.take(k as int)));
            }
            assert(b@.take(k as int) =~= b@);
            out.push(']');
        },
        Value::List(items) => {
            out.push('[');
            push_items_text(out, items);
            out.push(']');
        },
        Value::Mapping(fs) => {
            out.push('{');
            push_fields_text(out, fs);
            out.push('}');
        },
        Value::Object(t, fs) => {
            push_str(out, t.as_str());
            out.push('(');
            push_fields_text(out, fs);
            out.push(')');
        },
    }
    assert(out@ =~= o + value_text(v@));
}

fn push_items_text(out: &mut Vec<char>, items: &Vec<Value>)
    ensures
        final(out)@ == old(out)@ + items_text(values_view(items@)),
    decreases items, 0int,
{
    let ghost vv = values_view(items@);
    let ghost o = out@;
    proof {
        lemma_values_view(items@);
        assert(vv.take(0) =~= Seq::<ValueV>::empty());
        assert(o + Seq::<char>::empty() =~= o);
    }
    let mut k: usize = 0;
    while k < items.len()
        invariant
            k <= items.len(),
            vv == values_view(items@),
            vv.len() == items@.len(),
            forall|j: int| 0 <= j < items@.len() ==> #[trigger] vv[j] == items@[j]@,
            out@ == o + items_text(vv.take(k as int)),
        decreases items.len() - k,
    {
        assert(vv.take(k + 1).drop_last() =~= vv.take(k as int));
        assert(vv.take(k + 1).last() == vv[k as int]);
        push_sep(out, k > 0);
        push_value_text(out, &items[k]);
        k = k + 1;
        assert(out@ =~= o + items_text(vv.take(k as int)));
    }
    assert(vv.take(k as int) =~= vv);
}

fn push_fields_text(out: &mut Vec<char>, fs: &Vec<(String, Value)>)
    ensures
        final(out)@ == old(out)@ + fields_text(fields_view(fs@)),
    decreases fs, 0int,
{
    let ghost fv = fields_view(fs@);
    let ghost o = out@;
    proof {
        lemma_fields_view(fs@);
        assert(fv.take(0) =~= Seq::<(Seq<char>, ValueV)>::empty());
        assert(o + Seq::<char>::empty() =~= o);
    }
    let mut k: usize = 0;
    while k < fs.len()
        invariant
            k <= fs.len(),
            fv == fields_view(fs@),
            fv.len() == fs@.len(),
            forall|j: int| 0 <= j < fs@.len() ==> #[trigger] fv[j] == (fs@[j].0@, fs@[j].1@),
            out@ == o + fields_text(fv.take(k as int)),
        decreases fs.len() - k,
    {
        assert(fv.take(k + 1).drop_last() =~= fv.take(k as int));
        assert(fv.take(k + 1).last() == fv[k as int]);
        push_sep(out, k > 0);
        push_str(out, fs[k].0.as_str());
        out.push(':');
        out.push(' ');
        push_value_text(out, &fs[k].1);
        k = k + 1;
        assert(out@ =~= o + fields_text(fv.take(k as int)));
    }
    assert(fv.take(k as int) =~= fv);
}

impl Value {
    /// The text of the value, as `print` shows it.
    pub fn stringify(&self) -> (s: String)
        ensures
            s@ == value_text(self@),
    {
        let mut out: Vec<char> = Vec::new();
        push_value_text(&mut out, self);
        assert(out@ =~= value_text(self@));
        chars_to_string(out.as_slice())
    }
}


// ---------------------------------------------------------------------------
// Entries

/// Where `key` is bound among the entries (the first binding), or -1.
pub open spec fn field_pos(fs: Seq<(Seq<char>, ValueV)>, key: Seq<char>) -> int
    decreases fs.len(),
{
    if fs.len() == 0 {
        -1
    } else if fs[0].0 == key {
        0
    } else {
        let r = field_pos(fs.drop_first(), key);
        if r < 0 {
            -1
        } else {
            r + 1
        }
    }
}

/// The entries with `key` bound to `v`: an existing binding is replaced in place, a new
/// one goes last.
pub open spec fn field_set(fs: Seq<(Seq<char>, ValueV)>, key: Seq<char>, v: ValueV) -> Seq<(Seq<char>, ValueV)> {
    let i = field_pos(fs, key);
    if i >= 0 {
        fs.update(i, (key, v))
    } else {
        fs.push((key, v))
    }
}

pub proof fn lemma_field_pos(fs: Seq<(Seq<char>, ValueV)>, key: Seq<char>)
    ensures
        -1 <= field_pos(fs, key) < fs.len(),
        field_pos(fs, key) >= 0 ==> fs[field_pos(fs, key)].0 == key && field_get(fs, key) == Some(
            fs[field_pos(fs, key)].1,
        ),
        field_pos(fs, key) >= 0 ==> forall|j: int| 0 <= j < field_pos(fs, key) ==> fs[j].0 != key,
        field_pos(fs, key) == -1 ==> field_get(fs, key) is None && forall|j: int|
            0 <= j < fs.len() ==> fs[j].0 != key,
    decreases fs.len(),
{
    if fs.len() > 0 && fs[0].0 != key {
        lemma_field_pos(fs.drop_first(), key);
        assert forall|j: int| 1 <= j < fs.len() implies fs[j] == fs.drop_first()[j - 1] by {}
    }
}

/// The entries of a map or of an object's fields have distinct keys.
pub open spec fn keys_distinct(fs: Seq<(Seq<char>, ValueV)>) -> bool {
    forall|i: int, j: int| 0 <= i < j < fs.len() ==> #[trigger] fs[i].0 != #[trigger] fs[j].0
}

/// Writing a key keeps the keys distinct.
pub proof fn law_field_set_keeps_keys_distinct(fs: Seq<(Seq<char>, ValueV)>, key: Seq<char>, v: ValueV)
    requires
        keys_distinct(fs),
    ensures
        keys_distinct(field_set(fs, key, v)),
{
    lemma_field_pos(fs, key);
    let t = field_set(fs, key, v);
    let p = field_pos(fs, key);
    assert forall|i: int, j: int| 0 <= i < j < t.len() implies #[trigger] t[i].0 != #[trigger] t[j].0 by {
        if p >= 0 {
            if i != p && j != p {
                assert(t[i] == fs[i] && t[j] == fs[j]);
            } else if i == p {
                assert(t[j] == fs[j]);
                assert(fs[p].0 == key);
            } else {
                assert(t[i] == fs[i]);
                assert(fs[p].0 == key);
            }
        } else {
            if j < fs.len() {
                assert(t[i] == fs[i] && t[j] == fs[j]);
            } else {
                assert(t[i] == fs[i]);
            }
        }
    }
}

/// A read after a write gives back what was written, and leaves other keys alone.
pub proof fn law_field_get_set(fs: Seq<(Seq<char>, ValueV)>, key: Seq<char>, v: ValueV, other: Seq<char>)
    ensures
        field_get(field_set(fs, key, v), key) == Some(v),
        other != key ==> field_get(field_set(fs, key, v), other) == field_get(fs, other),
{
    lemma_field_pos(fs, key);
    lemma_field_pos(fs, other);
    let t = field_set(fs, key, v);
    lemma_field_pos(t, key);
    lemma_field_pos(t, other);
    let i = field_pos(fs, key);
    assert(t.len() >= fs.len());
    assert forall|j: int| 0 <= j < fs.len() && j != i implies t[j] == fs[j] by {}
    if i >= 0 {
        assert(t[i].0 == key);
    } else {
        assert(t[fs.len() as int].0 == key);
    }
    let pk = field_pos(t, key);
    assert(pk >= 0);
    if pk < i || (i < 0 && pk < fs.len()) {
        assert(fs[pk].0 == key);
    }
    assert(pk == if i >= 0 { i } else { fs.len() as int });
    if other != key {
        let po = field_pos(fs, other);
        let qo = field_pos(t, other);
        if qo >= 0 {
            assert(qo != pk);
            if qo < fs.len() {
                assert(t[qo] == fs[qo]);
            }
            if po >= 0 {
                assert(t[po] == fs[po]);
            }
        } else {
            if po >= 0 {
                assert(t[po] == fs[po]);
            }
        }
    }
}

/// Binds `key` to `v` among the entries.
pub fn set_field(fs: &mut Vec<(String, Value)>, key: String, v: Value)
    ensures
        fields_view(final(fs)@) == field_set(fields_view(old(fs)@), key@, v@),
{
    proof {
        lemma_fields_view(fs@);
        lemma_field_pos(fields_view(fs@), key@);
    }
    match field_index(fs, &key) {
        Some(i) => {
            fs.set(i, (key, v));
        },
        None => {
            fs.push((key, v));
        },
    }
    proof {
        lemma_fields_view(fs@);
    }
    assert(fields_view(fs@) =~= field_set(fields_view(old(fs)@), key@, v@));
}

} // verus!
