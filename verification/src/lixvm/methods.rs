//! Methods of the built-in kinds of value: strings, byte strings, lists and maps.
use vstd::prelude::*;
use crate::lixvm::value::{
    Value, ValueV, values_view, fields_view, lemma_values_view, lemma_fields_view,
    lemma_values_view_push, lemma_fields_view_push, copy_value, copy_values, copy_fields, value_eq, values_equal,
    value_text, field_get, field_index, push_value_text, keys_distinct, field_pos, lemma_field_pos, };
use crate::lixvm::error::{VmError, VmErrorV};
use crate::text::{
    spec_is_whitespace, is_whitespace, spec_to_uppercase, spec_to_lowercase, to_uppercase,
    to_lowercase, string_to_chars, chars_to_string, str_eq, copy_string, push_str, string_eq, };
use crate::bytecode::chunk::{lossy_decode, string_from_utf8_lossy};

verus! {

pub type MethodRes = Result<ValueV, VmErrorV>;

pub open spec fn method_agrees(r: Result<Value, VmError>, s: MethodRes) -> bool {
    match s {
        Ok(v) => r matches Ok(x) && x@ == v,
        Err(e) => r matches Err(x) && x@ == e,
    }
}

// ---------------------------------------------------------------------------
// Text searching

/// Whether `p` occurs in `s` at `i`.
pub open spec fn matches_at(s: Seq<char>, p: Seq<char>, i: int) -> bool {
    0 <= i && i + p.len() <= s.len() && s.subrange(i, i + p.len()) == p
}

/// The first index from `i` on where `p` occurs in `s`.
pub open spec fn first_match(s: Seq<char>, p: Seq<char>, i: int) -> Option<int>
    decreases s.len() + 1 - i,
{
    if i < 0 || i + p.len() > s.len() {
        None
    } else if matches_at(s, p, i) {
        Some(i)
    } else {
        first_match(s, p, i + 1)
    }
}

/// The search from `i` finds the first occurrence at or after `i`, and none means there is
/// none from `i` on.
pub proof fn law_first_match_least(s: Seq<char>, p: Seq<char>, i: int)
    requires
        0 <= i,
    ensures
        first_match(s, p, i) matches Some(k) ==> i <= k && matches_at(s, p, k) && forall|j: int|
            i <= j < k ==> !#[trigger] matches_at(s, p, j),
        first_match(s, p, i) is None ==> forall|j: int| i <= j ==> !#[trigger] matches_at(s, p, j),
    decreases s.len() + 1 - i,
{
    if i + p.len() <= s.len() && !matches_at(s, p, i) {
        law_first_match_least(s, p, i + 1);
    }
}

/// The number of bytes of a character in UTF-8.
pub open spec fn char_utf8_len(c: char) -> nat {
    if (c as u32) < 0x80 {
        1
    } else if (c as u32) < 0x800 {
        2
    } else if (c as u32) < 0x10000 {
        3
    } else {
        4
    }
}

/// The number of bytes of a text in UTF-8.
pub open spec fn utf8_len(s: Seq<char>) -> nat
    decreases s.len(),
{
    if s.len() == 0 {
        0
    } else {
        utf8_len(s.drop_last()) + char_utf8_len(s.last())
    }
}

/// Whitespace at the start of a text.
pub open spec fn lead_ws(s: Seq<char>) -> nat
    decreases s.len(),
{
    if s.len() > 0 && spec_is_whitespace(s[0]) {
        1 + lead_ws(s.drop_first())
    } else {
        0
    }
}

/// Whitespace at the end of a text.
pub open spec fn trail_ws(s: Seq<char>) -> nat
    decreases s.len(),
{
    if s.len() > 0 && spec_is_whitespace(s.last()) {
        1 + trail_ws(s.drop_last())
    } else {
        0
    }
}

/// A text without its leading and trailing whitespace.
pub open spec fn trim_spec(s: Seq<char>) -> Seq<char> {
    if lead_ws(s) >= s.len() {
        Seq::empty()
    } else {
        s.subrange(lead_ws(s) as int, s.len() - trail_ws(s))
    }
}

/// `s` from `i` on with each occurrence of a non-empty `p` replaced by `n`, left to right.
pub open spec fn replace_from(s: Seq<char>, p: Seq<char>, n: Seq<char>, i: int) -> Seq<char>
    decreases s.len() - i,
{
    if i < 0 || i >= s.len() {
        Seq::empty()
    } else if p.len() > 0 && matches_at(s, p, i) {
        n + replace_from(s, p, n, i + p.len())
    } else {
        seq![s[i]] + replace_from(s, p, n, i + 1)
    }
}

/// `n` after each character of `s`.
pub open spec fn interleave(s: Seq<char>, n: Seq<char>) -> Seq<char>
    decreases s.len(),
{
    if s.len() == 0 {
        Seq::empty()
    } else {
        seq![s[0]] + n + interleave(s.drop_first(), n)
    }
}

/// `str::replace`: an empty pattern matches before every character and at the end.
pub open spec fn replace_spec(s: Seq<char>, p: Seq<char>, n: Seq<char>) -> Seq<char> {
    if p.len() == 0 {
        n + interleave(s, n)
    } else {
        replace_from(s, p, n, 0)
    }
}

/// The pieces of `s` between occurrences of a non-empty `sep`, the current piece starting
/// at `start` and the search at `i`.
pub open spec fn split_from(s: Seq<char>, sep: Seq<char>, start: int, i: int) -> Seq<Seq<char>>
    decreases s.len() - i,
{
    if sep.len() > 0 && matches_at(s, sep, i) {
        seq![s.subrange(start, i)] + split_from(s, sep, i + sep.len(), i + sep.len())
    } else if 0 <= i < s.len() {
        split_from(s, sep, start, i + 1)
    } else {
        seq![s.subrange(start, s.len() as int)]
    }
}

/// `str::split` by a text: an empty separator gives an empty piece, each character, and
/// an empty piece.
pub open spec fn split_spec(s: Seq<char>, sep: Seq<char>) -> Seq<Seq<char>> {
    if sep.len() == 0 {
        seq![Seq::<char>::empty()] + s.map_values(|c: char| seq![c]) + seq![Seq::<char>::empty()]
    } else {
        split_from(s, sep, 0, 0)
    }
}

/// A bound of a slice: a negative one is past the end, and none goes beyond the end.
pub open spec fn clamp(x: i64, len: nat) -> int {
    if x < 0 || x > len {
        len as int
    } else {
        x as int
    }
}

/// The arguments `(start, end)` of a slice, clamped, or why they are refused.
pub open spec fn slice_bounds(args: Seq<ValueV>, len: nat, name: Seq<char>) -> Result<Option<(int, int)>, VmErrorV> {
    if args.len() >= 2 {
        match (args[0], args[1]) {
            (ValueV::Int(a), ValueV::Int(b)) => if clamp(a, len) > clamp(b, len) {
                Err(VmErrorV::Other("slice start after end"@))
            } else {
                Ok(Some((clamp(a, len), clamp(b, len))))
            },
            _ => Err(VmErrorV::ArgumentType(name, first_arg(args))),
        }
    } else {
        Ok(None)
    }
}

/// The first argument, if there is one.
pub open spec fn first_arg(args: Seq<ValueV>) -> Option<ValueV> {
    if args.len() > 0 {
        Some(args[0])
    } else {
        None
    }
}

// ---------------------------------------------------------------------------
// Method specifications

/// The first argument, if it is a string.
pub open spec fn str_arg(args: Seq<ValueV>) -> Option<Seq<char>> {
    if args.len() > 0 {
        match args[0] {
            ValueV::Str(x) => Some(x),
            _ => None,
        }
    } else {
        None
    }
}

pub open spec fn string_method_spec(s: Seq<char>, method: Seq<char>, args: Seq<ValueV>) -> MethodRes {
    if method == "upper"@ {
        Ok(ValueV::Str(spec_to_uppercase(s)))
    } else if method == "lower"@ {
        Ok(ValueV::Str(spec_to_lowercase(s)))
    } else if method == "trim"@ {
        Ok(ValueV::Str(trim_spec(s)))
    } else if method == "contains"@ {
        match str_arg(args) {
            Some(p) => Ok(ValueV::Bool(first_match(s, p, 0) is Some)),
            None => Err(VmErrorV::ArgumentType("contains"@, first_arg(args))),
        }
    } else if method == "find"@ {
        match str_arg(args) {
            Some(p) => Ok(
                ValueV::Int(
                    match first_match(s, p, 0) {
                        Some(i) => utf8_len(s.take(i)) as i64,
                        None => -1i64,
                    },
                ),
            ),
            None => Err(VmErrorV::ArgumentType("find"@, first_arg(args))),
        }
    } else if method == "replace"@ {
        if args.len() >= 2 {
            match (args[0], args[1]) {
                (ValueV::Str(p), ValueV::Str(n)) => Ok(ValueV::Str(replace_spec(s, p, n))),
                _ => Err(VmErrorV::ArgumentType("replace"@, first_arg(args))),
            }
        } else {
            Ok(ValueV::Str(s))
        }
    } else if method == "starts_with"@ {
        match str_arg(args) {
            Some(p) => Ok(ValueV::Bool(matches_at(s, p, 0))),
            None => Err(VmErrorV::ArgumentType("starts_with"@, first_arg(args))),
        }
    } else if method == "ends_with"@ {
        match str_arg(args) {
            Some(p) => Ok(ValueV::Bool(matches_at(s, p, s.len() - p.len()))),
            None => Err(VmErrorV::ArgumentType("ends_with"@, first_arg(args))),
        }
    } else if method == "split"@ {
        match str_arg(args) {
            Some(p) => Ok(ValueV::List(split_spec(s, p).map_values(|x: Seq<char>| ValueV::Str(x)))),
            None => Err(VmErrorV::ArgumentType("split"@, first_arg(args))),
        }
    } else if method == "slice"@ {
        match slice_bounds(args, s.len(), "slice"@) {
            Ok(Some((a, b))) => Ok(ValueV::Str(s.subrange(a, b))),
            Ok(None) => Ok(ValueV::Str(s)),
            Err(e) => Err(e),
        }
    } else {
        Err(VmErrorV::UnknownMethod("string"@, method))
    }
}

proof fn lemma_utf8_len_bound(s: Seq<char>)
    ensures
        utf8_len(s) <= 4 * s.len(),
    decreases s.len(),
{
    if s.len() > 0 {
        lemma_utf8_len_bound(s.drop_last());
    }
}

/// On a string, `contains(p)` is true exactly when `p` occurs in it, `starts_with(p)` and
/// `ends_with(p)` exactly when it is a prefix or a suffix, and `find(p)` is -1 when `p` does
/// not occur and otherwise the byte offset of its first occurrence.
pub proof fn law_string_search(s: Seq<char>, p: Seq<char>)
    requires
        4 * s.len() <= i64::MAX,
    ensures
        string_method_spec(s, "contains"@, seq![ValueV::Str(p)]) == Ok::<ValueV, VmErrorV>(
            ValueV::Bool(exists|i: int| #[trigger] matches_at(s, p, i)),
        ),
        string_method_spec(s, "starts_with"@, seq![ValueV::Str(p)]) == Ok::<ValueV, VmErrorV>(
            ValueV::Bool(p.is_prefix_of(s)),
        ),
        string_method_spec(s, "ends_with"@, seq![ValueV::Str(p)]) == Ok::<ValueV, VmErrorV>(
            ValueV::Bool(p.is_suffix_of(s)),
        ),
        string_method_spec(s, "find"@, seq![ValueV::Str(p)]) matches Ok(ValueV::Int(k)) && (k == -1 <==> !exists|i: int|
            #[trigger] matches_at(s, p, i)) && (k != -1 ==> exists|i: int| #[trigger] matches_at(s, p, i) && (forall|j: int|
            0 <= j < i ==> !#[trigger] matches_at(s, p, j)) && k == utf8_len(s.take(i))),
{
    reveal_strlit("upper");
    reveal_strlit("lower");
    reveal_strlit("trim");
    reveal_strlit("contains");
    reveal_strlit("find");
    reveal_strlit("replace");
    reveal_strlit("starts_with");
    reveal_strlit("ends_with");
    assert("contains"@[0] != "upper"@[0] && "contains"@[0] != "lower"@[0] && "contains"@[0] != "trim"@[0]);
    assert("find"@[0] != "upper"@[0] && "find"@[0] != "lower"@[0] && "find"@[0] != "trim"@[0] && "find"@[0] != "contains"@[0]);
    assert("starts_with"@[0] != "upper"@[0] && "starts_with"@[0] != "lower"@[0] && "starts_with"@[0] != "trim"@[0]
        && "starts_with"@[0] != "contains"@[0] && "starts_with"@[0] != "find"@[0] && "starts_with"@[0] != "replace"@[0]);
    assert("ends_with"@[0] != "upper"@[0] && "ends_with"@[0] != "lower"@[0] && "ends_with"@[0] != "trim"@[0]
        && "ends_with"@[0] != "contains"@[0] && "ends_with"@[0] != "find"@[0] && "ends_with"@[0] != "replace"@[0]
        && "ends_with"@[0] != "starts_with"@[0]);
    let a = seq![ValueV::Str(p)];
    assert(str_arg(a) == Some(p));
    law_first_match_least(s, p, 0);
    match first_match(s, p, 0) {
        Some(i) => {
            assert(matches_at(s, p, i));
            assert(utf8_len(s.take(i)) <= i64::MAX) by {
                lemma_utf8_len_bound(s.take(i));
            }
        },
        None => {},
    }
    if p.is_prefix_of(s) {
        assert(s.subrange(0, p.len() as int) =~= p);
    }
    if p.is_suffix_of(s) {
        assert(s.subrange(s.len() - p.len(), s.len() as int) =~= p);
    }
}

proof fn lemma_replace_same(s: Seq<char>, p: Seq<char>, i: int)
    requires
        0 <= i <= s.len(),
        p.len() > 0,
    ensures
        replace_from(s, p, p, i) == s.skip(i),
    decreases s.len() - i,
{
    if i < s.len() {
        if matches_at(s, p, i) {
            lemma_replace_same(s, p, i + p.len());
            assert(s.subrange(i, i + p.len()) + s.skip(i + p.len()) =~= s.skip(i));
        } else {
            lemma_replace_same(s, p, i + 1);
            assert(seq![s[i]] + s.skip(i + 1) =~= s.skip(i));
        }
    } else {
        assert(s.skip(i) =~= Seq::<char>::empty());
    }
}

proof fn lemma_replace_absent(s: Seq<char>, p: Seq<char>, n: Seq<char>, i: int)
    requires
        0 <= i <= s.len(),
        forall|j: int| i <= j ==> !#[trigger] matches_at(s, p, j),
    ensures
        replace_from(s, p, n, i) == s.skip(i),
    decreases s.len() - i,
{
    if i < s.len() {
        assert(!matches_at(s, p, i));
        lemma_replace_absent(s, p, n, i + 1);
        assert(seq![s[i]] + s.skip(i + 1) =~= s.skip(i));
    } else {
        assert(s.skip(i) =~= Seq::<char>::empty());
    }
}

/// On a string, `replace(p, n)` gives the string back when `p` does not occur in it, and
/// replacing a non-empty `p` by itself gives the string back.
pub proof fn law_string_replace(s: Seq<char>, p: Seq<char>, n: Seq<char>)
    ensures
        p.len() > 0 && (forall|j: int| !#[trigger] matches_at(s, p, j)) ==> string_method_spec(
            s,
            "replace"@,
            seq![ValueV::Str(p), ValueV::Str(n)],
        ) == Ok::<ValueV, VmErrorV>(ValueV::Str(s)),
        p.len() > 0 ==> string_method_spec(s, "replace"@, seq![ValueV::Str(p), ValueV::Str(p)]) == Ok::<ValueV, VmErrorV>(
            ValueV::Str(s),
        ),
{
    reveal_strlit("upper");
    reveal_strlit("lower");
    reveal_strlit("trim");
    reveal_strlit("contains");
    reveal_strlit("find");
    reveal_strlit("replace");
    assert("replace"@[0] != "upper"@[0] && "replace"@[0] != "lower"@[0] && "replace"@[0] != "trim"@[0]
        && "replace"@[0] != "contains"@[0] && "replace"@[0] != "find"@[0]);
    let a = seq![ValueV::Str(p), ValueV::Str(n)];
    assert(a.len() >= 2 && a[0] == ValueV::Str(p) && a[1] == ValueV::Str(n));
    let b = seq![ValueV::Str(p), ValueV::Str(p)];
    assert(b.len() >= 2 && b[0] == ValueV::Str(p) && b[1] == ValueV::Str(p));
    assert(s.skip(0) =~= s);
    if p.len() > 0 {
        lemma_replace_same(s, p, 0);
        if forall|j: int| !#[trigger] matches_at(s, p, j) {
            lemma_replace_absent(s, p, n, 0);
        }
    }
}

proof fn lemma_lead_ws(s: Seq<char>)
    ensures
        lead_ws(s) <= s.len(),
        forall|k: int| 0 <= k < lead_ws(s) ==> spec_is_whitespace(#[trigger] s[k]),
        lead_ws(s) < s.len() ==> !spec_is_whitespace(s[lead_ws(s) as int]),
    decreases s.len(),
{
    if s.len() > 0 && spec_is_whitespace(s[0]) {
        lemma_lead_ws(s.drop_first());
        assert forall|k: int| 0 <= k < lead_ws(s) implies spec_is_whitespace(#[trigger] s[k]) by {
            if k > 0 {
                assert(s[k] == s.drop_first()[k - 1]);
            }
        }
        if lead_ws(s) < s.len() {
            assert(s[lead_ws(s) as int] == s.drop_first()[lead_ws(s.drop_first()) as int]);
        }
    }
}

proof fn lemma_trail_ws(s: Seq<char>)
    ensures
        trail_ws(s) <= s.len(),
        forall|k: int| s.len() - trail_ws(s) <= k < s.len() ==> spec_is_whitespace(#[trigger] s[k]),
        trail_ws(s) < s.len() ==> !spec_is_whitespace(s[s.len() - 1 - trail_ws(s)]),
    decreases s.len(),
{
    if s.len() > 0 && spec_is_whitespace(s.last()) {
        lemma_trail_ws(s.drop_last());
        assert forall|k: int| s.len() - trail_ws(s) <= k < s.len() implies spec_is_whitespace(#[trigger] s[k]) by {
            if k < s.len() - 1 {
                assert(s[k] == s.drop_last()[k]);
            }
        }
        if trail_ws(s) < s.len() {
            assert(s[s.len() - 1 - trail_ws(s)] == s.drop_last()[s.drop_last().len() - 1 - trail_ws(s.drop_last())]);
        }
    }
}

/// On a string, `trim()` gives the part of it between whitespace at the start and whitespace
/// at the end, which neither starts nor ends with whitespace.
pub proof fn law_string_trim(s: Seq<char>)
    ensures
        string_method_spec(s, "trim"@, Seq::empty()) matches Ok(ValueV::Str(r)) && exists|a: int, b: int|
            0 <= a <= b <= s.len() && r == s.subrange(a, b) && (forall|k: int| 0 <= k < a ==> spec_is_whitespace(
                #[trigger] s[k],
            )) && (forall|k: int| b <= k < s.len() ==> spec_is_whitespace(#[trigger] s[k])) && (r.len() > 0
                ==> !spec_is_whitespace(r[0]) && !spec_is_whitespace(r.last())),
{
    reveal_strlit("upper");
    reveal_strlit("lower");
    reveal_strlit("trim");
    assert("trim"@[0] != "upper"@[0] && "trim"@[0] != "lower"@[0]);
    lemma_lead_ws(s);
    lemma_trail_ws(s);
    let l = lead_ws(s) as int;
    let t = trail_ws(s) as int;
    if l >= s.len() {
        assert(s.subrange(s.len() as int, s.len() as int) =~= Seq::<char>::empty());
        assert(trim_spec(s) == s.subrange(s.len() as int, s.len() as int));
    } else {
        assert(!spec_is_whitespace(s[l]));
        assert(l < s.len() - t) by {
            if l >= s.len() - t {
                assert(spec_is_whitespace(s[l]));
            }
        }
        assert(t < s.len());
        let r = s.subrange(l, s.len() - t);
        assert(r[0] == s[l]);
        assert(r.last() == s[s.len() - 1 - t]);
        assert(trim_spec(s) == s.subrange(l, s.len() - t));
    }
}

pub open spec fn bytes_method_spec(b: Seq<u8>, method: Seq<char>, args: Seq<ValueV>) -> MethodRes {
    if method == "slice"@ {
        match slice_bounds(args, b.len(), "slice"@) {
            Ok(Some((x, y))) => Ok(ValueV::Bytes(b.subrange(x, y))),
            Ok(None) => Ok(ValueV::Bytes(b)),
            Err(e) => Err(e),
        }
    } else if method == "to_string"@ {
        Ok(ValueV::Str(lossy_decode(b)))
    } else {
        Err(VmErrorV::UnknownMethod("bytes"@, method))
    }
}

/// The first index of an element equal to `x`, or -1.
pub open spec fn index_of_spec(items: Seq<ValueV>, x: ValueV) -> int
    decreases items.len(),
{
    if items.len() == 0 {
        -1
    } else if value_eq(items[0], x) {
        0
    } else {
        let r = index_of_spec(items.drop_first(), x);
        if r < 0 {
            -1
        } else {
            r + 1
        }
    }
}

/// `index_of` gives the least index of an element equal to `x`, or -1 when there is none.
pub proof fn law_index_of_least(items: Seq<ValueV>, x: ValueV)
    ensures
        -1 <= index_of_spec(items, x) < items.len(),
        index_of_spec(items, x) >= 0 ==> value_eq(items[index_of_spec(items, x)], x),
        forall|j: int| 0 <= j < items.len() && (index_of_spec(items, x) == -1 || j < index_of_spec(items, x))
            ==> !value_eq(#[trigger] items[j], x),
    decreases items.len(),
{
    if items.len() > 0 && !value_eq(items[0], x) {
        let rest = items.drop_first();
        law_index_of_least(rest, x);
        let r = index_of_spec(items, x);
        let rr = index_of_spec(rest, x);
        assert forall|j: int| 0 <= j < items.len() && (r == -1 || j < r) implies !value_eq(
            #[trigger] items[j],
            x,
        ) by {
            if j > 0 {
                assert(items[j] == rest[j - 1]);
            }
        }
        if r >= 0 {
            assert(items[r] == rest[rr]);
        }
    }
}

/// On a list, `contains(x)` is true exactly when some element equals `x`, and `index_of(x)`
/// is the least index of such an element, or -1 when there is none.
pub proof fn law_list_contains_and_index_of(items: Seq<ValueV>, x: ValueV)
    requires
        items.len() <= i64::MAX,
    ensures
        list_method_spec(items, "contains"@, seq![x]) == Ok::<ValueV, VmErrorV>(
            ValueV::Bool(exists|j: int| 0 <= j < items.len() && value_eq(#[trigger] items[j], x)),
        ),
        list_method_spec(items, "index_of"@, seq![x]) matches Ok(ValueV::Int(k)) && -1 <= k < items.len() && (k
            == -1 <==> !exists|j: int| 0 <= j < items.len() && value_eq(#[trigger] items[j], x)) && (k >= 0
            ==> value_eq(items[k as int], x) && forall|j: int| 0 <= j < k ==> !value_eq(#[trigger] items[j], x)),
{
    reveal_strlit("push");
    reveal_strlit("concat");
    reveal_strlit("slice");
    reveal_strlit("contains");
    reveal_strlit("index_of");
    law_index_of_least(items, x);
    let r = index_of_spec(items, x);
    let a = seq![x];
    assert(a.len() > 0 && a[0] == x);
    assert("contains"@[0] != "push"@[0] && "contains"@[3] != "concat"@[3] && "contains"@[0] != "slice"@[0]);
    assert("index_of"@[0] != "push"@[0] && "index_of"@[0] != "concat"@[0] && "index_of"@[0] != "slice"@[0]
        && "index_of"@[0] != "contains"@[0]);
    assert(list_method_spec(items, "contains"@, a) == Ok::<ValueV, VmErrorV>(ValueV::Bool(r >= 0)));
    if r >= 0 {
        assert(value_eq(items[r], x));
    }
    assert(list_method_spec(items, "index_of"@, a) == Ok::<ValueV, VmErrorV>(ValueV::Int(r as i64)));
}

/// On a list, `push(x)` gives the elements followed by `x`; `concat(o)` gives the elements
/// followed by those of `o`; `reverse()` gives the elements last first, and reversing twice
/// gives the list back; `slice(a, b)` within bounds gives the elements from `a` up to `b`.
pub proof fn law_list_rebuilders(items: Seq<ValueV>, x: ValueV, other: Seq<ValueV>, a: i64, b: i64)
    ensures
        list_method_spec(items, "push"@, seq![x]) matches Ok(ValueV::List(r)) && r.len() == items.len() + 1 && r.last()
            == x && r.take(items.len() as int) == items,
        list_method_spec(items, "concat"@, seq![ValueV::List(other)]) matches Ok(ValueV::List(r)) && r.len() == items.len()
            + other.len() && r.take(items.len() as int) == items && r.skip(items.len() as int) == other,
        list_method_spec(items, "reverse"@, Seq::empty()) matches Ok(ValueV::List(r)) && r.len() == items.len() && (forall|i: int|
            0 <= i < items.len() ==> #[trigger] r[i] == items[items.len() - 1 - i]) && list_method_spec(
            r,
            "reverse"@,
            Seq::empty(),
        ) == Ok::<ValueV, VmErrorV>(ValueV::List(items)),
        0 <= a <= b <= items.len() ==> (list_method_spec(items, "slice"@, seq![ValueV::Int(a), ValueV::Int(b)]) matches Ok(
            ValueV::List(r),
        ) && r.len() == b - a && forall|i: int| 0 <= i < b - a ==> #[trigger] r[i] == items[a + i]),
{
    reveal_strlit("push");
    reveal_strlit("concat");
    reveal_strlit("slice");
    reveal_strlit("contains");
    reveal_strlit("index_of");
    reveal_strlit("reverse");
    assert("concat"@[0] != "push"@[0]);
    assert("slice"@[0] != "push"@[0] && "slice"@[0] != "concat"@[0]);
    assert("reverse"@[0] != "push"@[0] && "reverse"@[0] != "concat"@[0] && "reverse"@[0] != "slice"@[0]
        && "reverse"@[0] != "contains"@[0] && "reverse"@[0] != "index_of"@[0]);
    let p1 = seq![x];
    assert(p1.len() > 0 && p1[0] == x);
    assert(items.push(x).take(items.len() as int) =~= items);
    let p2 = seq![ValueV::List(other)];
    assert(p2.len() > 0 && p2[0] == ValueV::List(other));
    assert((items + other).take(items.len() as int) =~= items);
    assert((items + other).skip(items.len() as int) =~= other);
    assert(items.reverse().reverse() =~= items);
    let p3 = seq![ValueV::Int(a), ValueV::Int(b)];
    assert(p3.len() >= 2 && p3[0] == ValueV::Int(a) && p3[1] == ValueV::Int(b));
}

/// The texts of the elements, separated by `sep`.
pub open spec fn join_spec(items: Seq<ValueV>, sep: Seq<char>) -> Seq<char>
    decreases items.len(),
{
    if items.len() == 0 {
        Seq::empty()
    } else {
        join_spec(items.drop_last(), sep) + (if items.len() > 1 { sep } else { Seq::empty() }) + value_text(
            items.last(),
        )
    }
}

/// Texts joined with `sep` between them.
pub open spec fn join_texts(ps: Seq<Seq<char>>, sep: Seq<char>) -> Seq<char>
    decreases ps.len(),
{
    if ps.len() == 0 {
        Seq::empty()
    } else {
        join_texts(ps.drop_last(), sep) + (if ps.len() > 1 { sep } else { Seq::empty() }) + ps.last()
    }
}

proof fn lemma_join_strs(ps: Seq<Seq<char>>, sep: Seq<char>)
    ensures
        join_spec(ps.map_values(|x: Seq<char>| ValueV::Str(x)), sep) == join_texts(ps, sep),
    decreases ps.len(),
{
    if ps.len() > 0 {
        let vs = ps.map_values(|x: Seq<char>| ValueV::Str(x));
        assert(vs.drop_last() =~= ps.drop_last().map_values(|x: Seq<char>| ValueV::Str(x)));
        lemma_join_strs(ps.drop_last(), sep);
        assert(value_text(vs.last()) == ps.last());
    }
}

proof fn lemma_join_one(x: Seq<char>, sep: Seq<char>)
    ensures
        join_texts(seq![x], sep) == x,
{
    let ps = seq![x];
    assert(ps.drop_last() =~= Seq::<Seq<char>>::empty());
    assert(join_texts(ps.drop_last(), sep) == Seq::<char>::empty());
    assert(Seq::<char>::empty() + Seq::<char>::empty() + x =~= x);
}

proof fn lemma_join_cons(x: Seq<char>, ps: Seq<Seq<char>>, sep: Seq<char>)
    ensures
        join_texts(seq![x] + ps, sep) == x + (if ps.len() > 0 { sep + join_texts(ps, sep) } else { Seq::empty() }),
    decreases ps.len(),
{
    let all = seq![x] + ps;
    if ps.len() == 0 {
        assert(all =~= seq![x]);
        lemma_join_one(x, sep);
    } else {
        assert(all.drop_last() =~= seq![x] + ps.drop_last());
        lemma_join_cons(x, ps.drop_last(), sep);
        assert(all.last() == ps.last());
        if ps.len() == 1 {
            assert(ps =~= seq![ps.last()]);
            lemma_join_one(ps.last(), sep);
            assert(join_texts(all, sep) =~= x + (sep + join_texts(ps, sep)));
        } else {
            assert(join_texts(all, sep) =~= x + (sep + join_texts(ps, sep)));
        }
    }
}

proof fn lemma_split_join(s: Seq<char>, sep: Seq<char>, start: int, i: int)
    requires
        sep.len() > 0,
        0 <= start <= i <= s.len(),
    ensures
        split_from(s, sep, start, i).len() > 0,
        join_texts(split_from(s, sep, start, i), sep) == s.subrange(start, s.len() as int),
    decreases s.len() - i,
{
    if matches_at(s, sep, i) {
        let j = i + sep.len();
        lemma_split_join(s, sep, j, j);
        let rest = split_from(s, sep, j, j);
        lemma_join_cons(s.subrange(start, i), rest, sep);
        assert(s.subrange(start, i) + (sep + s.subrange(j, s.len() as int)) =~= s.subrange(start, s.len() as int));
    } else if i < s.len() {
        lemma_split_join(s, sep, start, i + 1);
    } else {
        lemma_join_one(s.subrange(start, s.len() as int), sep);
    }
}

proof fn lemma_join_chars(s: Seq<char>, k: int)
    requires
        0 <= k <= s.len(),
    ensures
        join_texts(seq![Seq::<char>::empty()] + s.take(k).map_values(|c: char| seq![c]), Seq::empty()) == s.take(k),
    decreases k,
{
    let e = Seq::<char>::empty();
    let ps = seq![e] + s.take(k).map_values(|c: char| seq![c]);
    if k == 0 {
        assert(ps =~= seq![e]);
        lemma_join_one(e, e);
        assert(s.take(0) =~= e);
    } else {
        lemma_join_chars(s, k - 1);
        assert(ps.drop_last() =~= seq![e] + s.take(k - 1).map_values(|c: char| seq![c]));
        assert(ps.last() == seq![s[k - 1]]);
        assert(join_texts(ps, e) =~= s.take(k - 1) + e + seq![s[k - 1]]);
        assert(s.take(k - 1) + e + seq![s[k - 1]] =~= s.take(k));
    }
}

/// Joining the pieces of a split with the same separator gives the text back.
pub proof fn law_join_undoes_split(s: Seq<char>, sep: Seq<char>)
    ensures
        join_spec(split_spec(s, sep).map_values(|x: Seq<char>| ValueV::Str(x)), sep) == s,
{
    lemma_join_strs(split_spec(s, sep), sep);
    if sep.len() > 0 {
        lemma_split_join(s, sep, 0, 0);
        assert(s.subrange(0, s.len() as int) =~= s);
    } else {
        let e = Seq::<char>::empty();
        let ps = split_spec(s, sep);
        lemma_join_chars(s, s.len() as int);
        assert(s.take(s.len() as int) =~= s);
        assert(sep =~= e);
        assert(ps.drop_last() =~= seq![e] + s.take(s.len() as int).map_values(|c: char| seq![c]));
        assert(ps.len() > 1);
        assert(join_texts(ps, sep) =~= s + sep + e);
        assert(s + sep + e =~= s);
    }
}

pub open spec fn list_method_spec(items: Seq<ValueV>, method: Seq<char>, args: Seq<ValueV>) -> MethodRes {
    if method == "push"@ {
        Ok(ValueV::List(if args.len() > 0 { items.push(args[0]) } else { items }))
    } else if method == "concat"@ {
        Ok(
            ValueV::List(
                if args.len() > 0 {
                    match args[0] {
                        ValueV::List(other) => items + other,
                        _ => items,
                    }
                } else {
                    items
                },
            ),
        )
    } else if method == "slice"@ {
        match slice_bounds(args, items.len(), "slice"@) {
            Ok(Some((a, b))) => Ok(ValueV::List(items.subrange(a, b))),
            Ok(None) => Ok(ValueV::List(items)),
            Err(e) => Err(e),
        }
    } else if method == "contains"@ {
        Ok(ValueV::Bool(args.len() > 0 && index_of_spec(items, args[0]) >= 0))
    } else if method == "index_of"@ {
        Ok(ValueV::Int(if args.len() > 0 { index_of_spec(items, args[0]) as i64 } else { -1i64 }))
    } else if method == "reverse"@ {
        Ok(ValueV::List(items.reverse()))
    } else if method == "join"@ {
        Ok(
            ValueV::Str(
                join_spec(
                    items,
                    match str_arg(args) {
                        Some(sep) => sep,
                        None => Seq::empty(),
                    },
                ),
            ),
        )
    } else {
        Err(VmErrorV::UnknownMethod("list"@, method))
    }
}

/// The entries without any binding of `key`, the others in their order.
pub open spec fn field_remove(fs: Seq<(Seq<char>, ValueV)>, key: Seq<char>) -> Seq<(Seq<char>, ValueV)>
    decreases fs.len(),
{
    if fs.len() == 0 {
        fs
    } else if fs[0].0 == key {
        field_remove(fs.drop_first(), key)
    } else {
        seq![fs[0]] + field_remove(fs.drop_first(), key)
    }
}

proof fn lemma_field_remove_sub(fs: Seq<(Seq<char>, ValueV)>, key: Seq<char>)
    ensures
        forall|j: int| 0 <= j < field_remove(fs, key).len() ==> fs.contains(#[trigger] field_remove(fs, key)[j])
            && field_remove(fs, key)[j].0 != key,
    decreases fs.len(),
{
    if fs.len() > 0 {
        let rest = fs.drop_first();
        lemma_field_remove_sub(rest, key);
        let r = field_remove(fs, key);
        assert forall|j: int| 0 <= j < r.len() implies fs.contains(#[trigger] r[j]) && r[j].0 != key by {
            if fs[0].0 == key {
                let k = choose|k: int| 0 <= k < rest.len() && rest[k] == field_remove(rest, key)[j];
                assert(fs[k + 1] == rest[k]);
            } else if j == 0 {
                assert(fs[0] == r[0]);
            } else {
                assert(r[j] == field_remove(rest, key)[j - 1]);
                let k = choose|k: int| 0 <= k < rest.len() && rest[k] == field_remove(rest, key)[j - 1];
                assert(fs[k + 1] == rest[k]);
            }
        }
    }
}

/// After `remove(key)` the key is gone and every other key reads as before; entries with
/// distinct keys keep them distinct.
pub proof fn law_field_remove(fs: Seq<(Seq<char>, ValueV)>, key: Seq<char>, other: Seq<char>)
    ensures
        field_get(field_remove(fs, key), key) is None,
        other != key ==> field_get(field_remove(fs, key), other) == field_get(fs, other),
        keys_distinct(fs) ==> keys_distinct(field_remove(fs, key)),
    decreases fs.len(),
{
    if fs.len() > 0 {
        let rest = fs.drop_first();
        law_field_remove(rest, key, other);
        let r = field_remove(fs, key);
        if fs[0].0 != key {
            assert(r[0] == fs[0]);
            assert(r.drop_first() =~= field_remove(rest, key));
            if keys_distinct(fs) {
                assert(keys_distinct(rest)) by {
                    assert forall|i: int, j: int| 0 <= i < j < rest.len() implies #[trigger] rest[i].0 != #[trigger] rest[j].0 by {
                        assert(rest[i] == fs[i + 1] && rest[j] == fs[j + 1]);
                    }
                }
                lemma_field_remove_sub(rest, key);
                let fr = field_remove(rest, key);
                assert forall|i: int, j: int| 0 <= i < j < r.len() implies #[trigger] r[i].0 != #[trigger] r[j].0 by {
                    if i == 0 {
                        assert(r[j] == fr[j - 1]);
                        assert(rest.contains(fr[j - 1]));
                        let k = choose|k: int| 0 <= k < rest.len() && rest[k] == fr[j - 1];
                        assert(rest[k] == fs[k + 1]);
                    } else {
                        assert(r[i] == fr[i - 1] && r[j] == fr[j - 1]);
                    }
                }
            }
        } else {
            if keys_distinct(fs) {
                assert forall|i: int, j: int| 0 <= i < j < rest.len() implies #[trigger] rest[i].0 != #[trigger] rest[j].0 by {
                    assert(rest[i] == fs[i + 1] && rest[j] == fs[j + 1]);
                }
            }
        }
    }
}

pub open spec fn map_method_spec(fs: Seq<(Seq<char>, ValueV)>, method: Seq<char>, args: Seq<ValueV>) -> MethodRes {
    if method == "contains"@ {
        Ok(
            ValueV::Bool(
                match str_arg(args) {
                    Some(k) => field_get(fs, k) is Some,
                    None => false,
                },
            ),
        )
    } else if method == "keys"@ {
        Ok(ValueV::List(fs.map_values(|e: (Seq<char>, ValueV)| ValueV::Str(e.0))))
    } else if method == "values"@ {
        Ok(ValueV::List(fs.map_values(|e: (Seq<char>, ValueV)| e.1)))
    } else if method == "get"@ {
        Ok(
            match str_arg(args) {
                Some(k) => match field_get(fs, k) {
                    Some(v) => v,
                    None => ValueV::Bool(false),
                },
                None => ValueV::Bool(false),
            },
        )
    } else if method == "remove"@ {
        Ok(
            ValueV::Mapping(
                match str_arg(args) {
                    Some(k) => field_remove(fs, k),
                    None => fs,
                },
            ),
        )
    } else {
        Err(VmErrorV::UnknownMethod("map"@, method))
    }
}

/// On a map, `contains(k)` is true exactly when some entry has the key `k`; `get(k)` is the
/// value bound to `k` where the keys are distinct, and `false` where `k` is not bound.
pub proof fn law_map_lookup(fs: Seq<(Seq<char>, ValueV)>, k: Seq<char>)
    ensures
        map_method_spec(fs, "contains"@, seq![ValueV::Str(k)]) == Ok::<ValueV, VmErrorV>(
            ValueV::Bool(exists|i: int| 0 <= i < fs.len() && #[trigger] fs[i].0 == k),
        ),
        keys_distinct(fs) ==> forall|i: int| 0 <= i < fs.len() && #[trigger] fs[i].0 == k ==> map_method_spec(
            fs,
            "get"@,
            seq![ValueV::Str(k)],
        ) == Ok::<ValueV, VmErrorV>(fs[i].1),
        (forall|i: int| 0 <= i < fs.len() ==> #[trigger] fs[i].0 != k) ==> map_method_spec(fs, "get"@, seq![ValueV::Str(k)])
            == Ok::<ValueV, VmErrorV>(ValueV::Bool(false)),
{
    reveal_strlit("contains");
    reveal_strlit("keys");
    reveal_strlit("values");
    reveal_strlit("get");
    assert("get"@[0] != "contains"@[0] && "get"@[0] != "keys"@[0] && "get"@[0] != "values"@[0]);
    let a = seq![ValueV::Str(k)];
    assert(str_arg(a) == Some(k));
    lemma_field_pos(fs, k);
    let q = field_pos(fs, k);
    if q >= 0 {
        assert(fs[q].0 == k);
        if keys_distinct(fs) {
            assert forall|i: int| 0 <= i < fs.len() && #[trigger] fs[i].0 == k implies i == q by {
                if i < q {
                } else if i > q {
                    assert(fs[q].0 != fs[i].0);
                }
            }
        }
    }
}

/// A method of a built-in kind of value.
pub open spec fn method_spec(obj: ValueV, method: Seq<char>, args: Seq<ValueV>) -> MethodRes {
    match obj {
        ValueV::Str(s) => string_method_spec(s, method, args),
        ValueV::Bytes(b) => bytes_method_spec(b, method, args),
        ValueV::List(items) => list_method_spec(items, method, args),
        ValueV::Mapping(fs) => map_method_spec(fs, method, args),
        _ => Err(VmErrorV::NoMethod(method, obj)),
    }
}


// ---------------------------------------------------------------------------
// Text helpers

fn matches_here(s: &Vec<char>, p: &Vec<char>, i: usize) -> (r: bool)
    ensures
        r == matches_at(s@, p@, i as int),
{
    if i > s.len() || p.len() > s.len() - i {
        return false;
    }
    let mut j: usize = 0;
    while j < p.len()
        invariant
            i + p.len() <= s.len(),
            j <= p.len(),
            forall|k: int| 0 <= k < j ==> s@[i + k] == p@[k],
        decreases p.len() - j,
    {
        if s[i + j] != p[j] {
            assert(s@.subrange(i as int, i + p.len())[j as int] != p@[j as int]);
            return false;
        }
        j = j + 1;
    }
    assert(s@.subrange(i as int, i + p.len()) =~= p@);
    true
}

fn find_first(s: &Vec<char>, p: &Vec<char>) -> (r: Option<usize>)
    ensures
        match first_match(s@, p@, 0) {
            Some(i) => r == Some(i as usize) && 0 <= i <= s@.len(),
            None => r is None,
        },
{
    if p.len() > s.len() {
        return None;
    }
    let limit = s.len() - p.len();
    let mut i: usize = 0;
    loop
        invariant
            p.len() <= s.len(),
            limit == s.len() - p.len(),
            i <= limit,
            first_match(s@, p@, 0) == first_match(s@, p@, i as int),
        decreases limit - i,
    {
        if matches_here(s, p, i) {
            return Some(i);
        }
        if i == limit {
            assert(first_match(s@, p@, i + 1) is None);
            return None;
        }
        i = i + 1;
    }
}

fn utf8_len_prefix(s: &Vec<char>, n: usize) -> (r: u128)
    requires
        n <= s@.len(),
    ensures
        r == utf8_len(s@.take(n as int)),
{
    let mut total: u128 = 0;
    let mut k: usize = 0;
    while k < n
        invariant
            k <= n <= s@.len(),
            total == utf8_len(s@.take(k as int)),
            total <= 4 * k,
        decreases n - k,
    {
        assert(s@.take(k + 1).drop_last() =~= s@.take(k as int));
        let c = s[k] as u32;
        let w: u128 = if c < 0x80 {
            1
        } else if c < 0x800 {
            2
        } else if c < 0x10000 {
            3
        } else {
            4
        };
        total = total + w;
        k = k + 1;
    }
    total
}

fn trim_chars(s: &Vec<char>) -> (r: Vec<char>)
    ensures
        r@ == trim_spec(s@),
{
    let n = s.len();
    let mut a: usize = 0;
    assert(s@.skip(0) =~= s@);
    while a < n && is_whitespace(s[a])
        invariant
            n == s@.len(),
            a <= n,
            lead_ws(s@) == a + lead_ws(s@.skip(a as int)),
        decreases n - a,
    {
        assert(s@.skip(a as int)[0] == s@[a as int]);
        assert(s@.skip(a as int).drop_first() =~= s@.skip(a + 1));
        a = a + 1;
    }
    proof {
        if a < n {
            assert(s@.skip(a as int)[0] == s@[a as int]);
        } else {
            assert(s@.skip(a as int).len() == 0);
        }
    }
    let mut out: Vec<char> = Vec::new();
    if a == n {
        assert(out@ =~= trim_spec(s@));
        return out;
    }
    let mut b: usize = n;
    assert(s@.take(n as int) =~= s@);
    while b > a && is_whitespace(s[b - 1])
        invariant
            n == s@.len(),
            a < n,
            !spec_is_whitespace(s@[a as int]),
            a < b <= n,
            trail_ws(s@) == (n - b) + trail_ws(s@.take(b as int)),
        decreases b,
    {
        assert(s@.take(b as int).last() == s@[b - 1]);
        assert(s@.take(b as int).drop_last() =~= s@.take(b - 1));
        assert(b - 1 != a);
        b = b - 1;
    }
    proof {
        if b > a {
            assert(s@.take(b as int).last() == s@[b - 1]);
        }
        assert(b > a);
    }
    let mut k: usize = a;
    while k < b
        invariant
            a <= k <= b <= n,
            n == s@.len(),
            out@ == s@.subrange(a as int, k as int),
        decreases b - k,
    {
        out.push(s[k]);
        k = k + 1;
        assert(out@ =~= s@.subrange(a as int, k as int));
    }
    out
}

fn append_chars(out: &mut Vec<char>, x: &Vec<char>)
    ensures
        final(out)@ == old(out)@ + x@,
{
    let mut k: usize = 0;
    while k < x.len()
        invariant
            k <= x.len(),
            out@ == old(out)@ + x@.take(k as int),
        decreases x.len() - k,
    {
        out.push(x[k]);
        k = k + 1;
        assert(out@ =~= old(out)@ + x@.take(k as int));
    }
    assert(x@.take(k as int) =~= x@);
}

fn replace_chars(s: &Vec<char>, p: &Vec<char>, n: &Vec<char>) -> (r: Vec<char>)
    ensures
        r@ == replace_spec(s@, p@, n@),
{
    let mut out: Vec<char> = Vec::new();
    if p.len() == 0 {
        append_chars(&mut out, n);
        assert(s@.skip(0) =~= s@);
        let mut k: usize = 0;
        while k < s.len()
            invariant
                k <= s.len(),
                p@.len() == 0,
                replace_spec(s@, p@, n@) == out@ + interleave(s@.skip(k as int), n@),
            decreases s.len() - k,
        {
            assert(s@.skip(k as int)[0] == s@[k as int]);
            assert(s@.skip(k as int).drop_first() =~= s@.skip(k + 1));
            let ghost before = out@;
            out.push(s[k]);
            append_chars(&mut out, n);
            assert(before + interleave(s@.skip(k as int), n@) =~= out@ + interleave(s@.skip(k + 1), n@));
            k = k + 1;
        }
        assert(out@ + interleave(s@.skip(k as int), n@) =~= out@);
        return out;
    }
    let mut i: usize = 0;
    assert(out@ + replace_from(s@, p@, n@, 0) =~= replace_from(s@, p@, n@, 0));
    while i < s.len()
        invariant
            i <= s.len(),
            p@.len() > 0,
            replace_spec(s@, p@, n@) == out@ + replace_from(s@, p@, n@, i as int),
        decreases s.len() - i,
    {
        let ghost before = out@;
        if matches_here(s, p, i) {
            append_chars(&mut out, n);
            assert(before + replace_from(s@, p@, n@, i as int) =~= out@ + replace_from(s@, p@, n@, i + p@.len()));
            i = i + p.len();
        } else {
            out.push(s[i]);
            assert(before + replace_from(s@, p@, n@, i as int) =~= out@ + replace_from(s@, p@, n@, i + 1));
            i = i + 1;
        }
    }
    assert(out@ + replace_from(s@, p@, n@, i as int) =~= out@);
    out
}

/// Strings made of each text.
pub open spec fn strs_value(ps: Seq<Seq<char>>) -> Seq<ValueV> {
    ps.map_values(|x: Seq<char>| ValueV::Str(x))
}

fn push_piece(out: &mut Vec<Value>, s: &Vec<char>, a: usize, b: usize)
    requires
        a <= b <= s@.len(),
    ensures
        values_view(final(out)@) == values_view(old(out)@).push(ValueV::Str(s@.subrange(a as int, b as int))),
{
    let mut v: Vec<char> = Vec::new();
    let mut k: usize = a;
    while k < b
        invariant
            a <= k <= b <= s@.len(),
            v@ == s@.subrange(a as int, k as int),
        decreases b - k,
    {
        v.push(s[k]);
        k = k + 1;
        assert(v@ =~= s@.subrange(a as int, k as int));
    }
    let x = Value::Str(chars_to_string(v.as_slice()));
    proof {
        lemma_values_view_push(out@, x);
    }
    out.push(x);
}

fn split_chars(s: &Vec<char>, sep: &Vec<char>) -> (r: Vec<Value>)
    ensures
        values_view(r@) == strs_value(split_spec(s@, sep@)),
{
    let mut out: Vec<Value> = Vec::new();
    if sep.len() == 0 {
        push_piece(&mut out, s, 0, 0);
        let ghost mut pieces: Seq<Seq<char>> = seq![Seq::<char>::empty()];
        assert(s@.subrange(0, 0) =~= Seq::<char>::empty());
        assert(values_view(out@) =~= strs_value(pieces));
        assert(pieces =~= seq![Seq::<char>::empty()] + s@.take(0).map_values(|c: char| seq![c]));
        let mut k: usize = 0;
        while k < s.len()
            invariant
                k <= s.len(),
                pieces == seq![Seq::<char>::empty()] + s@.take(k as int).map_values(|c: char| seq![c]),
                values_view(out@) == strs_value(pieces),
            decreases s.len() - k,
        {
            push_piece(&mut out, s, k, k + 1);
            proof {
                let x = s@.subrange(k as int, k + 1);
                assert(x =~= seq![s@[k as int]]);
                assert(strs_value(pieces.push(x)) =~= strs_value(pieces).push(ValueV::Str(x)));
                assert(seq![Seq::<char>::empty()] + s@.take(k + 1).map_values(|c: char| seq![c]) =~= pieces.push(x));
                pieces = pieces.push(x);
            }
            k = k + 1;
        }
        push_piece(&mut out, s, 0, 0);
        proof {
            assert(s@.take(k as int) =~= s@);
            let e = Seq::<char>::empty();
            assert(strs_value(pieces.push(e)) =~= strs_value(pieces).push(ValueV::Str(e)));
            assert(pieces.push(e) =~= split_spec(s@, sep@));
        }
        return out;
    }
    let mut start: usize = 0;
    let mut i: usize = 0;
    assert(values_view(out@) =~= Seq::<ValueV>::empty());
    while i < s.len()
        invariant
            start <= i <= s.len(),
            sep@.len() > 0,
            strs_value(split_spec(s@, sep@)) == values_view(out@) + strs_value(split_from(s@, sep@, start as int, i as int)),
        decreases s.len() - i,
    {
        let ghost before = values_view(out@);
        if matches_here(s, sep, i) {
            push_piece(&mut out, s, start, i);
            let ghost rest = split_from(s@, sep@, i + sep@.len(), i + sep@.len());
            assert(strs_value(seq![s@.subrange(start as int, i as int)] + rest) =~= seq![ValueV::Str(
                s@.subrange(start as int, i as int),
            )] + strs_value(rest));
            assert(before + strs_value(split_from(s@, sep@, start as int, i as int)) =~= values_view(out@)
                + strs_value(rest));
            i = i + sep.len();
            start = i;
        } else {
            i = i + 1;
        }
    }
    let ghost before = values_view(out@);
    push_piece(&mut out, s, start, s.len());
    assert(!matches_at(s@, sep@, i as int));
    assert(before + strs_value(split_from(s@, sep@, start as int, i as int)) =~= values_view(out@));
    out
}

/// The clamped bounds of a slice.
fn slice_args(args: &Vec<Value>, len: usize) -> (r: Result<Option<(usize, usize)>, VmError>)
    ensures
        match slice_bounds(values_view(args@), len as nat, "slice"@) {
            Ok(Some((a, b))) => r matches Ok(Some((x, y))) && x == a && y == b,
            Ok(None) => r matches Ok(None),
            Err(e) => r matches Err(x) && x@ == e,
        },
{
    proof {
        lemma_values_view(args@);
    }
    if args.len() < 2 {
        return Ok(None);
    }
    match (&args[0], &args[1]) {
        (Value::Int(a), Value::Int(b)) => {
            let x: usize = if *a < 0 || (*a as u64) > (len as u64) {
                len
            } else {
                *a as usize
            };
            let y: usize = if *b < 0 || (*b as u64) > (len as u64) {
                len
            } else {
                *b as usize
            };
            if x > y {
                Err(VmError::Other("slice start after end".to_owned()))
            } else {
                Ok(Some((x, y)))
            }
        },
        _ => Err(arg_error("slice", args)),
    }
}

/// The error of a method given an argument of the wrong kind.
fn arg_error(name: &str, args: &Vec<Value>) -> (e: VmError)
    ensures
        e@ == VmErrorV::ArgumentType(name@, first_arg(values_view(args@))),
{
    proof {
        lemma_values_view(args@);
    }
    let first = if args.len() > 0 {
        Some(copy_value(&args[0]))
    } else {
        None
    };
    let mut text: Vec<char> = Vec::new();
    push_str(&mut text, name);
    VmError::ArgumentType(chars_to_string(text.as_slice()), first)
}

/// The first argument, if it is a string.
fn first_str(args: &Vec<Value>) -> (r: Option<&String>)
    ensures
        match str_arg(values_view(args@)) {
            Some(x) => r matches Some(y) && y@ == x,
            None => r is None,
        },
{
    proof {
        lemma_values_view(args@);
    }
    if args.len() == 0 {
        return None;
    }
    match &args[0] {
        Value::Str(x) => Some(x),
        _ => None,
    }
}

/// A method of a string.
#[verifier::rlimit(60)]
pub fn string_method(s: &String, method: &String, args: &Vec<Value>) -> (r: Result<Value, VmError>)
    ensures
        method_agrees(r, string_method_spec(s@, method@, values_view(args@))),
{
    proof {
        lemma_values_view(args@);
    }
    let m = method.as_str();
    let chars = string_to_chars(s.as_str());
    if str_eq(m, "upper") {
        Ok(Value::Str(to_uppercase(s.as_str())))
    } else if str_eq(m, "lower") {
        Ok(Value::Str(to_lowercase(s.as_str())))
    } else if str_eq(m, "trim") {
        Ok(Value::Str(chars_to_string(trim_chars(&chars).as_slice())))
    } else if str_eq(m, "contains") {
        match first_str(args) {
            Some(p) => {
                let pc = string_to_chars(p.as_str());
                Ok(Value::Bool(find_first(&chars, &pc).is_some()))
            },
            None => Err(arg_error("contains", args)),
        }
    } else if str_eq(m, "find") {
        match first_str(args) {
            Some(p) => {
                let pc = string_to_chars(p.as_str());
                match find_first(&chars, &pc) {
                    Some(i) => Ok(Value::Int(utf8_len_prefix(&chars, i) as i64)),
                    None => Ok(Value::Int(-1)),
                }
            },
            None => Err(arg_error("find", args)),
        }
    } else if str_eq(m, "replace") {
        if args.len() >= 2 {
            match (&args[0], &args[1]) {
                (Value::Str(p), Value::Str(n)) => {
                    let pc = string_to_chars(p.as_str());
                    let nc = string_to_chars(n.as_str());
                    Ok(Value::Str(chars_to_string(replace_chars(&chars, &pc, &nc).as_slice())))
                },
                _ => Err(arg_error("replace", args)),
            }
        } else {
            Ok(Value::Str(copy_string(s)))
        }
    } else if str_eq(m, "starts_with") {
        match first_str(args) {
            Some(p) => {
                let pc = string_to_chars(p.as_str());
                Ok(Value::Bool(matches_here(&chars, &pc, 0)))
            },
            None => Err(arg_error("starts_with", args)),
        }
    } else if str_eq(m, "ends_with") {
        match first_str(args) {
            Some(p) => {
                let pc = string_to_chars(p.as_str());
                if pc.len() > chars.len() {
                    Ok(Value::Bool(false))
                } else {
                    Ok(Value::Bool(matches_here(&chars, &pc, chars.len() - pc.len())))
                }
            },
            None => Err(arg_error("ends_with", args)),
        }
    } else if str_eq(m, "split") {
        match first_str(args) {
            Some(p) => {
                let pc = string_to_chars(p.as_str());
                let parts = split_chars(&chars, &pc);
                Ok(Value::List(parts))
            },
            None => Err(arg_error("split", args)),
        }
    } else if str_eq(m, "slice") {
        match slice_args(args, chars.len()) {
            Ok(Some((a, b))) => {
                let mut v: Vec<char> = Vec::new();
                let mut k: usize = a;
                while k < b
                    invariant
                        a <= k <= b <= chars@.len(),
                        v@ == chars@.subrange(a as int, k as int),
                    decreases b - k,
                {
                    v.push(chars[k]);
                    k = k + 1;
                    assert(v@ =~= chars@.subrange(a as int, k as int));
                }
                Ok(Value::Str(chars_to_string(v.as_slice())))
            },
            Ok(None) => Ok(Value::Str(copy_string(s))),
            Err(e) => Err(e),
        }
    } else {
        Err(VmError::UnknownMethod("string".to_owned(), copy_string(method)))
    }
}


/// A method of a byte string.
pub fn bytes_method(b: &Vec<u8>, method: &String, args: &Vec<Value>) -> (r: Result<Value, VmError>)
    ensures
        method_agrees(r, bytes_method_spec(b@, method@, values_view(args@))),
{
    let m = method.as_str();
    if str_eq(m, "slice") {
        match slice_args(args, b.len()) {
            Ok(Some((x, y))) => {
                let mut v: Vec<u8> = Vec::new();
                let mut k: usize = x;
                while k < y
                    invariant
                        x <= k <= y <= b@.len(),
                        v@ == b@.subrange(x as int, k as int),
                    decreases y - k,
                {
                    v.push(b[k]);
                    k = k + 1;
                    assert(v@ =~= b@.subrange(x as int, k as int));
                }
                Ok(Value::Bytes(v))
            },
            Ok(None) => Ok(Value::Bytes(crate::text::copy_bytes(b))),
            Err(e) => Err(e),
        }
    } else if str_eq(m, "to_string") {
        Ok(Value::Str(string_from_utf8_lossy(b.as_slice())))
    } else {
        Err(VmError::UnknownMethod("bytes".to_owned(), copy_string(method)))
    }
}

/// The index of the first element equal to `x`.
fn index_of(items: &Vec<Value>, x: &Value) -> (r: Option<usize>)
    ensures
        match r {
            Some(k) => index_of_spec(values_view(items@), x@) == k,
            None => index_of_spec(values_view(items@), x@) == -1,
        },
{
    let ghost vv = values_view(items@);
    proof {
        lemma_values_view(items@);
        assert(vv.skip(0) =~= vv);
    }
    let mut k: usize = 0;
    while k < items.len()
        invariant
            k <= items.len(),
            vv == values_view(items@),
            vv.len() == items@.len(),
            forall|j: int| 0 <= j < items@.len() ==> #[trigger] vv[j] == items@[j]@,
            index_of_spec(vv, x@) == (if index_of_spec(vv.skip(k as int), x@) < 0 {
                -1
            } else {
                index_of_spec(vv.skip(k as int), x@) + k
            }),
        decreases items.len() - k,
    {
        assert(vv.skip(k as int)[0] == vv[k as int]);
        assert(vv.skip(k as int).drop_first() =~= vv.skip(k + 1));
        if values_equal(&items[k], x) {
            return Some(k);
        }
        k = k + 1;
    }
    None
}

/// A method of a list.
#[verifier::rlimit(60)]
pub fn list_method(items: &Vec<Value>, method: &String, args: &Vec<Value>) -> (r: Result<Value, VmError>)
    ensures
        method_agrees(r, list_method_spec(values_view(items@), method@, values_view(args@))),
{
    proof {
        lemma_values_view(items@);
        lemma_values_view(args@);
    }
    let ghost vv = values_view(items@);
    let m = method.as_str();
    if str_eq(m, "push") {
        let mut out = copy_values(items);
        if args.len() > 0 {
            let x = copy_value(&args[0]);
            proof {
                lemma_values_view_push(out@, x);
            }
            out.push(x);
        }
        Ok(Value::List(out))
    } else if str_eq(m, "concat") {
        let mut out = copy_values(items);
        if args.len() > 0 {
            match &args[0] {
                Value::List(other) => {
                    proof {
                        lemma_values_view(other@);
                    }
                    let mut k: usize = 0;
                    while k < other.len()
                        invariant
                            k <= other.len(),
                            values_view(other@).len() == other@.len(),
                            forall|j: int| 0 <= j < other@.len() ==> #[trigger] values_view(other@)[j] == other@[j]@,
                            values_view(out@) == vv + values_view(other@).take(k as int),
                        decreases other.len() - k,
                    {
                        let x = copy_value(&other[k]);
                        proof {
                            lemma_values_view_push(out@, x);
                        }
                        out.push(x);
                        k = k + 1;
                        assert(values_view(out@) =~= vv + values_view(other@).take(k as int));
                    }
                    assert(values_view(other@).take(k as int) =~= values_view(other@));
                },
                _ => {},
            }
        }
        Ok(Value::List(out))
    } else if str_eq(m, "slice") {
        match slice_args(args, items.len()) {
            Ok(Some((a, b))) => {
                let mut out: Vec<Value> = Vec::new();
                let mut k: usize = a;
                while k < b
                    invariant
                        a <= k <= b <= items@.len(),
                        vv == values_view(items@),
                        vv.len() == items@.len(),
                        forall|j: int| 0 <= j < items@.len() ==> #[trigger] vv[j] == items@[j]@,
                        values_view(out@) == vv.subrange(a as int, k as int),
                    decreases b - k,
                {
                    let x = copy_value(&items[k]);
                    proof {
                        lemma_values_view_push(out@, x);
                    }
                    out.push(x);
                    k = k + 1;
                    assert(values_view(out@) =~= vv.subrange(a as int, k as int));
                }
                Ok(Value::List(out))
            },
            Ok(None) => Ok(Value::List(copy_values(items))),
            Err(e) => Err(e),
        }
    } else if str_eq(m, "contains") {
        if args.len() > 0 {
            Ok(Value::Bool(index_of(items, &args[0]).is_some()))
        } else {
            Ok(Value::Bool(false))
        }
    } else if str_eq(m, "index_of") {
        if args.len() > 0 {
            match index_of(items, &args[0]) {
                Some(k) => Ok(Value::Int(k as i64)),
                None => Ok(Value::Int(-1)),
            }
        } else {
            Ok(Value::Int(-1))
        }
    } else if str_eq(m, "reverse") {
        let mut out: Vec<Value> = Vec::new();
        let mut k: usize = items.len();
        while k > 0
            invariant
                k <= items@.len(),
                vv == values_view(items@),
                vv.len() == items@.len(),
                forall|j: int| 0 <= j < items@.len() ==> #[trigger] vv[j] == items@[j]@,
                values_view(out@) == vv.reverse().take(items@.len() - k),
            decreases k,
        {
            k = k - 1;
            let x = copy_value(&items[k]);
            proof {
                lemma_values_view_push(out@, x);
            }
            out.push(x);
            assert(values_view(out@) =~= vv.reverse().take(items@.len() - k));
        }
        assert(vv.reverse().take(items@.len() as int) =~= vv.reverse());
        Ok(Value::List(out))
    } else if str_eq(m, "join") {
        let ghost sep_v = match str_arg(values_view(args@)) {
            Some(sep) => sep,
            None => Seq::<char>::empty(),
        };
        let sep: Vec<char> = match first_str(args) {
            Some(x) => string_to_chars(x.as_str()),
            None => Vec::new(),
        };
        assert(sep@ == sep_v);
        let mut out: Vec<char> = Vec::new();
        let mut k: usize = 0;
        assert(vv.take(0) =~= Seq::<ValueV>::empty());
        while k < items.len()
            invariant
                k <= items.len(),
                vv == values_view(items@),
                vv.len() == items@.len(),
                forall|j: int| 0 <= j < items@.len() ==> #[trigger] vv[j] == items@[j]@,
                out@ == join_spec(vv.take(k as int), sep@),
            decreases items.len() - k,
        {
            assert(vv.take(k + 1).drop_last() =~= vv.take(k as int));
            assert(vv.take(k + 1).last() == vv[k as int]);
            let ghost before = out@;
            if k > 0 {
                append_chars(&mut out, &sep);
            }
            push_value_text(&mut out, &items[k]);
            k = k + 1;
            assert(out@ =~= join_spec(vv.take(k as int), sep@));
        }
        assert(vv.take(k as int) =~= vv);
        Ok(Value::Str(chars_to_string(out.as_slice())))
    } else {
        Err(VmError::UnknownMethod("list".to_owned(), copy_string(method)))
    }
}

/// A method of a map.
#[verifier::rlimit(60)]
pub fn map_method(fs: &Vec<(String, Value)>, method: &String, args: &Vec<Value>) -> (r: Result<Value, VmError>)
    ensures
        method_agrees(r, map_method_spec(fields_view(fs@), method@, values_view(args@))),
{
    proof {
        lemma_fields_view(fs@);
        lemma_values_view(args@);
    }
    let ghost fv = fields_view(fs@);
    let m = method.as_str();
    if str_eq(m, "contains") {
        match first_str(args) {
            Some(k) => Ok(Value::Bool(field_index(fs, k).is_some())),
            None => Ok(Value::Bool(false)),
        }
    } else if str_eq(m, "keys") || str_eq(m, "values") {
        let keys = str_eq(m, "keys");
        let mut out: Vec<Value> = Vec::new();
        let mut k: usize = 0;
        while k < fs.len()
            invariant
                k <= fs.len(),
                fv == fields_view(fs@),
                fv.len() == fs@.len(),
                forall|j: int| 0 <= j < fs@.len() ==> #[trigger] fv[j] == (fs@[j].0@, fs@[j].1@),
                keys ==> values_view(out@) == fv.take(k as int).map_values(
                    |e: (Seq<char>, ValueV)| ValueV::Str(e.0),
                ),
                !keys ==> values_view(out@) == fv.take(k as int).map_values(|e: (Seq<char>, ValueV)| e.1),
            decreases fs.len() - k,
        {
            let x = if keys {
                Value::Str(copy_string(&fs[k].0))
            } else {
                copy_value(&fs[k].1)
            };
            proof {
                lemma_values_view_push(out@, x);
            }
            out.push(x);
            k = k + 1;
            proof {
                if keys {
                    assert(values_view(out@) =~= fv.take(k as int).map_values(
                        |e: (Seq<char>, ValueV)| ValueV::Str(e.0),
                    ));
                } else {
                    assert(values_view(out@) =~= fv.take(k as int).map_values(|e: (Seq<char>, ValueV)| e.1));
                }
            }
        }
        assert(fv.take(k as int) =~= fv);
        Ok(Value::List(out))
    } else if str_eq(m, "get") {
        match first_str(args) {
            Some(key) => match field_index(fs, key) {
                Some(i) => Ok(copy_value(&fs[i].1)),
                None => Ok(Value::Bool(false)),
            },
            None => Ok(Value::Bool(false)),
        }
    } else if str_eq(m, "remove") {
        match first_str(args) {
            Some(key) => {
                let mut out: Vec<(String, Value)> = Vec::new();
                let mut i: usize = 0;
                proof {
                    lemma_fields_view(fs@);
                    assert(fv.skip(0) =~= fv);
                }
                while i < fs.len()
                    invariant
                        i <= fs.len(),
                        fv == fields_view(fs@),
                        fv.len() == fs.len(),
                        forall|k: int| 0 <= k < fs.len() ==> #[trigger] fv[k] == (fs@[k].0@, fs@[k].1@),
                        field_remove(fv, key@) == fields_view(out@) + field_remove(fv.skip(i as int), key@),
                    decreases fs.len() - i,
                {
                    let ghost tail = fv.skip(i as int);
                    assert(tail[0] == fv[i as int]);
                    assert(tail.drop_first() =~= fv.skip(i + 1));
                    if !string_eq(&fs[i].0, key) {
                        let e = (copy_string(&fs[i].0), copy_value(&fs[i].1));
                        proof {
                            lemma_fields_view_push(out@, e);
                        }
                        let ghost before = fields_view(out@);
                        out.push(e);
                        assert(before + (seq![tail[0]] + field_remove(fv.skip(i + 1), key@)) =~= fields_view(out@)
                            + field_remove(fv.skip(i + 1), key@));
                    }
                    i = i + 1;
                }
                assert(fv.skip(i as int) =~= Seq::<(Seq<char>, ValueV)>::empty());
                assert(fields_view(out@) + Seq::<(Seq<char>, ValueV)>::empty() =~= fields_view(out@));
                Ok(Value::Mapping(out))
            },
            None => Ok(Value::Mapping(copy_fields(fs))),
        }
    } else {
        Err(VmError::UnknownMethod("map".to_owned(), copy_string(method)))
    }
}

/// A method of a built-in kind of value.
pub fn native_method(obj: &Value, method: &String, args: &Vec<Value>) -> (r: Result<Value, VmError>)
    ensures
        method_agrees(r, method_spec(obj@, method@, values_view(args@))),
{
    match obj {
        Value::Str(s) => string_method(s, method, args),
        Value::Bytes(b) => bytes_method(b, method, args),
        Value::List(items) => list_method(items, method, args),
        Value::Mapping(fs) => map_method(fs, method, args),
        _ => Err(VmError::NoMethod(copy_string(method), copy_value(obj))),
    }
}

} // verus!
