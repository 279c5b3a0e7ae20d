//! Chunks of bytecode, the function table, and the `.jlxr` bytecode file format.
use vstd::prelude::*;
use vstd::bytes::{
    spec_u16_to_le_bytes, spec_u16_from_le_bytes, spec_u32_to_le_bytes, spec_u32_from_le_bytes,
    spec_u64_to_le_bytes, spec_u64_from_le_bytes, u16_to_le_bytes, u16_from_le_bytes,
    u32_to_le_bytes, u32_from_le_bytes, u64_to_le_bytes, u64_from_le_bytes,
    lemma_auto_spec_u16_to_from_le_bytes, lemma_auto_spec_u32_to_from_le_bytes,
    lemma_auto_spec_u64_to_from_le_bytes,
};
use vstd::utf8::{encode_utf8, decode_utf8, valid_utf8, encode_utf8_valid_utf8, encode_utf8_decode_utf8};
use crate::bytecode::instruction::{Instruction, InstrV, code_view, names_view, copy_instruction};
use crate::text::str_eq;

verus! {

/// A sequence of instructions.
#[derive(Debug, Clone, PartialEq)]
pub struct Chunk {
    pub code: Vec<Instruction>,
}

impl View for Chunk {
    type V = Seq<InstrV>;

    open spec fn view(&self) -> Seq<InstrV> {
        code_view(self.code@)
    }
}

impl Chunk {
    pub fn new() -> (c: Chunk)
        ensures
            c@ == Seq::<InstrV>::empty(),
    {
        let c = Chunk { code: Vec::new() };
        assert(c@ =~= Seq::<InstrV>::empty());
        c
    }

    pub fn push(&mut self, instr: Instruction)
        ensures
            final(self)@ == old(self)@.push(instr@),
    {
        self.code.push(instr);
        assert(self@ =~= old(self)@.push(instr@));
    }

    /// A copy of the chunk.
    pub fn copy(&self) -> (c: Chunk)
        ensures
            c@ == self@,
    {
        let mut code: Vec<Instruction> = Vec::new();
        let mut k: usize = 0;
        while k < self.code.len()
            invariant
                k <= self.code.len(),
                code@.len() == k,
                forall|j: int| 0 <= j < k ==> #[trigger] code@[j]@ == self.code@[j]@,
            decreases self.code.len() - k,
        {
            code.push(copy_instruction(&self.code[k]));
            k = k + 1;
        }
        let c = Chunk { code };
        assert(c@ =~= self@);
        c
    }

    /// Replaces the instruction at `index`.
    pub fn set(&mut self, index: usize, instr: Instruction)
        requires
            index < old(self)@.len(),
        ensures
            final(self)@ == old(self)@.update(index as int, instr@),
    {
        self.code.set(index, instr);
        assert(self@ =~= old(self)@.update(index as int, instr@));
    }

    pub fn len(&self) -> (n: usize)
        ensures
            n == self@.len(),
    {
        self.code.len()
    }

    pub fn get(&self, index: usize) -> (r: Option<&Instruction>)
        ensures
            match r {
                Some(i) => index < self@.len() && i@ == self@[index as int],
                None => index >= self@.len(),
            },
    {
        if index < self.code.len() {
            Some(&self.code[index])
        } else {
            None
        }
    }
}

// ---------------------------------------------------------------------------
// The file format: encoding

/// The first four bytes of a `.jlxr` file: `JLXR`.
pub open spec fn magic() -> Seq<u8> {
    seq![74u8, 76u8, 88u8, 82u8]
}

/// A string: its UTF-8 length as a little-endian `u32`, then its UTF-8 bytes.
pub open spec fn enc_str(s: Seq<char>) -> Seq<u8> {
    spec_u32_to_le_bytes(encode_utf8(s).len() as u32) + encode_utf8(s)
}

pub open spec fn enc_strs(ns: Seq<Seq<char>>) -> Seq<u8>
    decreases ns.len(),
{
    if ns.len() == 0 {
        Seq::empty()
    } else {
        enc_strs(ns.drop_last()) + enc_str(ns.last())
    }
}

/// Whether the file format has a byte form for an instruction: `LoadConst`, `LoadVar`,
/// `StoreVar` and `Bitwise` have none, so a chunk that holds them (as compiled code that uses variables
/// does) cannot be written as a file.
pub open spec fn has_byte_form(i: InstrV) -> bool {
    !(i is LoadConst || i is LoadVar || i is StoreVar || i is Bitwise)
}

/// The bytes of one instruction: a tag byte, then its operands (nothing for an instruction
/// without a byte form).
pub open spec fn encode_instr(i: InstrV) -> Seq<u8> {
    match i {
        InstrV::LoadInt(n) => seq![0u8] + spec_u64_to_le_bytes(n as u64),
        InstrV::LoadFloat(b) => seq![66u8] + spec_u64_to_le_bytes(b),
        InstrV::LoadStr(s) => seq![1u8] + enc_str(s),
        InstrV::LoadBool(b) => seq![2u8, if b { 1u8 } else { 0u8 }],
        InstrV::LoadConst(_) => Seq::empty(),
        InstrV::Bitwise(_) => Seq::empty(),
        InstrV::LoadVar(_) => Seq::empty(),
        InstrV::StoreVar(_) => Seq::empty(),
        InstrV::LoadSlot(x) => seq![4u8] + spec_u16_to_le_bytes(x),
        InstrV::StoreSlot(x) => seq![5u8] + spec_u16_to_le_bytes(x),
        InstrV::Jump(t) => seq![40u8] + spec_u32_to_le_bytes(t as u32),
        InstrV::JumpIfFalse(t) => seq![41u8] + spec_u32_to_le_bytes(t as u32),
        InstrV::Call(s, n) => seq![52u8] + enc_str(s) + spec_u32_to_le_bytes(n as u32),
        InstrV::Construct(s, f) => seq![54u8] + enc_str(s) + spec_u32_to_le_bytes(f.len() as u32)
            + enc_strs(f),
        InstrV::GetField(s) => seq![55u8] + enc_str(s),
        InstrV::SetField(s) => seq![56u8] + enc_str(s),
        InstrV::MethodCall(s, n) => seq![57u8] + enc_str(s) + spec_u32_to_le_bytes(n as u32),
        InstrV::TryCatch(a, b) => seq![70u8] + spec_u32_to_le_bytes(a as u32) + spec_u32_to_le_bytes(
            b as u32,
        ),
        InstrV::LoadBytes(b) => seq![62u8] + spec_u32_to_le_bytes(b.len() as u32) + b,
        InstrV::NewList(n) => seq![63u8] + spec_u32_to_le_bytes(n as u32),
        InstrV::NewMap(n) => seq![67u8] + spec_u32_to_le_bytes(n as u32),
        InstrV::Add => seq![10u8],
        InstrV::Sub => seq![11u8],
        InstrV::Mul => seq![12u8],
        InstrV::Div => seq![13u8],
        InstrV::Mod => seq![14u8],
        InstrV::Eq => seq![20u8],
        InstrV::NotEq => seq![21u8],
        InstrV::Lt => seq![22u8],
        InstrV::Gt => seq![23u8],
        InstrV::LtEq => seq![24u8],
        InstrV::GtEq => seq![25u8],
        InstrV::And => seq![30u8],
        InstrV::Or => seq![31u8],
        InstrV::Not => seq![32u8],
        InstrV::Print => seq![50u8],
        InstrV::PrintLn => seq![51u8],
        InstrV::Return => seq![53u8],
        InstrV::Deinit => seq![61u8],
        InstrV::Throw => seq![69u8],
        InstrV::IndexGet => seq![64u8],
        InstrV::IndexSet => seq![68u8],
        InstrV::Stringify => seq![65u8],
        InstrV::Pop => seq![60u8],
        InstrV::Halt => seq![99u8],
        InstrV::LoadNull => seq![71u8],
    }
}

pub open spec fn encode_code(c: Seq<InstrV>) -> Seq<u8>
    decreases c.len(),
{
    if c.len() == 0 {
        Seq::empty()
    } else {
        encode_code(c.drop_last()) + encode_instr(c.last())
    }
}

/// The bytes of a `.jlxr` file: the magic, the instruction count as a little-endian `u32`,
/// then the instructions.
pub open spec fn encode_chunk(c: Seq<InstrV>) -> Seq<u8> {
    magic() + spec_u32_to_le_bytes(c.len() as u32) + encode_code(c)
}

fn push_all(data: &mut Vec<u8>, bytes: &[u8])
    ensures
        final(data)@ == old(data)@ + bytes@,
{
    let mut k: usize = 0;
    while k < bytes.len()
        invariant
            k <= bytes.len(),
            data@ == old(data)@ + bytes@.subrange(0, k as int),
        decreases bytes.len() - k,
    {
        data.push(bytes[k]);
        k = k + 1;
        assert(data@ =~= old(data)@ + bytes@.subrange(0, k as int));
    }
    assert(bytes@.subrange(0, bytes@.len() as int) =~= bytes@);
}

fn push_u32(data: &mut Vec<u8>, x: u32)
    ensures
        final(data)@ == old(data)@ + spec_u32_to_le_bytes(x),
{
    let b = u32_to_le_bytes(x);
    push_all(data, b.as_slice());
}

fn push_str(data: &mut Vec<u8>, s: &String)
    ensures
        final(data)@ == old(data)@ + enc_str(s@),
{
    let bytes = s.as_str().as_bytes();
    push_u32(data, bytes.len() as u32);
    push_all(data, bytes);
    assert(data@ =~= old(data)@ + enc_str(s@));
}

fn push_strs(data: &mut Vec<u8>, ns: &Vec<String>)
    ensures
        final(data)@ == old(data)@ + enc_strs(names_view(ns@)),
{
    let mut k: usize = 0;
    assert(names_view(ns@).subrange(0, 0) =~= Seq::<Seq<char>>::empty());
    while k < ns.len()
        invariant
            k <= ns.len(),
            data@ == old(data)@ + enc_strs(names_view(ns@).subrange(0, k as int)),
        decreases ns.len() - k,
    {
        push_str(data, &ns[k]);
        k = k + 1;
        assert(names_view(ns@).subrange(0, k as int).drop_last() =~= names_view(ns@).subrange(
            0,
            k - 1,
        ));
        assert(data@ =~= old(data)@ + enc_strs(names_view(ns@).subrange(0, k as int)));
    }
    assert(names_view(ns@).subrange(0, ns@.len() as int) =~= names_view(ns@));
}

/// Appends the bytes of one instruction, which has a byte form.
pub fn instruction_to_bytes(instr: &Instruction, data: &mut Vec<u8>)
    requires
        has_byte_form(instr@),
    ensures
        final(data)@ == old(data)@ + encode_instr(instr@),
{
    let ghost start = data@;
    match instr {
        Instruction::LoadInt(n) => {
            data.push(0u8);
            let b = u64_to_le_bytes(*n as u64);
            push_all(data, b.as_slice());
        },
        Instruction::LoadFloat(bits) => {
            data.push(66u8);
            let b = u64_to_le_bytes(*bits);
            push_all(data, b.as_slice());
        },
        Instruction::LoadStr(s) => {
            data.push(1u8);
            push_str(data, s);
        },
        Instruction::LoadBool(b) => {
            data.push(2u8);
            data.push(if *b { 1u8 } else { 0u8 });
        },
        Instruction::LoadConst(_) | Instruction::LoadVar(_) | Instruction::StoreVar(_) | Instruction::Bitwise(_) => {
            assert(false);
        },
        Instruction::LoadSlot(x) => {
            data.push(4u8);
            let b = u16_to_le_bytes(*x);
            push_all(data, b.as_slice());
        },
        Instruction::StoreSlot(x) => {
            data.push(5u8);
            let b = u16_to_le_bytes(*x);
            push_all(data, b.as_slice());
        },
        Instruction::Jump(t) => {
            data.push(40u8);
            push_u32(data, *t as u32);
        },
        Instruction::JumpIfFalse(t) => {
            data.push(41u8);
            push_u32(data, *t as u32);
        },
        Instruction::Call(s, n) => {
            data.push(52u8);
            push_str(data, s);
            push_u32(data, *n as u32);
        },
        Instruction::Construct(s, f) => {
            data.push(54u8);
            push_str(data, s);
            push_u32(data, f.len() as u32);
            push_strs(data, f);
        },
        Instruction::GetField(s) => {
            data.push(55u8);
            push_str(data, s);
        },
        Instruction::SetField(s) => {
            data.push(56u8);
            push_str(data, s);
        },
        Instruction::MethodCall(s, n) => {
            data.push(57u8);
            push_str(data, s);
            push_u32(data, *n as u32);
        },
        Instruction::TryCatch(a, b) => {
            data.push(70u8);
            push_u32(data, *a as u32);
            push_u32(data, *b as u32);
        },
        Instruction::LoadBytes(b) => {
            data.push(62u8);
            push_u32(data, b.len() as u32);
            push_all(data, b.as_slice());
        },
        Instruction::NewList(n) => {
            data.push(63u8);
            push_u32(data, *n as u32);
        },
        Instruction::NewMap(n) => {
            data.push(67u8);
            push_u32(data, *n as u32);
        },
        Instruction::Add => {
            data.push(10u8);
        },
        Instruction::Sub => {
            data.push(11u8);
        },
        Instruction::Mul => {
            data.push(12u8);
        },
        Instruction::Div => {
            data.push(13u8);
        },
        Instruction::Mod => {
            data.push(14u8);
        },
        Instruction::Eq => {
            data.push(20u8);
        },
        Instruction::NotEq => {
            data.push(21u8);
        },
        Instruction::Lt => {
            data.push(22u8);
        },
        Instruction::Gt => {
            data.push(23u8);
        },
        Instruction::LtEq => {
            data.push(24u8);
        },
        Instruction::GtEq => {
            data.push(25u8);
        },
        Instruction::And => {
            data.push(30u8);
        },
        Instruction::Or => {
            data.push(31u8);
        },
        Instruction::Not => {
            data.push(32u8);
        },
        Instruction::Print => {
            data.push(50u8);
        },
        Instruction::PrintLn => {
            data.push(51u8);
        },
        Instruction::Return => {
            data.push(53u8);
        },
        Instruction::Deinit => {
            data.push(61u8);
        },
        Instruction::Throw => {
            data.push(69u8);
        },
        Instruction::IndexGet => {
            data.push(64u8);
        },
        Instruction::IndexSet => {
            data.push(68u8);
        },
        Instruction::Stringify => {
            data.push(65u8);
        },
        Instruction::Pop => {
            data.push(60u8);
        },
        Instruction::Halt => {
            data.push(99u8);
        },
        Instruction::LoadNull => {
            data.push(71u8);
        },
    }
    assert(data@ =~= start + encode_instr(instr@));
}

/// Why a chunk cannot be written as a `.jlxr` file.
#[derive(Debug, Clone, Copy, PartialEq, Eq, Structural)]
pub enum EncodeError {
    /// The instruction at this index has no byte form.
    NoByteForm(usize),
}

/// The index of the first instruction at or after `i` without a byte form, or the length.
pub open spec fn first_without_byte_form(c: Seq<InstrV>, i: int) -> int
    decreases c.len() - i,
{
    if i < 0 || i >= c.len() {
        c.len() as int
    } else if !has_byte_form(c[i]) {
        i
    } else {
        first_without_byte_form(c, i + 1)
    }
}

fn byte_form(i: &Instruction) -> (b: bool)
    ensures
        b == has_byte_form(i@),
{
    !matches!(i, Instruction::LoadConst(_) | Instruction::LoadVar(_) | Instruction::StoreVar(_) | Instruction::Bitwise(_))
}

/// The bytes of a chunk as a `.jlxr` file, or the index of the first instruction that has no
/// byte form.
pub fn serialize(chunk: &Chunk) -> (r: Result<Vec<u8>, EncodeError>)
    ensures
        match r {
            Ok(d) => first_without_byte_form(chunk@, 0) == chunk@.len() && d@ == encode_chunk(chunk@),
            Err(EncodeError::NoByteForm(k)) => k == first_without_byte_form(chunk@, 0) && k < chunk@.len(),
        },
{
    let mut j: usize = 0;
    while j < chunk.code.len()
        invariant
            j <= chunk.code.len(),
            first_without_byte_form(chunk@, 0) == first_without_byte_form(chunk@, j as int),
            forall|k: int| 0 <= k < j ==> has_byte_form(#[trigger] chunk@[k]),
        decreases chunk.code.len() - j,
    {
        if !byte_form(&chunk.code[j]) {
            return Err(EncodeError::NoByteForm(j));
        }
        j = j + 1;
    }
    let mut data: Vec<u8> = Vec::new();
    data.push(74u8);
    data.push(76u8);
    data.push(88u8);
    data.push(82u8);
    push_u32(&mut data, chunk.code.len() as u32);
    let ghost head = data@;
    let mut k: usize = 0;
    assert(chunk@.subrange(0, 0) =~= Seq::<InstrV>::empty());
    while k < chunk.code.len()
        invariant
            k <= chunk.code.len(),
            head == magic() + spec_u32_to_le_bytes(chunk@.len() as u32),
            data@ == head + encode_code(chunk@.subrange(0, k as int)),
            forall|k: int| 0 <= k < chunk@.len() ==> has_byte_form(#[trigger] chunk@[k]),
        decreases chunk.code.len() - k,
    {
        assert(has_byte_form(chunk@[k as int]));
        instruction_to_bytes(&chunk.code[k], &mut data);
        k = k + 1;
        assert(chunk@.subrange(0, k as int).drop_last() =~= chunk@.subrange(0, k - 1));
        assert(data@ =~= head + encode_code(chunk@.subrange(0, k as int)));
    }
    assert(chunk@.subrange(0, chunk@.len() as int) =~= chunk@);
    Ok(data)
}

// ---------------------------------------------------------------------------
// The file format: decoding

/// Why a byte string is not a chunk.
#[derive(Debug, Clone, Copy, PartialEq, Eq, Structural)]
pub enum DecodeError {
    /// Shorter than eight bytes, or not starting with `JLXR`.
    BadHeader,
    /// An instruction runs past the end of the data.
    Truncated,
    /// An instruction tag that no instruction has.
    UnknownTag(u8),
}

/// What `String::from_utf8_lossy` gives for bytes that are not valid UTF-8.
pub uninterp spec fn spec_utf8_lossy(bytes: Seq<u8>) -> Seq<char>;

/// The text that `String::from_utf8_lossy` makes of some bytes.
pub open spec fn lossy_decode(b: Seq<u8>) -> Seq<char> {
    if valid_utf8(b) {
        decode_utf8(b)
    } else {
        spec_utf8_lossy(b)
    }
}

/// `String::from_utf8_lossy`: valid UTF-8 decodes to its characters (std documents that the
/// result then borrows the input unchanged); other input is named.
#[verifier::external_body]
pub(crate) fn string_from_utf8_lossy(bytes: &[u8]) -> (s: String)
    ensures
        valid_utf8(bytes@) ==> s@ == decode_utf8(bytes@),
        !valid_utf8(bytes@) ==> s@ == spec_utf8_lossy(bytes@),
{
    String::from_utf8_lossy(bytes).into_owned()
}

pub open spec fn rd_u16(d: Seq<u8>, p: int) -> Option<u16> {
    if 0 <= p && p + 2 <= d.len() {
        Some(spec_u16_from_le_bytes(d.subrange(p, p + 2)))
    } else {
        None
    }
}

pub open spec fn rd_u32(d: Seq<u8>, p: int) -> Option<u32> {
    if 0 <= p && p + 4 <= d.len() {
        Some(spec_u32_from_le_bytes(d.subrange(p, p + 4)))
    } else {
        None
    }
}

pub open spec fn rd_u64(d: Seq<u8>, p: int) -> Option<u64> {
    if 0 <= p && p + 8 <= d.len() {
        Some(spec_u64_from_le_bytes(d.subrange(p, p + 8)))
    } else {
        None
    }
}

/// A length-prefixed byte run at `p`, and the position after it.
pub open spec fn rd_blob(d: Seq<u8>, p: int) -> Option<(Seq<u8>, int)> {
    match rd_u32(d, p) {
        Some(n) => if p + 4 + n <= d.len() {
            Some((d.subrange(p + 4, p + 4 + n), p + 4 + n))
        } else {
            None
        },
        None => None,
    }
}

/// A length-prefixed string at `p`, and the position after it.
pub open spec fn rd_str(d: Seq<u8>, p: int) -> Option<(Seq<char>, int)> {
    match rd_blob(d, p) {
        Some((b, q)) => Some((lossy_decode(b), q)),
        None => None,
    }
}

/// `k` length-prefixed strings from `p` on.
pub open spec fn rd_strs(d: Seq<u8>, p: int, k: nat) -> Option<(Seq<Seq<char>>, int)>
    decreases k,
{
    if k == 0 {
        Some((Seq::empty(), p))
    } else {
        match rd_strs(d, p, (k - 1) as nat) {
            Some((v, q)) => match rd_str(d, q) {
                Some((s, r)) => Some((v.push(s), r)),
                None => None,
            },
            None => None,
        }
    }
}

pub open spec fn dec_u32(d: Seq<u8>, q: int, f: spec_fn(u32) -> InstrV) -> Result<(InstrV, int), DecodeError> {
    match rd_u32(d, q) {
        Some(x) => Ok((f(x), q + 4)),
        None => Err(DecodeError::Truncated),
    }
}

pub open spec fn dec_str(d: Seq<u8>, q: int, f: spec_fn(Seq<char>) -> InstrV) -> Result<(InstrV, int), DecodeError> {
    match rd_str(d, q) {
        Some((s, r)) => Ok((f(s), r)),
        None => Err(DecodeError::Truncated),
    }
}

pub open spec fn dec_str_u32(d: Seq<u8>, q: int, f: spec_fn(Seq<char>, u32) -> InstrV) -> Result<(InstrV, int), DecodeError> {
    match rd_str(d, q) {
        Some((s, r)) => match rd_u32(d, r) {
            Some(x) => Ok((f(s, x), r + 4)),
            None => Err(DecodeError::Truncated),
        },
        None => Err(DecodeError::Truncated),
    }
}

/// The instruction at `p`, and the position after it.
pub open spec fn decode_instr(d: Seq<u8>, p: int) -> Result<(InstrV, int), DecodeError> {
    if !(0 <= p < d.len()) {
        Err(DecodeError::Truncated)
    } else {
        let t = d[p];
        let q = p + 1;
        if t == 0 {
            match rd_u64(d, q) {
                Some(x) => Ok((InstrV::LoadInt(x as i64), q + 8)),
                None => Err(DecodeError::Truncated),
            }
        } else if t == 66 {
            match rd_u64(d, q) {
                Some(x) => Ok((InstrV::LoadFloat(x), q + 8)),
                None => Err(DecodeError::Truncated),
            }
        } else if t == 1 {
            dec_str(d, q, |s: Seq<char>| InstrV::LoadStr(s))
        } else if t == 2 {
            if q < d.len() {
                Ok((InstrV::LoadBool(d[q] == 1), q + 1))
            } else {
                Err(DecodeError::Truncated)
            }
        } else if t == 4 {
            match rd_u16(d, q) {
                Some(x) => Ok((InstrV::LoadSlot(x), q + 2)),
                None => Err(DecodeError::Truncated),
            }
        } else if t == 5 {
            match rd_u16(d, q) {
                Some(x) => Ok((InstrV::StoreSlot(x), q + 2)),
                None => Err(DecodeError::Truncated),
            }
        } else if t == 40 {
            dec_u32(d, q, |x: u32| InstrV::Jump(x as usize))
        } else if t == 41 {
            dec_u32(d, q, |x: u32| InstrV::JumpIfFalse(x as usize))
        } else if t == 52 {
            dec_str_u32(d, q, |s: Seq<char>, x: u32| InstrV::Call(s, x as usize))
        } else if t == 54 {
            match rd_str(d, q) {
                Some((s, r)) => match rd_u32(d, r) {
                    Some(n) => match rd_strs(d, r + 4, n as nat) {
                        Some((f, r2)) => Ok((InstrV::Construct(s, f), r2)),
                        None => Err(DecodeError::Truncated),
                    },
                    None => Err(DecodeError::Truncated),
                },
                None => Err(DecodeError::Truncated),
            }
        } else if t == 55 {
            dec_str(d, q, |s: Seq<char>| InstrV::GetField(s))
        } else if t == 56 {
            dec_str(d, q, |s: Seq<char>| InstrV::SetField(s))
        } else if t == 57 {
            dec_str_u32(d, q, |s: Seq<char>, x: u32| InstrV::MethodCall(s, x as usize))
        } else if t == 70 {
            match rd_u32(d, q) {
                Some(a) => match rd_u32(d, q + 4) {
                    Some(b) => Ok((InstrV::TryCatch(a as usize, b as usize), q + 8)),
                    None => Err(DecodeError::Truncated),
                },
                None => Err(DecodeError::Truncated),
            }
        } else if t == 62 {
            match rd_blob(d, q) {
                Some((b, r)) => Ok((InstrV::LoadBytes(b), r)),
                None => Err(DecodeError::Truncated),
            }
        } else if t == 63 {
            dec_u32(d, q, |x: u32| InstrV::NewList(x as usize))
        } else if t == 67 {
            dec_u32(d, q, |x: u32| InstrV::NewMap(x as usize))
        } else if t == 10 {
            Ok((InstrV::Add, q))
        } else if t == 11 {
            Ok((InstrV::Sub, q))
        } else if t == 12 {
            Ok((InstrV::Mul, q))
        } else if t == 13 {
            Ok((InstrV::Div, q))
        } else if t == 14 {
            Ok((InstrV::Mod, q))
        } else if t == 20 {
            Ok((InstrV::Eq, q))
        } else if t == 21 {
            Ok((InstrV::NotEq, q))
        } else if t == 22 {
            Ok((InstrV::Lt, q))
        } else if t == 23 {
            Ok((InstrV::Gt, q))
        } else if t == 24 {
            Ok((InstrV::LtEq, q))
        } else if t == 25 {
            Ok((InstrV::GtEq, q))
        } else if t == 30 {
            Ok((InstrV::And, q))
        } else if t == 31 {
            Ok((InstrV::Or, q))
        } else if t == 32 {
            Ok((InstrV::Not, q))
        } else if t == 50 {
            Ok((InstrV::Print, q))
        } else if t == 51 {
            Ok((InstrV::PrintLn, q))
        } else if t == 53 {
            Ok((InstrV::Return, q))
        } else if t == 61 {
            Ok((InstrV::Deinit, q))
        } else if t == 69 {
            Ok((InstrV::Throw, q))
        } else if t == 64 {
            Ok((InstrV::IndexGet, q))
        } else if t == 68 {
            Ok((InstrV::IndexSet, q))
        } else if t == 65 {
            Ok((InstrV::Stringify, q))
        } else if t == 60 {
            Ok((InstrV::Pop, q))
        } else if t == 99 {
            Ok((InstrV::Halt, q))
        } else if t == 71 {
            Ok((InstrV::LoadNull, q))
        } else {
            Err(DecodeError::UnknownTag(t))
        }
    }
}

/// `k` instructions from `p` on, and the position after them.
pub open spec fn decode_code(d: Seq<u8>, p: int, k: nat) -> Result<(Seq<InstrV>, int), DecodeError>
    decreases k,
{
    if k == 0 {
        Ok((Seq::empty(), p))
    } else {
        match decode_code(d, p, (k - 1) as nat) {
            Ok((c, q)) => match decode_instr(d, q) {
                Ok((i, r)) => Ok((c.push(i), r)),
                Err(e) => Err(e),
            },
            Err(e) => Err(e),
        }
    }
}

/// The chunk that a `.jlxr` file holds; bytes after the counted instructions are ignored.
pub open spec fn decode_chunk(d: Seq<u8>) -> Result<Seq<InstrV>, DecodeError> {
    if d.len() < 8 || d.subrange(0, 4) != magic() {
        Err(DecodeError::BadHeader)
    } else {
        match decode_code(d, 8, spec_u32_from_le_bytes(d.subrange(4, 8)) as nat) {
            Ok((c, _)) => Ok(c),
            Err(e) => Err(e),
        }
    }
}

fn read_u16(data: &[u8], pos: usize) -> (r: Option<u16>)
    ensures
        r == rd_u16(data@, pos as int),
{
    if pos <= data.len() && data.len() - pos >= 2 {
        let v: Vec<u8> = vec![data[pos], data[pos + 1]];
        assert(v@ =~= data@.subrange(pos as int, pos + 2));
        Some(u16_from_le_bytes(v.as_slice()))
    } else {
        None
    }
}

fn read_u32(data: &[u8], pos: usize) -> (r: Option<u32>)
    ensures
        r == rd_u32(data@, pos as int),
{
    if pos <= data.len() && data.len() - pos >= 4 {
        let v: Vec<u8> = vec![data[pos], data[pos + 1], data[pos + 2], data[pos + 3]];
        assert(v@ =~= data@.subrange(pos as int, pos + 4));
        Some(u32_from_le_bytes(v.as_slice()))
    } else {
        None
    }
}

fn read_u64(data: &[u8], pos: usize) -> (r: Option<u64>)
    ensures
        r == rd_u64(data@, pos as int),
{
    if pos <= data.len() && data.len() - pos >= 8 {
        let v: Vec<u8> = vec![
            data[pos],
            data[pos + 1],
            data[pos + 2],
            data[pos + 3],
            data[pos + 4],
            data[pos + 5],
            data[pos + 6],
            data[pos + 7],
        ];
        assert(v@ =~= data@.subrange(pos as int, pos + 8));
        Some(u64_from_le_bytes(v.as_slice()))
    } else {
        None
    }
}

fn read_blob(data: &[u8], pos: usize) -> (r: Option<(Vec<u8>, usize)>)
    ensures
        match rd_blob(data@, pos as int) {
            Some((b, q)) => r matches Some((v, k)) && v@ == b && k == q,
            None => r is None,
        },
{
    match read_u32(data, pos) {
        Some(n) => {
            let n = n as usize;
            if data.len() - (pos + 4) >= n {
                let start = pos + 4;
                let mut v: Vec<u8> = Vec::new();
                let mut k: usize = 0;
                while k < n
                    invariant
                        k <= n,
                        start + n <= data.len(),
                        v@ == data@.subrange(start as int, start + k),
                    decreases n - k,
                {
                    v.push(data[start + k]);
                    k = k + 1;
                    assert(v@ =~= data@.subrange(start as int, start + k));
                }
                Some((v, start + n))
            } else {
                None
            }
        },
        None => None,
    }
}

fn read_str(data: &[u8], pos: usize) -> (r: Option<(String, usize)>)
    ensures
        match rd_str(data@, pos as int) {
            Some((s, q)) => r matches Some((v, k)) && v@ == s && k == q,
            None => r is None,
        },
{
    match read_blob(data, pos) {
        Some((b, q)) => Some((string_from_utf8_lossy(b.as_slice()), q)),
        None => None,
    }
}

fn read_strs(data: &[u8], pos: usize, count: u32) -> (r: Option<(Vec<String>, usize)>)
    ensures
        match rd_strs(data@, pos as int, count as nat) {
            Some((s, q)) => r matches Some((v, k)) && names_view(v@) == s && k == q,
            None => r is None,
        },
{
    let mut out: Vec<String> = Vec::new();
    let mut p = pos;
    let mut k: u32 = 0;
    assert(names_view(out@) =~= Seq::<Seq<char>>::empty());
    while k < count
        invariant
            k <= count,
            rd_strs(data@, pos as int, k as nat) == Some((names_view(out@), p as int)),
        decreases count - k,
    {
        match read_str(data, p) {
            Some((s, q)) => {
                let ghost before = names_view(out@);
                out.push(s);
                assert(names_view(out@) =~= before.push(out@.last()@));
                p = q;
            },
            None => {
                assert(rd_strs(data@, pos as int, (k + 1) as nat) is None);
                proof {
                    lemma_rd_strs_none(data@, pos as int, (k + 1) as nat, count as nat);
                }
                return None;
            },
        }
        k = k + 1;
    }
    Some((out, p))
}

proof fn lemma_rd_strs_none(d: Seq<u8>, p: int, k: nat, m: nat)
    requires
        k <= m,
        rd_strs(d, p, k) is None,
    ensures
        rd_strs(d, p, m) is None,
    decreases m - k,
{
    if k < m {
        lemma_rd_strs_none(d, p, k + 1, m);
    }
}

pub open spec fn decode_agrees(r: Result<(Instruction, usize), DecodeError>, s: Result<(InstrV, int), DecodeError>) -> bool {
    match s {
        Ok((i, q)) => r matches Ok((x, k)) && x@ == i && k == q,
        Err(e) => r == Err::<(Instruction, usize), DecodeError>(e),
    }
}

/// Reads the instruction at `pos`.
#[verifier::rlimit(40)]
pub fn bytes_to_instruction(data: &[u8], pos: usize) -> (r: Result<(Instruction, usize), DecodeError>)
    ensures
        decode_agrees(r, decode_instr(data@, pos as int)),
{
    if pos >= data.len() {
        return Err(DecodeError::Truncated);
    }
    let t = data[pos];
    let q = pos + 1;
    match t {
        0 => match read_u64(data, q) {
            Some(x) => Ok((Instruction::LoadInt(x as i64), q + 8)),
            None => Err(DecodeError::Truncated),
        },
        66 => match read_u64(data, q) {
            Some(x) => Ok((Instruction::LoadFloat(x), q + 8)),
            None => Err(DecodeError::Truncated),
        },
        1 => match read_str(data, q) {
            Some((s, r)) => Ok((Instruction::LoadStr(s), r)),
            None => Err(DecodeError::Truncated),
        },
        2 => if q < data.len() {
            Ok((Instruction::LoadBool(data[q] == 1), q + 1))
        } else {
            Err(DecodeError::Truncated)
        },
        4 => match read_u16(data, q) {
            Some(x) => Ok((Instruction::LoadSlot(x), q + 2)),
            None => Err(DecodeError::Truncated),
        },
        5 => match read_u16(data, q) {
            Some(x) => Ok((Instruction::StoreSlot(x), q + 2)),
            None => Err(DecodeError::Truncated),
        },
        40 => match read_u32(data, q) {
            Some(x) => Ok((Instruction::Jump(x as usize), q + 4)),
            None => Err(DecodeError::Truncated),
        },
        41 => match read_u32(data, q) {
            Some(x) => Ok((Instruction::JumpIfFalse(x as usize), q + 4)),
            None => Err(DecodeError::Truncated),
        },
        52 => match read_str(data, q) {
            Some((s, r)) => match read_u32(data, r) {
                Some(x) => Ok((Instruction::Call(s, x as usize), r + 4)),
                None => Err(DecodeError::Truncated),
            },
            None => Err(DecodeError::Truncated),
        },
        54 => match read_str(data, q) {
            Some((s, r)) => match read_u32(data, r) {
                Some(n) => match read_strs(data, r + 4, n) {
                    Some((f, r2)) => Ok((Instruction::Construct(s, f), r2)),
                    None => Err(DecodeError::Truncated),
                },
                None => Err(DecodeError::Truncated),
            },
            None => Err(DecodeError::Truncated),
        },
        55 => match read_str(data, q) {
            Some((s, r)) => Ok((Instruction::GetField(s), r)),
            None => Err(DecodeError::Truncated),
        },
        56 => match read_str(data, q) {
            Some((s, r)) => Ok((Instruction::SetField(s), r)),
            None => Err(DecodeError::Truncated),
        },
        57 => match read_str(data, q) {
            Some((s, r)) => match read_u32(data, r) {
                Some(x) => Ok((Instruction::MethodCall(s, x as usize), r + 4)),
                None => Err(DecodeError::Truncated),
            },
            None => Err(DecodeError::Truncated),
        },
        70 => match read_u32(data, q) {
            Some(a) => match read_u32(data, q + 4) {
                Some(b) => Ok((Instruction::TryCatch(a as usize, b as usize), q + 8)),
                None => Err(DecodeError::Truncated),
            },
            None => Err(DecodeError::Truncated),
        },
        62 => match read_blob(data, q) {
            Some((b, r)) => Ok((Instruction::LoadBytes(b), r)),
            None => Err(DecodeError::Truncated),
        },
        63 => match read_u32(data, q) {
            Some(x) => Ok((Instruction::NewList(x as usize), q + 4)),
            None => Err(DecodeError::Truncated),
        },
        67 => match read_u32(data, q) {
            Some(x) => Ok((Instruction::NewMap(x as usize), q + 4)),
            None => Err(DecodeError::Truncated),
        },
        10 => Ok((Instruction::Add, q)),
        11 => Ok((Instruction::Sub, q)),
        12 => Ok((Instruction::Mul, q)),
        13 => Ok((Instruction::Div, q)),
        14 => Ok((Instruction::Mod, q)),
        20 => Ok((Instruction::Eq, q)),
        21 => Ok((Instruction::NotEq, q)),
        22 => Ok((Instruction::Lt, q)),
        23 => Ok((Instruction::Gt, q)),
        24 => Ok((Instruction::LtEq, q)),
        25 => Ok((Instruction::GtEq, q)),
        30 => Ok((Instruction::And, q)),
        31 => Ok((Instruction::Or, q)),
        32 => Ok((Instruction::Not, q)),
        50 => Ok((Instruction::Print, q)),
        51 => Ok((Instruction::PrintLn, q)),
        53 => Ok((Instruction::Return, q)),
        61 => Ok((Instruction::Deinit, q)),
        69 => Ok((Instruction::Throw, q)),
        64 => Ok((Instruction::IndexGet, q)),
        68 => Ok((Instruction::IndexSet, q)),
        65 => Ok((Instruction::Stringify, q)),
        60 => Ok((Instruction::Pop, q)),
        99 => Ok((Instruction::Halt, q)),
        71 => Ok((Instruction::LoadNull, q)),
        _ => Err(DecodeError::UnknownTag(t)),
    }
}

/// Reads a `.jlxr` file's bytes back into a chunk.
pub fn deserialize(data: &[u8]) -> (r: Result<Chunk, DecodeError>)
    ensures
        match decode_chunk(data@) {
            Ok(c) => r matches Ok(x) && x@ == c,
            Err(e) => r == Err::<Chunk, DecodeError>(e),
        },
{
    if data.len() < 8 || data[0] != 74u8 || data[1] != 76u8 || data[2] != 88u8 || data[3] != 82u8 {
        proof {
            if data@.len() >= 8 {
                assert(data@.subrange(0, 4) != magic()) by {
                    let m = data@.subrange(0, 4);
                    assert(m[0] == data@[0] && m[1] == data@[1] && m[2] == data@[2] && m[3]
                        == data@[3]);
                }
            }
        }
        return Err(DecodeError::BadHeader);
    }
    assert(data@.subrange(0, 4) =~= magic());
    let count = match read_u32(data, 4) {
        Some(n) => n,
        None => {
            return Err(DecodeError::BadHeader);
        },
    };
    let mut chunk = Chunk::new();
    let mut pos: usize = 8;
    let mut k: u32 = 0;
    while k < count
        invariant
            k <= count,
            count == spec_u32_from_le_bytes(data@.subrange(4, 8)),
            data@.len() >= 8,
            data@.subrange(0, 4) == magic(),
            decode_code(data@, 8, k as nat) == Ok::<(Seq<InstrV>, int), DecodeError>(
                (chunk@, pos as int),
            ),
        decreases count - k,
    {
        match bytes_to_instruction(data, pos) {
            Ok((instr, next)) => {
                chunk.push(instr);
                pos = next;
            },
            Err(e) => {
                proof {
                    assert(decode_instr(data@, pos as int) == Err::<(InstrV, int), DecodeError>(e));
                    assert(decode_code(data@, 8, (k + 1) as nat) == Err::<
                        (Seq<InstrV>, int),
                        DecodeError,
                    >(e));
                    lemma_decode_code_err(data@, 8, (k + 1) as nat, count as nat);
                }
                return Err(e);
            },
        }
        k = k + 1;
    }
    Ok(chunk)
}

proof fn lemma_decode_code_err(d: Seq<u8>, p: int, k: nat, m: nat)
    requires
        k <= m,
        decode_code(d, p, k) is Err,
    ensures
        decode_code(d, p, m) == decode_code(d, p, k),
    decreases m - k,
{
    if k < m {
        lemma_decode_code_err(d, p, k + 1, m);
    }
}

// ---------------------------------------------------------------------------
// Reading back what was written

/// A string whose UTF-8 length fits the format's 32-bit length field.
pub open spec fn str_fits(s: Seq<char>) -> bool {
    encode_utf8(s).len() <= u32::MAX
}

/// An instruction that has a byte form and whose counts, lengths and jump targets fit the
/// format's 32-bit fields.
pub open spec fn instr_encodable(i: InstrV) -> bool {
    match i {
        InstrV::LoadStr(s) => str_fits(s),
        InstrV::LoadVar(_) => false,
        InstrV::StoreVar(_) => false,
        InstrV::GetField(s) => str_fits(s),
        InstrV::SetField(s) => str_fits(s),
        InstrV::LoadConst(_) => false,
        InstrV::Bitwise(_) => false,
        InstrV::Jump(t) => t <= u32::MAX,
        InstrV::JumpIfFalse(t) => t <= u32::MAX,
        InstrV::Call(s, n) => str_fits(s) && n <= u32::MAX,
        InstrV::MethodCall(s, n) => str_fits(s) && n <= u32::MAX,
        InstrV::Construct(s, f) => str_fits(s) && f.len() <= u32::MAX && forall|k: int|
            0 <= k < f.len() ==> str_fits(#[trigger] f[k]),
        InstrV::TryCatch(a, b) => a <= u32::MAX && b <= u32::MAX,
        InstrV::LoadBytes(b) => b.len() <= u32::MAX,
        InstrV::NewList(n) => n <= u32::MAX,
        InstrV::NewMap(n) => n <= u32::MAX,
        _ => true,
    }
}

/// A chunk that the format can hold exactly.
pub open spec fn chunk_encodable(c: Seq<InstrV>) -> bool {
    c.len() <= u32::MAX && forall|k: int| 0 <= k < c.len() ==> instr_encodable(#[trigger] c[k])
}

/// `d` holds `x` at `p`.
pub open spec fn holds_at(d: Seq<u8>, p: int, x: Seq<u8>) -> bool {
    0 <= p && p + x.len() <= d.len() && d.subrange(p, p + x.len()) == x
}

proof fn lemma_holds_split(d: Seq<u8>, p: int, a: Seq<u8>, b: Seq<u8>)
    requires
        holds_at(d, p, a + b),
    ensures
        holds_at(d, p, a),
        holds_at(d, p + a.len(), b),
{
    let full = d.subrange(p, p + (a + b).len());
    assert(full == a + b);
    assert(d.subrange(p, p + a.len()) =~= full.subrange(0, a.len() as int));
    assert(full.subrange(0, a.len() as int) =~= a);
    assert(d.subrange(p + a.len(), p + a.len() + b.len()) =~= full.subrange(
        a.len() as int,
        (a + b).len() as int,
    ));
    assert(full.subrange(a.len() as int, (a + b).len() as int) =~= b);
}

proof fn lemma_holds_mid(a: Seq<u8>, x: Seq<u8>, b: Seq<u8>)
    ensures
        holds_at(a + x + b, a.len() as int, x),
{
    assert((a + x + b).subrange(a.len() as int, (a.len() + x.len()) as int) =~= x);
}

proof fn lemma_rd_u16_at(d: Seq<u8>, p: int, x: u16)
    requires
        holds_at(d, p, spec_u16_to_le_bytes(x)),
    ensures
        rd_u16(d, p) == Some(x),
{
    lemma_auto_spec_u16_to_from_le_bytes();
}

proof fn lemma_rd_u32_at(d: Seq<u8>, p: int, x: u32)
    requires
        holds_at(d, p, spec_u32_to_le_bytes(x)),
    ensures
        rd_u32(d, p) == Some(x),
        spec_u32_to_le_bytes(x).len() == 4,
{
    lemma_auto_spec_u32_to_from_le_bytes();
}

proof fn lemma_rd_u64_at(d: Seq<u8>, p: int, x: u64)
    requires
        holds_at(d, p, spec_u64_to_le_bytes(x)),
    ensures
        rd_u64(d, p) == Some(x),
{
    lemma_auto_spec_u64_to_from_le_bytes();
}

proof fn lemma_rd_blob_at(d: Seq<u8>, p: int, b: Seq<u8>)
    requires
        b.len() <= u32::MAX,
        holds_at(d, p, spec_u32_to_le_bytes(b.len() as u32) + b),
    ensures
        rd_blob(d, p) == Some((b, p + 4 + b.len())),
{
    lemma_auto_spec_u32_to_from_le_bytes();
    lemma_holds_split(d, p, spec_u32_to_le_bytes(b.len() as u32), b);
    lemma_rd_u32_at(d, p, b.len() as u32);
}

proof fn lemma_rd_str_at(d: Seq<u8>, p: int, s: Seq<char>)
    requires
        str_fits(s),
        holds_at(d, p, enc_str(s)),
    ensures
        rd_str(d, p) == Some((s, p + enc_str(s).len())),
        enc_str(s).len() == 4 + encode_utf8(s).len(),
{
    lemma_auto_spec_u32_to_from_le_bytes();
    lemma_rd_blob_at(d, p, encode_utf8(s));
    encode_utf8_valid_utf8(s);
    encode_utf8_decode_utf8(s);
}

proof fn lemma_rd_strs_at(d: Seq<u8>, p: int, ns: Seq<Seq<char>>)
    requires
        forall|k: int| 0 <= k < ns.len() ==> str_fits(#[trigger] ns[k]),
        holds_at(d, p, enc_strs(ns)),
    ensures
        rd_strs(d, p, ns.len()) == Some((ns, p + enc_strs(ns).len())),
    decreases ns.len(),
{
    if ns.len() > 0 {
        let init = ns.drop_last();
        lemma_holds_split(d, p, enc_strs(init), enc_str(ns.last()));
        assert forall|k: int| 0 <= k < init.len() implies str_fits(#[trigger] init[k]) by {
            assert(init[k] == ns[k]);
        }
        lemma_rd_strs_at(d, p, init);
        assert(str_fits(ns[ns.len() - 1]));
        lemma_rd_str_at(d, p + enc_strs(init).len(), ns.last());
        assert(init.push(ns.last()) =~= ns);
    } else {
        assert(ns =~= Seq::<Seq<char>>::empty());
    }
}

/// An encoded instruction reads back as itself.
#[verifier::rlimit(80)]
proof fn lemma_decode_instr_at(d: Seq<u8>, p: int, i: InstrV)
    requires
        instr_encodable(i),
        holds_at(d, p, encode_instr(i)),
    ensures
        decode_instr(d, p) == Ok::<(InstrV, int), DecodeError>((i, p + encode_instr(i).len())),
{
    lemma_auto_spec_u16_to_from_le_bytes();
    lemma_auto_spec_u32_to_from_le_bytes();
    lemma_auto_spec_u64_to_from_le_bytes();
    let e = encode_instr(i);
    assert(d[p] == e[0]);
    let q = p + 1;
    match i {
        InstrV::LoadInt(n) => {
            lemma_holds_split(d, p, seq![0u8], spec_u64_to_le_bytes(n as u64));
            lemma_rd_u64_at(d, q, n as u64);
            assert((n as u64) as i64 == n) by (bit_vector);
        },
        InstrV::LoadFloat(b) => {
            lemma_holds_split(d, p, seq![66u8], spec_u64_to_le_bytes(b));
            lemma_rd_u64_at(d, q, b);
        },
        InstrV::LoadStr(s) => {
            lemma_holds_split(d, p, seq![1u8], enc_str(s));
            lemma_rd_str_at(d, q, s);
        },
        InstrV::GetField(s) => {
            lemma_holds_split(d, p, seq![55u8], enc_str(s));
            lemma_rd_str_at(d, q, s);
        },
        InstrV::SetField(s) => {
            lemma_holds_split(d, p, seq![56u8], enc_str(s));
            lemma_rd_str_at(d, q, s);
        },
        InstrV::LoadBool(b) => {
            assert(d[q] == e[1]);
        },
        InstrV::LoadConst(_) | InstrV::LoadVar(_) | InstrV::StoreVar(_) | InstrV::Bitwise(_) => {},
        InstrV::LoadSlot(x) => {
            lemma_holds_split(d, p, seq![4u8], spec_u16_to_le_bytes(x));
            lemma_rd_u16_at(d, q, x);
        },
        InstrV::StoreSlot(x) => {
            lemma_holds_split(d, p, seq![5u8], spec_u16_to_le_bytes(x));
            lemma_rd_u16_at(d, q, x);
        },
        InstrV::Jump(t) => {
            lemma_holds_split(d, p, seq![40u8], spec_u32_to_le_bytes(t as u32));
            lemma_rd_u32_at(d, q, t as u32);
        },
        InstrV::JumpIfFalse(t) => {
            lemma_holds_split(d, p, seq![41u8], spec_u32_to_le_bytes(t as u32));
            lemma_rd_u32_at(d, q, t as u32);
        },
        InstrV::NewList(n) => {
            lemma_holds_split(d, p, seq![63u8], spec_u32_to_le_bytes(n as u32));
            lemma_rd_u32_at(d, q, n as u32);
        },
        InstrV::NewMap(n) => {
            lemma_holds_split(d, p, seq![67u8], spec_u32_to_le_bytes(n as u32));
            lemma_rd_u32_at(d, q, n as u32);
        },
        InstrV::Call(s, n) => {
            lemma_holds_split(d, p, seq![52u8] + enc_str(s), spec_u32_to_le_bytes(n as u32));
            lemma_holds_split(d, p, seq![52u8], enc_str(s));
            lemma_rd_str_at(d, q, s);
            lemma_rd_u32_at(d, q + enc_str(s).len(), n as u32);
        },
        InstrV::MethodCall(s, n) => {
            lemma_holds_split(d, p, seq![57u8] + enc_str(s), spec_u32_to_le_bytes(n as u32));
            lemma_holds_split(d, p, seq![57u8], enc_str(s));
            lemma_rd_str_at(d, q, s);
            lemma_rd_u32_at(d, q + enc_str(s).len(), n as u32);
        },
        InstrV::TryCatch(a, b) => {
            lemma_holds_split(
                d,
                p,
                seq![70u8] + spec_u32_to_le_bytes(a as u32),
                spec_u32_to_le_bytes(b as u32),
            );
            lemma_holds_split(d, p, seq![70u8], spec_u32_to_le_bytes(a as u32));
            lemma_rd_u32_at(d, q, a as u32);
            lemma_rd_u32_at(d, q + 4, b as u32);
        },
        InstrV::LoadBytes(b) => {
            assert(seq![62u8] + spec_u32_to_le_bytes(b.len() as u32) + b =~= seq![62u8] + (
            spec_u32_to_le_bytes(b.len() as u32) + b));
            lemma_holds_split(d, p, seq![62u8], spec_u32_to_le_bytes(b.len() as u32) + b);
            lemma_rd_blob_at(d, q, b);
        },
        InstrV::Construct(s, f) => {
            let a = seq![54u8] + enc_str(s);
            let c = spec_u32_to_le_bytes(f.len() as u32);
            lemma_holds_split(d, p, a + c, enc_strs(f));
            lemma_holds_split(d, p, a, c);
            lemma_holds_split(d, p, seq![54u8], enc_str(s));
            lemma_rd_str_at(d, q, s);
            lemma_rd_u32_at(d, q + enc_str(s).len(), f.len() as u32);
            lemma_rd_strs_at(d, q + enc_str(s).len() + 4, f);
        },
        _ => {},
    }
}

proof fn lemma_encode_code_append(a: Seq<InstrV>, b: Seq<InstrV>)
    ensures
        encode_code(a + b) == encode_code(a) + encode_code(b),
    decreases b.len(),
{
    if b.len() == 0 {
        assert(a + b =~= a);
        assert(encode_code(a) + encode_code(b) =~= encode_code(a));
    } else {
        lemma_encode_code_append(a, b.drop_last());
        assert((a + b).drop_last() =~= a + b.drop_last());
        assert(encode_code(a) + encode_code(b) =~= encode_code(a) + encode_code(b.drop_last())
            + encode_instr(b.last()));
    }
}

#[verifier::rlimit(60)]
proof fn lemma_decode_code_prefix(c: Seq<InstrV>, k: nat)
    requires
        chunk_encodable(c),
        k <= c.len(),
    ensures
        decode_code(encode_chunk(c), 8, k) == Ok::<(Seq<InstrV>, int), DecodeError>(
            (c.take(k as int), 8 + encode_code(c.take(k as int)).len() as int),
        ),
    decreases k,
{
    let d = encode_chunk(c);
    lemma_auto_spec_u32_to_from_le_bytes();
    if k == 0 {
        assert(c.take(0) =~= Seq::<InstrV>::empty());
    } else {
        let j = (k - 1) as int;
        lemma_decode_code_prefix(c, (k - 1) as nat);
        let pre = c.take(j);
        let x = c[j];
        let rest = c.skip(k as int);
        assert(c =~= pre + seq![x] + rest);
        lemma_encode_code_append(pre + seq![x], rest);
        lemma_encode_code_append(pre, seq![x]);
        assert(seq![x].drop_last() =~= Seq::<InstrV>::empty());
        assert(encode_code(Seq::<InstrV>::empty()) =~= Seq::<u8>::empty());
        assert(seq![x].last() == x);
        assert(encode_code(seq![x]) =~= encode_instr(x));
        let h = magic() + spec_u32_to_le_bytes(c.len() as u32);
        assert(h.len() == 8);
        assert(d =~= (h + encode_code(pre)) + encode_instr(x) + encode_code(rest));
        lemma_holds_mid(h + encode_code(pre), encode_instr(x), encode_code(rest));
        let p: int = 8 + encode_code(pre).len() as int;
        assert(instr_encodable(c[j]));
        lemma_decode_instr_at(d, p, x);
        assert(c.take(k as int) =~= pre.push(x));
        assert(c.take(k as int).drop_last() =~= pre);
    }
}

/// Reading an instruction's bytes back, wherever they stand in the data, gives the
/// instruction and the position just after its bytes.
pub proof fn law_decode_encode_instruction(pre: Seq<u8>, i: InstrV, post: Seq<u8>)
    requires
        instr_encodable(i),
    ensures
        decode_instr(pre + encode_instr(i) + post, pre.len() as int) == Ok::<(InstrV, int), DecodeError>(
            (i, (pre.len() + encode_instr(i).len()) as int),
        ),
{
    lemma_holds_mid(pre, encode_instr(i), post);
    lemma_decode_instr_at(pre + encode_instr(i) + post, pre.len() as int, i);
}

/// Reading back a serialized chunk gives the same chunk, whenever every count, length and
/// jump target fits the format's 32-bit fields.
pub proof fn law_deserialize_serialize(c: Seq<InstrV>)
    requires
        chunk_encodable(c),
    ensures
        decode_chunk(encode_chunk(c)) == Ok::<Seq<InstrV>, DecodeError>(c),
{
    lemma_auto_spec_u32_to_from_le_bytes();
    let d = encode_chunk(c);
    let h = spec_u32_to_le_bytes(c.len() as u32);
    assert(d.subrange(0, 4) =~= magic());
    assert(d.subrange(4, 8) =~= h);
    lemma_decode_code_prefix(c, c.len());
    assert(c.take(c.len() as int) =~= c);
}

// ---------------------------------------------------------------------------
// Functions

/// A compiled function: its code and its parameter names.
#[derive(Debug, Clone, PartialEq)]
pub struct FunctionDef {
    pub chunk: Chunk,
    pub params: Vec<String>,
}

/// The mathematical value of a [`FunctionDef`].
pub struct FuncV {
    pub code: Seq<InstrV>,
    pub params: Seq<Seq<char>>,
}

impl View for FunctionDef {
    type V = FuncV;

    open spec fn view(&self) -> FuncV {
        FuncV { code: self.chunk@, params: names_view(self.params@) }
    }
}

/// The functions of a program, by name; a name is bound at most once.
#[derive(Debug, Clone)]
pub struct FunctionTable {
    funcs: Vec<(String, FunctionDef)>,
}

pub open spec fn entry_view(e: (String, FunctionDef)) -> (Seq<char>, FuncV) {
    (e.0@, e.1@)
}

/// Where `name` is bound in a table, or -1.
pub open spec fn index_of_name(t: Seq<(Seq<char>, FuncV)>, name: Seq<char>) -> int
    decreases t.len(),
{
    if t.len() == 0 {
        -1
    } else {
        let r = index_of_name(t.drop_last(), name);
        if r >= 0 {
            r
        } else if t.last().0 == name {
            t.len() - 1
        } else {
            -1
        }
    }
}

/// What a name is bound to.
pub open spec fn table_get(t: Seq<(Seq<char>, FuncV)>, name: Seq<char>) -> Option<FuncV> {
    let i = index_of_name(t, name);
    if i >= 0 {
        Some(t[i].1)
    } else {
        None
    }
}

/// A table with `name` bound to `f`, in place of any earlier binding.
pub open spec fn table_insert(t: Seq<(Seq<char>, FuncV)>, name: Seq<char>, f: FuncV) -> Seq<(Seq<char>, FuncV)> {
    let i = index_of_name(t, name);
    if i >= 0 {
        t.update(i, (name, f))
    } else {
        t.push((name, f))
    }
}

pub proof fn lemma_index_of_name(t: Seq<(Seq<char>, FuncV)>, name: Seq<char>)
    ensures
        -1 <= index_of_name(t, name) < t.len(),
        index_of_name(t, name) >= 0 ==> t[index_of_name(t, name)].0 == name,
        index_of_name(t, name) >= 0 ==> forall|k: int|
            0 <= k < index_of_name(t, name) ==> t[k].0 != name,
        index_of_name(t, name) == -1 ==> forall|k: int| 0 <= k < t.len() ==> t[k].0 != name,
    decreases t.len(),
{
    if t.len() > 0 {
        let init = t.drop_last();
        lemma_index_of_name(init, name);
        assert forall|k: int| 0 <= k < init.len() implies init[k] == t[k] by {}
    }
}

impl View for FunctionTable {
    type V = Seq<(Seq<char>, FuncV)>;

    closed spec fn view(&self) -> Seq<(Seq<char>, FuncV)> {
        self.funcs@.map_values(|e: (String, FunctionDef)| entry_view(e))
    }
}

impl FunctionTable {
    pub fn new() -> (t: FunctionTable)
        ensures
            t@ == Seq::<(Seq<char>, FuncV)>::empty(),
    {
        let t = FunctionTable { funcs: Vec::new() };
        assert(t@ =~= Seq::<(Seq<char>, FuncV)>::empty());
        t
    }

    fn find(&self, name: &str) -> (r: Option<usize>)
        ensures
            match r {
                Some(i) => i == index_of_name(self@, name@),
                None => index_of_name(self@, name@) == -1,
            },
    {
        proof {
            lemma_index_of_name(self@, name@);
        }
        let mut k: usize = 0;
        while k < self.funcs.len()
            invariant
                k <= self.funcs.len(),
                self@.len() == self.funcs@.len(),
                forall|j: int| 0 <= j < k ==> self@[j].0 != name@,
            decreases self.funcs.len() - k,
        {
            let same = crate::text::str_eq(self.funcs[k].0.as_str(), name);
            assert(self@[k as int] == entry_view(self.funcs@[k as int]));
            if same {
                assert(self@[k as int].0 == name@);
                proof {
                    lemma_index_of_name(self@, name@);
                }
                return Some(k);
            }
            k = k + 1;
        }
        None
    }

    /// Binds `name` to `func`, in place of any earlier binding.
    pub fn insert(&mut self, name: String, func: FunctionDef)
        ensures
            final(self)@ == table_insert(old(self)@, name@, func@),
    {
        proof {
            lemma_index_of_name(self@, name@);
        }
        match self.find(name.as_str()) {
            Some(i) => {
                self.funcs.set(i, (name, func));
            },
            None => {
                self.funcs.push((name, func));
            },
        }
        assert(self@ =~= table_insert(old(self)@, name@, func@));
    }

    /// The function bound to `name`.
    pub fn get(&self, name: &str) -> (r: Option<&FunctionDef>)
        ensures
            match table_get(self@, name@) {
                Some(f) => r matches Some(x) && x@ == f,
                None => r is None,
            },
    {
        proof {
            lemma_index_of_name(self@, name@);
        }
        match self.find(name) {
            Some(i) => {
                assert(self@.len() == self.funcs@.len());
                assert(self@[i as int] == entry_view(self.funcs@[i as int]));
                Some(&self.funcs[i].1)
            },
            None => None,
        }
    }
}

} // verus!
