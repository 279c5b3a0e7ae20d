//! The LixVM instruction set.
use vstd::prelude::*;
use crate::lixvm::operations::bitwise::BitOp;

verus! {

/// One bytecode instruction. A float constant is held as its IEEE-754 bit pattern.
#[derive(Debug, Clone, PartialEq)]
pub enum Instruction {
    // literals
    LoadInt(i64),
    LoadFloat(u64),
    LoadStr(String),
    LoadBool(bool),
    LoadNull,
    LoadConst(usize),
    // variables
    LoadVar(String),
    StoreVar(String),
    LoadSlot(u16),
    StoreSlot(u16),
    // arithmetic
    Add,
    Sub,
    Mul,
    Div,
    Mod,
    // comparison
    Eq,
    NotEq,
    Lt,
    Gt,
    LtEq,
    GtEq,
    // logic
    And,
    Or,
    Not,
    // bits
    Bitwise(BitOp),
    // control flow
    Jump(usize),
    JumpIfFalse(usize),
    // io
    Print,
    PrintLn,
    // functions
    Call(String, usize),
    Return,
    // objects
    Construct(String, Vec<String>),
    GetField(String),
    SetField(String),
    MethodCall(String, usize),
    Deinit,
    // error handling
    Throw,
    TryCatch(usize, usize),
    // collections
    LoadBytes(Vec<u8>),
    NewList(usize),
    NewMap(usize),
    IndexGet,
    IndexSet,
    Stringify,
    // misc
    Pop,
    Halt,
}

/// The mathematical value of an [`Instruction`].
pub enum InstrV {
    LoadInt(i64),
    LoadFloat(u64),
    LoadStr(Seq<char>),
    LoadBool(bool),
    LoadNull,
    LoadConst(usize),
    LoadVar(Seq<char>),
    StoreVar(Seq<char>),
    LoadSlot(u16),
    StoreSlot(u16),
    Add,
    Sub,
    Mul,
    Div,
    Mod,
    Eq,
    NotEq,
    Lt,
    Gt,
    LtEq,
    GtEq,
    And,
    Or,
    Not,
    Bitwise(BitOp),
    Jump(usize),
    JumpIfFalse(usize),
    Print,
    PrintLn,
    Call(Seq<char>, usize),
    Return,
    Construct(Seq<char>, Seq<Seq<char>>),
    GetField(Seq<char>),
    SetField(Seq<char>),
    MethodCall(Seq<char>, usize),
    Deinit,
    Throw,
    TryCatch(usize, usize),
    LoadBytes(Seq<u8>),
    NewList(usize),
    NewMap(usize),
    IndexGet,
    IndexSet,
    Stringify,
    Pop,
    Halt,
}

pub open spec fn names_view(s: Seq<String>) -> Seq<Seq<char>> {
    s.map_values(|x: String| x@)
}

impl View for Instruction {
    type V = InstrV;

    open spec fn view(&self) -> InstrV {
        match self {
            Instruction::LoadInt(n) => InstrV::LoadInt(*n),
            Instruction::LoadFloat(b) => InstrV::LoadFloat(*b),
            Instruction::LoadStr(s) => InstrV::LoadStr(s@),
            Instruction::LoadBool(b) => InstrV::LoadBool(*b),
            Instruction::LoadNull => InstrV::LoadNull,
            Instruction::LoadConst(i) => InstrV::LoadConst(*i),
            Instruction::LoadVar(s) => InstrV::LoadVar(s@),
            Instruction::StoreVar(s) => InstrV::StoreVar(s@),
            Instruction::LoadSlot(i) => InstrV::LoadSlot(*i),
            Instruction::StoreSlot(i) => InstrV::StoreSlot(*i),
            Instruction::Add => InstrV::Add,
            Instruction::Sub => InstrV::Sub,
            Instruction::Mul => InstrV::Mul,
            Instruction::Div => InstrV::Div,
            Instruction::Mod => InstrV::Mod,
            Instruction::Eq => InstrV::Eq,
            Instruction::NotEq => InstrV::NotEq,
            Instruction::Lt => InstrV::Lt,
            Instruction::Gt => InstrV::Gt,
            Instruction::LtEq => InstrV::LtEq,
            Instruction::GtEq => InstrV::GtEq,
            Instruction::And => InstrV::And,
            Instruction::Or => InstrV::Or,
            Instruction::Not => InstrV::Not,
            Instruction::Bitwise(op) => InstrV::Bitwise(*op),
            Instruction::Jump(t) => InstrV::Jump(*t),
            Instruction::JumpIfFalse(t) => InstrV::JumpIfFalse(*t),
            Instruction::Print => InstrV::Print,
            Instruction::PrintLn => InstrV::PrintLn,
            Instruction::Call(s, n) => InstrV::Call(s@, *n),
            Instruction::Return => InstrV::Return,
            Instruction::Construct(s, f) => InstrV::Construct(s@, names_view(f@)),
            Instruction::GetField(s) => InstrV::GetField(s@),
            Instruction::SetField(s) => InstrV::SetField(s@),
            Instruction::MethodCall(s, n) => InstrV::MethodCall(s@, *n),
            Instruction::Deinit => InstrV::Deinit,
            Instruction::Throw => InstrV::Throw,
            Instruction::TryCatch(a, b) => InstrV::TryCatch(*a, *b),
            Instruction::LoadBytes(b) => InstrV::LoadBytes(b@),
            Instruction::NewList(n) => InstrV::NewList(*n),
            Instruction::NewMap(n) => InstrV::NewMap(*n),
            Instruction::IndexGet => InstrV::IndexGet,
            Instruction::IndexSet => InstrV::IndexSet,
            Instruction::Stringify => InstrV::Stringify,
            Instruction::Pop => InstrV::Pop,
            Instruction::Halt => InstrV::Halt,
        }
    }
}

pub open spec fn code_view(s: Seq<Instruction>) -> Seq<InstrV> {
    s.map_values(|i: Instruction| i@)
}


/// A copy of a list of names.
pub fn copy_names(v: &Vec<String>) -> (r: Vec<String>)
    ensures
        names_view(r@) == names_view(v@),
{
    let mut r: Vec<String> = Vec::new();
    let mut k: usize = 0;
    while k < v.len()
        invariant
            k <= v.len(),
            r@.len() == k,
            forall|j: int| 0 <= j < k ==> #[trigger] r@[j]@ == v@[j]@,
        decreases v.len() - k,
    {
        r.push(v[k].clone());
        k = k + 1;
    }
    assert(names_view(r@) =~= names_view(v@));
    r
}

/// A copy of an instruction.
pub fn copy_instruction(i: &Instruction) -> (r: Instruction)
    ensures
        r@ == i@,
{
    match i {
        Instruction::LoadInt(n) => Instruction::LoadInt(*n),
        Instruction::LoadFloat(b) => Instruction::LoadFloat(*b),
        Instruction::LoadStr(s) => Instruction::LoadStr(s.clone()),
        Instruction::LoadBool(b) => Instruction::LoadBool(*b),
        Instruction::LoadNull => Instruction::LoadNull,
        Instruction::LoadConst(k) => Instruction::LoadConst(*k),
        Instruction::LoadVar(s) => Instruction::LoadVar(s.clone()),
        Instruction::StoreVar(s) => Instruction::StoreVar(s.clone()),
        Instruction::LoadSlot(k) => Instruction::LoadSlot(*k),
        Instruction::StoreSlot(k) => Instruction::StoreSlot(*k),
        Instruction::Add => Instruction::Add,
        Instruction::Sub => Instruction::Sub,
        Instruction::Mul => Instruction::Mul,
        Instruction::Div => Instruction::Div,
        Instruction::Mod => Instruction::Mod,
        Instruction::Eq => Instruction::Eq,
        Instruction::NotEq => Instruction::NotEq,
        Instruction::Lt => Instruction::Lt,
        Instruction::Gt => Instruction::Gt,
        Instruction::LtEq => Instruction::LtEq,
        Instruction::GtEq => Instruction::GtEq,
        Instruction::And => Instruction::And,
        Instruction::Or => Instruction::Or,
        Instruction::Not => Instruction::Not,
        Instruction::Bitwise(op) => Instruction::Bitwise(*op),
        Instruction::Jump(t) => Instruction::Jump(*t),
        Instruction::JumpIfFalse(t) => Instruction::JumpIfFalse(*t),
        Instruction::Print => Instruction::Print,
        Instruction::PrintLn => Instruction::PrintLn,
        Instruction::Call(s, n) => Instruction::Call(s.clone(), *n),
        Instruction::Return => Instruction::Return,
        Instruction::Construct(s, f) => Instruction::Construct(s.clone(), copy_names(f)),
        Instruction::GetField(s) => Instruction::GetField(s.clone()),
        Instruction::SetField(s) => Instruction::SetField(s.clone()),
        Instruction::MethodCall(s, n) => Instruction::MethodCall(s.clone(), *n),
        Instruction::Deinit => Instruction::Deinit,
        Instruction::Throw => Instruction::Throw,
        Instruction::TryCatch(a, b) => Instruction::TryCatch(*a, *b),
        Instruction::LoadBytes(b) => Instruction::LoadBytes(crate::text::copy_bytes(b)),
        Instruction::NewList(n) => Instruction::NewList(*n),
        Instruction::NewMap(n) => Instruction::NewMap(*n),
        Instruction::IndexGet => Instruction::IndexGet,
        Instruction::IndexSet => Instruction::IndexSet,
        Instruction::Stringify => Instruction::Stringify,
        Instruction::Pop => Instruction::Pop,
        Instruction::Halt => Instruction::Halt,
    }
}
} // verus!
