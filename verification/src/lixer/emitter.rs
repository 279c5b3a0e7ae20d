//! The bytecode compiler: statements to a chunk and a function table.
use vstd::prelude::*;
use crate::lixer::token::{FStrPart, FStrPartV, parts_view, LexError, lex_chars, spec_lex, lemma_lex_ends_with_eof};
use crate::lixer::ast::{
    Expression, ExprV, BinOp, expr_view, ElifBranch, exprs_view, named_view, entries_view, lemma_exprs_view,
    lemma_named_view, lemma_entries_view, Statement, StmtV, stmts_view, elifs_view,
    lemma_stmts_view, lemma_elifs_view, FunctionDef as MethodDef, methods_view, lemma_methods_view,
    strings_view,
};
use crate::lixer::parser::{Parser, ParseError, ParseErrorV, p_expr};
use crate::bytecode::instruction::{Instruction, InstrV, names_view};
use crate::lixvm::operations::bitwise::BitOp;
use crate::bytecode::chunk::{Chunk, FunctionDef, FunctionTable, FuncV, table_insert, index_of_name, lemma_index_of_name};
use crate::text::{copy_string, copy_bytes, string_to_chars, chars_to_string};

verus! {

/// Float literals and the IEEE-754 bits of the numbers they denote, found by their text.
#[derive(Debug, Clone)]
pub struct FloatTable {
    entries: Vec<(String, u64)>,
}

impl View for FloatTable {
    type V = Seq<(Seq<char>, u64)>;

    closed spec fn view(&self) -> Seq<(Seq<char>, u64)> {
        self.entries@.map_values(|e: (String, u64)| (e.0@, e.1))
    }
}

/// The bits bound to a literal text (the first binding).
pub open spec fn float_lookup(t: Seq<(Seq<char>, u64)>, text: Seq<char>) -> Option<u64>
    decreases t.len(),
{
    if t.len() == 0 {
        None
    } else if t[0].0 == text {
        Some(t[0].1)
    } else {
        float_lookup(t.drop_first(), text)
    }
}

impl FloatTable {
    pub fn new() -> (t: FloatTable)
        ensures
            t@ == Seq::<(Seq<char>, u64)>::empty(),
    {
        let t = FloatTable { entries: Vec::new() };
        assert(t@ =~= Seq::<(Seq<char>, u64)>::empty());
        t
    }

    /// Adds a binding after the existing ones.
    pub fn insert(&mut self, text: String, bits: u64)
        ensures
            final(self)@ == old(self)@.push((text@, bits)),
    {
        self.entries.push((text, bits));
        assert(self@ =~= old(self)@.push((text@, bits)));
    }

    pub fn lookup(&self, text: &str) -> (r: Option<u64>)
        ensures
            r == float_lookup(self@, text@),
    {
        let mut k: usize = 0;
        assert(self@.skip(0) =~= self@);
        while k < self.entries.len()
            invariant
                k <= self.entries.len(),
                self@.len() == self.entries@.len(),
                float_lookup(self@, text@) == float_lookup(self@.skip(k as int), text@),
            decreases self.entries.len() - k,
        {
            assert(self@.skip(k as int)[0] == self@[k as int]);
            assert(self@.skip(k as int).drop_first() =~= self@.skip(k + 1));
            if crate::text::str_eq(self.entries[k].0.as_str(), text) {
                return Some(self.entries[k].1);
            }
            k = k + 1;
        }
        None
    }
}

/// Why a program does not compile.
#[derive(Debug, Clone, PartialEq)]
pub enum CompileError {
    BreakOutsideLoop,
    ContinueOutsideLoop,
    /// A call of something that is not a bare name.
    CallNonIdentifier,
    /// A float literal that the float table does not hold.
    UnresolvedFloat(String),
    /// An f-string expression that does not lex.
    FStringLex(LexError),
    /// An f-string expression that does not parse.
    FStringParse(ParseError),
    /// An f-string expression too long to index.
    FStringTooLong,
    /// F-strings nested deeper than the compiler follows.
    FStringTooDeep,
}

pub enum CompileErrorV {
    BreakOutsideLoop,
    ContinueOutsideLoop,
    CallNonIdentifier,
    UnresolvedFloat(Seq<char>),
    FStringLex(LexError),
    FStringParse(ParseErrorV),
    FStringTooLong,
    FStringTooDeep,
}

impl View for CompileError {
    type V = CompileErrorV;

    open spec fn view(&self) -> CompileErrorV {
        match self {
            CompileError::BreakOutsideLoop => CompileErrorV::BreakOutsideLoop,
            CompileError::ContinueOutsideLoop => CompileErrorV::ContinueOutsideLoop,
            CompileError::CallNonIdentifier => CompileErrorV::CallNonIdentifier,
            CompileError::UnresolvedFloat(s) => CompileErrorV::UnresolvedFloat(s@),
            CompileError::FStringLex(e) => CompileErrorV::FStringLex(*e),
            CompileError::FStringParse(e) => CompileErrorV::FStringParse(e@),
            CompileError::FStringTooLong => CompileErrorV::FStringTooLong,
            CompileError::FStringTooDeep => CompileErrorV::FStringTooDeep,
        }
    }
}

pub type CodeRes = Result<Seq<InstrV>, CompileErrorV>;

/// `c` followed by the code of `r`, or the error of `r`.
pub open spec fn then_code(c: Seq<InstrV>, r: CodeRes) -> CodeRes {
    match r {
        Ok(d) => Ok(c + d),
        Err(e) => Err(e),
    }
}

/// The instruction of a binary operator; a range emits nothing.
pub open spec fn bin_code(op: BinOp) -> Seq<InstrV> {
    match op {
        BinOp::Add => seq![InstrV::Add],
        BinOp::Sub => seq![InstrV::Sub],
        BinOp::Mul => seq![InstrV::Mul],
        BinOp::Div => seq![InstrV::Div],
        BinOp::Mod => seq![InstrV::Mod],
        BinOp::Eq => seq![InstrV::Eq],
        BinOp::NotEq => seq![InstrV::NotEq],
        BinOp::Lt => seq![InstrV::Lt],
        BinOp::Gt => seq![InstrV::Gt],
        BinOp::LtEq => seq![InstrV::LtEq],
        BinOp::GtEq => seq![InstrV::GtEq],
        BinOp::And => seq![InstrV::And],
        BinOp::Or => seq![InstrV::Or],
        BinOp::Range => Seq::empty(),
        BinOp::Bit(b) => seq![InstrV::Bitwise(b)],
    }
}

/// The code of an expression: operands first, operator last.
pub open spec fn expr_code(e: ExprV, fl: Seq<(Seq<char>, u64)>, depth: nat) -> CodeRes
    decreases 4 * depth + 3, e,
{
    match e {
        ExprV::Int(n) => Ok(seq![InstrV::LoadInt(n)]),
        ExprV::Float(t) => match float_lookup(fl, t) {
            Some(b) => Ok(seq![InstrV::LoadFloat(b)]),
            None => Err(CompileErrorV::UnresolvedFloat(t)),
        },
        ExprV::Null => Ok(seq![InstrV::LoadNull]),
        ExprV::Str(s) => Ok(seq![InstrV::LoadStr(s)]),
        ExprV::Bool(b) => Ok(seq![InstrV::LoadBool(b)]),
        ExprV::Bytes(b) => Ok(seq![InstrV::LoadBytes(b)]),
        ExprV::Ident(n) => Ok(seq![InstrV::LoadVar(n)]),
        ExprV::Binary(op, l, r) => if op == BinOp::Range {
            Ok(Seq::empty())
        } else {
            match expr_code(*l, fl, depth) {
                Ok(a) => match expr_code(*r, fl, depth) {
                    Ok(b) => Ok(a + b + bin_code(op)),
                    Err(x) => Err(x),
                },
                Err(x) => Err(x),
            }
        },
        ExprV::Not(x) => match expr_code(*x, fl, depth) {
            Ok(a) => Ok(a.push(InstrV::Not)),
            Err(x) => Err(x),
        },
        ExprV::Call { callee, args } => match exprs_code(args, fl, depth) {
            Ok(a) => match *callee {
                ExprV::Ident(n) => Ok(a.push(InstrV::Call(n, args.len() as usize))),
                _ => Err(CompileErrorV::CallNonIdentifier),
            },
            Err(x) => Err(x),
        },
        ExprV::FieldAccess { object, field } => match expr_code(*object, fl, depth) {
            Ok(a) => Ok(a.push(InstrV::GetField(field))),
            Err(x) => Err(x),
        },
        ExprV::MethodCall { object, method, args } => match expr_code(*object, fl, depth) {
            Ok(a) => match exprs_code(args, fl, depth) {
                Ok(b) => Ok((a + b).push(InstrV::MethodCall(method, args.len() as usize))),
                Err(x) => Err(x),
            },
            Err(x) => Err(x),
        },
        ExprV::Construct { type_ident, fields } => match named_code(fields, fl, depth) {
            Ok(a) => Ok(
                a.push(
                    InstrV::Construct(type_ident, fields.map_values(|f: (Seq<char>, ExprV)| f.0)),
                ),
            ),
            Err(x) => Err(x),
        },
        ExprV::List(items) => match exprs_code(items, fl, depth) {
            Ok(a) => Ok(a.push(InstrV::NewList(items.len() as usize))),
            Err(x) => Err(x),
        },
        ExprV::Mapping(entries) => match entries_code(entries, fl, depth) {
            Ok(a) => Ok(a.push(InstrV::NewMap(entries.len() as usize))),
            Err(x) => Err(x),
        },
        ExprV::Index { object, index } => match expr_code(*object, fl, depth) {
            Ok(a) => match expr_code(*index, fl, depth) {
                Ok(b) => Ok((a + b).push(InstrV::IndexGet)),
                Err(x) => Err(x),
            },
            Err(x) => Err(x),
        },
        ExprV::IndexSet { object, index, value } => match expr_code(*object, fl, depth) {
            Ok(a) => match expr_code(*index, fl, depth) {
                Ok(b) => match expr_code(*value, fl, depth) {
                    Ok(c) => Ok((a + b + c).push(InstrV::IndexSet)),
                    Err(x) => Err(x),
                },
                Err(x) => Err(x),
            },
            Err(x) => Err(x),
        },
        ExprV::FString(parts) => if parts.len() == 0 {
            Ok(seq![InstrV::LoadStr(Seq::empty())])
        } else {
            fparts_code(parts, true, fl, depth)
        },
    }
}

/// The code of a list of expressions, left to right.
pub open spec fn exprs_code(es: Seq<ExprV>, fl: Seq<(Seq<char>, u64)>, depth: nat) -> CodeRes
    decreases 4 * depth + 3, es,
{
    if es.len() == 0 {
        Ok(Seq::empty())
    } else {
        match expr_code(es[0], fl, depth) {
            Ok(a) => then_code(a, exprs_code(es.drop_first(), fl, depth)),
            Err(x) => Err(x),
        }
    }
}

/// The code of the values of named arguments, left to right.
pub open spec fn named_code(fs: Seq<(Seq<char>, ExprV)>, fl: Seq<(Seq<char>, u64)>, depth: nat) -> CodeRes
    decreases 4 * depth + 3, fs,
{
    if fs.len() == 0 {
        Ok(Seq::empty())
    } else {
        match expr_code(fs[0].1, fl, depth) {
            Ok(a) => then_code(a, named_code(fs.drop_first(), fl, depth)),
            Err(x) => Err(x),
        }
    }
}

/// The code of map entries: each key, then its value.
pub open spec fn entries_code(es: Seq<(ExprV, ExprV)>, fl: Seq<(Seq<char>, u64)>, depth: nat) -> CodeRes
    decreases 4 * depth + 3, es,
{
    if es.len() == 0 {
        Ok(Seq::empty())
    } else {
        match expr_code(es[0].0, fl, depth) {
            Ok(a) => match expr_code(es[0].1, fl, depth) {
                Ok(b) => then_code(a + b, entries_code(es.drop_first(), fl, depth)),
                Err(x) => Err(x),
            },
            Err(x) => Err(x),
        }
    }
}

/// The code of one f-string part: it pushes a string, and all but the first part add it
/// on. The expression written inside an f-string is lexed, parsed, then compiled one
/// nesting level down.
pub open spec fn fpart_code(p: FStrPartV, first: bool, fl: Seq<(Seq<char>, u64)>, depth: nat) -> CodeRes
    decreases 4 * depth + 1, p,
{
    let piece = match p {
        FStrPartV::Literal(s) => Ok(seq![InstrV::LoadStr(s)]),
        FStrPartV::Expr(t) => if depth == 0 {
            Err(CompileErrorV::FStringTooDeep)
        } else if t.len() + 3 > usize::MAX {
            Err(CompileErrorV::FStringTooLong)
        } else {
            match spec_lex(t) {
                Ok(ts) => match p_expr(ts, 0) {
                    Ok((e, _)) => match expr_code(e, fl, (depth - 1) as nat) {
                        Ok(a) => Ok(a.push(InstrV::Stringify)),
                        Err(x) => Err(x),
                    },
                    Err(pe) => Err(CompileErrorV::FStringParse(pe)),
                },
                Err(le) => Err(CompileErrorV::FStringLex(le)),
            }
        },
    };
    match piece {
        Ok(a) => if first {
            Ok(a)
        } else {
            Ok(a.push(InstrV::Add))
        },
        Err(x) => Err(x),
    }
}

/// The code of the parts of an f-string, left to right.
pub open spec fn fparts_code(ps: Seq<FStrPartV>, first: bool, fl: Seq<(Seq<char>, u64)>, depth: nat) -> CodeRes
    decreases 4 * depth + 2, ps,
{
    if ps.len() == 0 {
        Ok(Seq::empty())
    } else {
        match fpart_code(ps[0], first, fl, depth) {
            Ok(a) => then_code(a, fparts_code(ps.drop_first(), false, fl, depth)),
            Err(x) => Err(x),
        }
    }
}

pub open spec fn code_agrees(r: Result<(), CompileError>, before: Seq<InstrV>, after: Seq<InstrV>, s: CodeRes) -> bool {
    match s {
        Ok(c) => r is Ok && after =~= before + c,
        Err(e) => r matches Err(x) && x@ == e,
    }
}

/// Emits the code of an expression.
#[verifier::rlimit(100)]
pub fn compile_expression(expr: &Expression, chunk: &mut Chunk, floats: &FloatTable, depth: usize) -> (r: Result<(), CompileError>)
    ensures
        code_agrees(r, old(chunk)@, final(chunk)@, expr_code(expr@, floats@, depth as nat)),
    decreases 4 * depth + 3, expr,
{
    let ghost start = chunk@;
    match expr {
        Expression::Int(n) => {
            chunk.push(Instruction::LoadInt(*n));
            Ok(())
        },
        Expression::Float(t) => match floats.lookup(t.as_str()) {
            Some(b) => {
                chunk.push(Instruction::LoadFloat(b));
                Ok(())
            },
            None => Err(CompileError::UnresolvedFloat(copy_string(t))),
        },
        Expression::Null => {
            chunk.push(Instruction::LoadNull);
            Ok(())
        },
        Expression::Str(s) => {
            chunk.push(Instruction::LoadStr(copy_string(s)));
            Ok(())
        },
        Expression::Bool(b) => {
            chunk.push(Instruction::LoadBool(*b));
            Ok(())
        },
        Expression::Bytes(b) => {
            chunk.push(Instruction::LoadBytes(copy_bytes(b)));
            Ok(())
        },
        Expression::Ident(n) => {
            chunk.push(Instruction::LoadVar(copy_string(n)));
            Ok(())
        },
        Expression::Add(l, r) => {
            compile_expression(l, chunk, floats, depth)?;
            compile_expression(r, chunk, floats, depth)?;
            chunk.push(Instruction::Add);
            Ok(())
        },
        Expression::Sub(l, r) => {
            compile_expression(l, chunk, floats, depth)?;
            compile_expression(r, chunk, floats, depth)?;
            chunk.push(Instruction::Sub);
            Ok(())
        },
        Expression::Mul(l, r) => {
            compile_expression(l, chunk, floats, depth)?;
            compile_expression(r, chunk, floats, depth)?;
            chunk.push(Instruction::Mul);
            Ok(())
        },
        Expression::Div(l, r) => {
            compile_expression(l, chunk, floats, depth)?;
            compile_expression(r, chunk, floats, depth)?;
            chunk.push(Instruction::Div);
            Ok(())
        },
        Expression::Mod(l, r) => {
            compile_expression(l, chunk, floats, depth)?;
            compile_expression(r, chunk, floats, depth)?;
            chunk.push(Instruction::Mod);
            Ok(())
        },
        Expression::Eq(l, r) => {
            compile_expression(l, chunk, floats, depth)?;
            compile_expression(r, chunk, floats, depth)?;
            chunk.push(Instruction::Eq);
            Ok(())
        },
        Expression::NotEq(l, r) => {
            compile_expression(l, chunk, floats, depth)?;
            compile_expression(r, chunk, floats, depth)?;
            chunk.push(Instruction::NotEq);
            Ok(())
        },
        Expression::Lt(l, r) => {
            compile_expression(l, chunk, floats, depth)?;
            compile_expression(r, chunk, floats, depth)?;
            chunk.push(Instruction::Lt);
            Ok(())
        },
        Expression::Gt(l, r) => {
            compile_expression(l, chunk, floats, depth)?;
            compile_expression(r, chunk, floats, depth)?;
            chunk.push(Instruction::Gt);
            Ok(())
        },
        Expression::LtEq(l, r) => {
            compile_expression(l, chunk, floats, depth)?;
            compile_expression(r, chunk, floats, depth)?;
            chunk.push(Instruction::LtEq);
            Ok(())
        },
        Expression::GtEq(l, r) => {
            compile_expression(l, chunk, floats, depth)?;
            compile_expression(r, chunk, floats, depth)?;
            chunk.push(Instruction::GtEq);
            Ok(())
        },
        Expression::And(l, r) => {
            compile_expression(l, chunk, floats, depth)?;
            compile_expression(r, chunk, floats, depth)?;
            chunk.push(Instruction::And);
            Ok(())
        },
        Expression::Or(l, r) => {
            compile_expression(l, chunk, floats, depth)?;
            compile_expression(r, chunk, floats, depth)?;
            chunk.push(Instruction::Or);
            Ok(())
        },
        Expression::BitAnd(l, r) => {
            compile_expression(l, chunk, floats, depth)?;
            compile_expression(r, chunk, floats, depth)?;
            chunk.push(Instruction::Bitwise(BitOp::And));
            Ok(())
        },
        Expression::BitOr(l, r) => {
            compile_expression(l, chunk, floats, depth)?;
            compile_expression(r, chunk, floats, depth)?;
            chunk.push(Instruction::Bitwise(BitOp::Or));
            Ok(())
        },
        Expression::BitXor(l, r) => {
            compile_expression(l, chunk, floats, depth)?;
            compile_expression(r, chunk, floats, depth)?;
            chunk.push(Instruction::Bitwise(BitOp::Xor));
            Ok(())
        },
        Expression::Shl(l, r) => {
            compile_expression(l, chunk, floats, depth)?;
            compile_expression(r, chunk, floats, depth)?;
            chunk.push(Instruction::Bitwise(BitOp::Shl));
            Ok(())
        },
        Expression::Shr(l, r) => {
            compile_expression(l, chunk, floats, depth)?;
            compile_expression(r, chunk, floats, depth)?;
            chunk.push(Instruction::Bitwise(BitOp::Shr));
            Ok(())
        },
        Expression::Range(_, _) => {
            assert(chunk@ =~= start + Seq::<InstrV>::empty());
            Ok(())
        },
        Expression::Not(e) => {
            compile_expression(e, chunk, floats, depth)?;
            chunk.push(Instruction::Not);
            Ok(())
        },
        Expression::Call { callee, args } => {
            proof {
                lemma_exprs_view(args@);
            }
            compile_list(args, chunk, floats, depth)?;
            match &**callee {
                Expression::Ident(name) => {
                    assert(expr_view(**callee) == ExprV::Ident(name@));
                    chunk.push(Instruction::Call(copy_string(name), args.len()));
                    Ok(())
                },
                _ => {
                    assert(!(expr_view(**callee) is Ident));
                    Err(CompileError::CallNonIdentifier)
                },
            }
        },
        Expression::FieldAccess { object, field } => {
            compile_expression(object, chunk, floats, depth)?;
            chunk.push(Instruction::GetField(copy_string(field)));
            Ok(())
        },
        Expression::MethodCall { object, method, args } => {
            proof {
                lemma_exprs_view(args@);
            }
            compile_expression(object, chunk, floats, depth)?;
            compile_list(args, chunk, floats, depth)?;
            chunk.push(Instruction::MethodCall(copy_string(method), args.len()));
            Ok(())
        },
        Expression::Construct { type_ident, fields } => {
            compile_named(fields, chunk, floats, depth)?;
            let names = field_names(fields);
            chunk.push(Instruction::Construct(copy_string(type_ident), names));
            Ok(())
        },
        Expression::List(items) => {
            proof {
                lemma_exprs_view(items@);
            }
            compile_list(items, chunk, floats, depth)?;
            chunk.push(Instruction::NewList(items.len()));
            Ok(())
        },
        Expression::Mapping(entries) => {
            proof {
                lemma_entries_view(entries@);
            }
            compile_entries(entries, chunk, floats, depth)?;
            chunk.push(Instruction::NewMap(entries.len()));
            Ok(())
        },
        Expression::Index { object, index } => {
            compile_expression(object, chunk, floats, depth)?;
            compile_expression(index, chunk, floats, depth)?;
            chunk.push(Instruction::IndexGet);
            Ok(())
        },
        Expression::IndexSet { object, index, value } => {
            compile_expression(object, chunk, floats, depth)?;
            compile_expression(index, chunk, floats, depth)?;
            compile_expression(value, chunk, floats, depth)?;
            chunk.push(Instruction::IndexSet);
            Ok(())
        },
        Expression::FString(parts) => {
            if parts.len() == 0 {
                let empty: Vec<char> = Vec::new();
                let s = chars_to_string(empty.as_slice());
                assert(s@ =~= Seq::<char>::empty());
                chunk.push(Instruction::LoadStr(s));
                Ok(())
            } else {
                compile_fparts(parts, chunk, floats, depth)
            }
        },
    }
}

pub proof fn lemma_then_code_assoc(c: Seq<InstrV>, a: Seq<InstrV>, r: CodeRes)
    ensures
        then_code(c + a, r) == then_code(c, then_code(a, r)),
{
    match r {
        Ok(d) => {
            assert(c + a + d =~= c + (a + d));
        },
        Err(_) => {},
    }
}

fn compile_list(items: &Vec<Expression>, chunk: &mut Chunk, floats: &FloatTable, depth: usize) -> (r: Result<(), CompileError>)
    ensures
        code_agrees(r, old(chunk)@, final(chunk)@, exprs_code(exprs_view(items@), floats@, depth as nat)),
    decreases 4 * depth + 3, items,
{
    let ghost ev = exprs_view(items@);
    let ghost start = chunk@;
    proof {
        lemma_exprs_view(items@);
        assert(ev.skip(0) =~= ev);
        assert(start + Seq::<InstrV>::empty() =~= start);
    }
    let mut k: usize = 0;
    while k < items.len()
        invariant
            k <= items.len(),
            ev == exprs_view(items@),
            ev.len() == items@.len(),
            forall|j: int| 0 <= j < items@.len() ==> #[trigger] ev[j] == items@[j]@,
            then_code(start, exprs_code(ev, floats@, depth as nat)) == then_code(
                chunk@,
                exprs_code(ev.skip(k as int), floats@, depth as nat),
            ),
            start == old(chunk)@,
        decreases items.len() - k,
    {
        let ghost before = chunk@;
        assert(ev.skip(k as int)[0] == ev[k as int]);
        assert(ev.skip(k as int).drop_first() =~= ev.skip(k + 1));
        let ghost rest = exprs_code(ev.skip(k + 1), floats@, depth as nat);
        assert(exprs_code(ev.skip(k as int), floats@, depth as nat) == match expr_code(ev[k as int], floats@, depth as nat) {
            Ok(a) => then_code(a, rest),
            Err(x) => Err(x),
        });
        compile_expression(&items[k], chunk, floats, depth)?;
        proof {
            match expr_code(ev[k as int], floats@, depth as nat) {
                Ok(c) => {
                    assert(chunk@ == before + c);
                    lemma_then_code_assoc(before, c, rest);
                },
                Err(_) => {
                    assert(false);
                },
            }
        }
        k = k + 1;
    }
    proof {
        assert(ev.skip(k as int) =~= Seq::<ExprV>::empty());
        assert(chunk@ + Seq::<InstrV>::empty() =~= chunk@);
        match exprs_code(ev, floats@, depth as nat) {
            Ok(c) => {},
            Err(_) => {},
        }
    }
    Ok(())
}


fn compile_named(fields: &Vec<(String, Expression)>, chunk: &mut Chunk, floats: &FloatTable, depth: usize) -> (r: Result<(), CompileError>)
    ensures
        code_agrees(r, old(chunk)@, final(chunk)@, named_code(named_view(fields@), floats@, depth as nat)),
    decreases 4 * depth + 3, fields,
{
    let ghost ev = named_view(fields@);
    let ghost start = chunk@;
    proof {
        lemma_named_view(fields@);
        assert(ev.skip(0) =~= ev);
        assert(start + Seq::<InstrV>::empty() =~= start);
    }
    let mut k: usize = 0;
    while k < fields.len()
        invariant
            k <= fields.len(),
            ev == named_view(fields@),
            ev.len() == fields@.len(),
            forall|j: int| 0 <= j < fields@.len() ==> #[trigger] ev[j] == (fields@[j].0@, fields@[j].1@),
            then_code(start, named_code(ev, floats@, depth as nat)) == then_code(
                chunk@,
                named_code(ev.skip(k as int), floats@, depth as nat),
            ),
            start == old(chunk)@,
        decreases fields.len() - k,
    {
        let ghost before = chunk@;
        assert(ev.skip(k as int)[0] == ev[k as int]);
        assert(ev.skip(k as int).drop_first() =~= ev.skip(k + 1));
        let ghost rest = named_code(ev.skip(k + 1), floats@, depth as nat);
        assert(named_code(ev.skip(k as int), floats@, depth as nat) == match expr_code(ev[k as int].1, floats@, depth as nat) {
            Ok(a) => then_code(a, rest),
            Err(x) => Err(x),
        });
        compile_expression(&fields[k].1, chunk, floats, depth)?;
        proof {
            match expr_code(ev[k as int].1, floats@, depth as nat) {
                Ok(c) => {
                    assert(chunk@ == before + c);
                    lemma_then_code_assoc(before, c, rest);
                },
                Err(_) => {
                    assert(false);
                },
            }
        }
        k = k + 1;
    }
    proof {
        assert(ev.skip(k as int) =~= Seq::<(Seq<char>, ExprV)>::empty());
        assert(chunk@ + Seq::<InstrV>::empty() =~= chunk@);
    }
    Ok(())
}

/// The field names of a constructor, in order.
fn field_names(fields: &Vec<(String, Expression)>) -> (names: Vec<String>)
    ensures
        names_view(names@) == named_view(fields@).map_values(|f: (Seq<char>, ExprV)| f.0),
{
    proof {
        lemma_named_view(fields@);
    }
    let mut names: Vec<String> = Vec::new();
    let mut k: usize = 0;
    while k < fields.len()
        invariant
            k <= fields.len(),
            named_view(fields@).len() == fields@.len(),
            forall|j: int| 0 <= j < fields@.len() ==> #[trigger] named_view(fields@)[j] == (fields@[j].0@, fields@[j].1@),
            names@.len() == k,
            names_view(names@) == named_view(fields@).take(k as int).map_values(|f: (Seq<char>, ExprV)| f.0),
        decreases fields.len() - k,
    {
        let ghost old_names = names@;
        names.push(copy_string(&fields[k].0));
        proof {
            assert forall|j: int| 0 <= j < k + 1 implies names_view(names@)[j]
                == named_view(fields@).take(k + 1).map_values(|f: (Seq<char>, ExprV)| f.0)[j] by {
                if j < k {
                    assert(names@[j] == old_names[j]);
                    assert(names_view(old_names)[j] == names@[j]@);
                }
                assert(named_view(fields@)[j] == (fields@[j].0@, fields@[j].1@));
            }
            assert(names_view(names@) =~= named_view(fields@).take(k + 1).map_values(|f: (Seq<char>, ExprV)| f.0));
        }
        k = k + 1;
    }
    assert(named_view(fields@).take(k as int) =~= named_view(fields@));
    names
}

fn compile_entries(entries: &Vec<(Expression, Expression)>, chunk: &mut Chunk, floats: &FloatTable, depth: usize) -> (r: Result<(), CompileError>)
    ensures
        code_agrees(r, old(chunk)@, final(chunk)@, entries_code(entries_view(entries@), floats@, depth as nat)),
    decreases 4 * depth + 3, entries,
{
    let ghost ev = entries_view(entries@);
    let ghost start = chunk@;
    proof {
        lemma_entries_view(entries@);
        assert(ev.skip(0) =~= ev);
        assert(start + Seq::<InstrV>::empty() =~= start);
    }
    let mut k: usize = 0;
    while k < entries.len()
        invariant
            k <= entries.len(),
            ev == entries_view(entries@),
            ev.len() == entries@.len(),
            forall|j: int| 0 <= j < entries@.len() ==> #[trigger] ev[j] == (entries@[j].0@, entries@[j].1@),
            then_code(start, entries_code(ev, floats@, depth as nat)) == then_code(
                chunk@,
                entries_code(ev.skip(k as int), floats@, depth as nat),
            ),
            start == old(chunk)@,
        decreases entries.len() - k,
    {
        let ghost before = chunk@;
        assert(ev.skip(k as int)[0] == ev[k as int]);
        assert(ev.skip(k as int).drop_first() =~= ev.skip(k + 1));
        let ghost rest = entries_code(ev.skip(k + 1), floats@, depth as nat);
        let ghost ka = expr_code(ev[k as int].0, floats@, depth as nat);
        let ghost va = expr_code(ev[k as int].1, floats@, depth as nat);
        assert(entries_code(ev.skip(k as int), floats@, depth as nat) == match ka {
            Ok(a) => match va {
                Ok(b) => then_code(a + b, rest),
                Err(x) => Err(x),
            },
            Err(x) => Err(x),
        });
        compile_expression(&entries[k].0, chunk, floats, depth)?;
        let ghost mid = chunk@;
        compile_expression(&entries[k].1, chunk, floats, depth)?;
        proof {
            match (ka, va) {
                (Ok(a), Ok(b)) => {
                    assert(chunk@ =~= before + (a + b));
                    lemma_then_code_assoc(before, a + b, rest);
                },
                _ => {
                    assert(false);
                },
            }
        }
        k = k + 1;
    }
    proof {
        assert(ev.skip(k as int) =~= Seq::<(ExprV, ExprV)>::empty());
        assert(chunk@ + Seq::<InstrV>::empty() =~= chunk@);
    }
    Ok(())
}

/// Emits the code of one f-string part.
fn compile_fpart(part: &FStrPart, first: bool, chunk: &mut Chunk, floats: &FloatTable, depth: usize) -> (r: Result<(), CompileError>)
    ensures
        code_agrees(r, old(chunk)@, final(chunk)@, fpart_code(part@, first, floats@, depth as nat)),
    decreases 4 * depth + 1, part,
{
    match part {
        FStrPart::Literal(s) => {
            chunk.push(Instruction::LoadStr(copy_string(s)));
        },
        FStrPart::Expr(t) => {
            if depth == 0 {
                return Err(CompileError::FStringTooDeep);
            }
            let chars = string_to_chars(t.as_str());
            if chars.len() > usize::MAX - 3 {
                return Err(CompileError::FStringTooLong);
            }
            let tokens = match lex_chars(&chars) {
                Ok(ts) => ts,
                Err(e) => {
                    return Err(CompileError::FStringLex(e));
                },
            };
            proof {
                lemma_lex_ends_with_eof(chars@, 0);
            }
            let mut p = Parser::new(tokens.as_slice());
            let e = match p.parse_expression() {
                Ok(e) => e,
                Err(pe) => {
                    return Err(CompileError::FStringParse(pe));
                },
            };
            compile_expression(&e, chunk, floats, depth - 1)?;
            chunk.push(Instruction::Stringify);
        },
    }
    if !first {
        chunk.push(Instruction::Add);
    }
    Ok(())
}

/// Emits the code of the parts of a non-empty f-string.
fn compile_fparts(parts: &Vec<FStrPart>, chunk: &mut Chunk, floats: &FloatTable, depth: usize) -> (r: Result<(), CompileError>)
    ensures
        code_agrees(r, old(chunk)@, final(chunk)@, fparts_code(parts_view(parts@), true, floats@, depth as nat)),
    decreases 4 * depth + 2, parts,
{
    let ghost pv = parts_view(parts@);
    let ghost start = chunk@;
    proof {
        assert(pv.skip(0) =~= pv);
        assert(start + Seq::<InstrV>::empty() =~= start);
    }
    let mut k: usize = 0;
    while k < parts.len()
        invariant
            k <= parts.len(),
            pv == parts_view(parts@),
            pv.len() == parts@.len(),
            then_code(start, fparts_code(pv, true, floats@, depth as nat)) == then_code(
                chunk@,
                fparts_code(pv.skip(k as int), k == 0, floats@, depth as nat),
            ),
            start == old(chunk)@,
        decreases parts.len() - k,
    {
        let ghost before = chunk@;
        assert(pv.skip(k as int)[0] == pv[k as int]);
        assert(pv[k as int] == parts@[k as int]@);
        assert(pv.skip(k as int).drop_first() =~= pv.skip(k + 1));
        let ghost rest = fparts_code(pv.skip(k + 1), false, floats@, depth as nat);
        let ghost piece = fpart_code(pv[k as int], k == 0, floats@, depth as nat);
        assert(fparts_code(pv.skip(k as int), k == 0, floats@, depth as nat) == match piece {
            Ok(a) => then_code(a, rest),
            Err(x) => Err(x),
        });
        compile_fpart(&parts[k], k == 0, chunk, floats, depth)?;
        proof {
            match piece {
                Ok(c) => {
                    assert(chunk@ == before + c);
                    lemma_then_code_assoc(before, c, rest);
                },
                Err(_) => {
                    assert(false);
                },
            }
        }
        k = k + 1;
    }
    proof {
        assert(pv.skip(k as int) =~= Seq::<FStrPartV>::empty());
        assert(chunk@ + Seq::<InstrV>::empty() =~= chunk@);
    }
    Ok(())
}


// ---------------------------------------------------------------------------
// Statements

/// The target a `break` jumps to until its loop is closed.
pub const BREAK_SENTINEL: usize = usize::MAX;

/// The target a `continue` jumps to until its loop is closed.
pub const CONTINUE_SENTINEL: usize = usize::MAX - 1;

/// The function table, by value.
pub type TableV = Seq<(Seq<char>, FuncV)>;

/// Emitted code and the function table after it, or why compiling failed.
pub type StmtRes = Result<(Seq<InstrV>, TableV), CompileErrorV>;

/// How deep f-strings nest inside the expressions of statements.
pub open spec fn fstring_depth() -> nat {
    usize::MAX as nat
}

/// The code of an expression inside a statement.
pub open spec fn ex(e: ExprV, fl: Seq<(Seq<char>, u64)>) -> CodeRes {
    expr_code(e, fl, fstring_depth())
}

/// A loop's pending jump: `break` goes to `end`, `continue` to `cont`; other
/// instructions stay.
pub open spec fn patch_instr(i: InstrV, cont: usize, end: usize) -> InstrV {
    match i {
        InstrV::Jump(t) => if t == BREAK_SENTINEL {
            InstrV::Jump(end)
        } else if t == CONTINUE_SENTINEL {
            InstrV::Jump(cont)
        } else {
            i
        },
        _ => i,
    }
}

pub open spec fn patch_code(c: Seq<InstrV>, cont: usize, end: usize) -> Seq<InstrV> {
    c.map_values(|i: InstrV| patch_instr(i, cont, end))
}

/// `c` with a jump to `t` at each index in `ends`.
pub open spec fn set_jumps(c: Seq<InstrV>, ends: Seq<int>, t: usize) -> Seq<InstrV> {
    Seq::new(c.len(), |i: int| if ends.contains(i) { InstrV::Jump(t) } else { c[i] })
}

/// The name a `for` loop keeps its bound in.
pub open spec fn end_var(var: Seq<char>) -> Seq<char> {
    seq!['_', '_', 'e', 'n', 'd', '_'] + var
}

/// The name a method is stored under.
pub open spec fn mangled(type_ident: Seq<char>, method: Seq<char>) -> Seq<char> {
    type_ident + seq!['.'] + method
}

/// A function body compiled into its own chunk; falling off its end returns null.
pub open spec fn func_of(code: Seq<InstrV>, params: Seq<Seq<char>>) -> FuncV {
    FuncV { code: code + seq![InstrV::LoadNull, InstrV::Deinit, InstrV::Return], params }
}

/// The code of an expression followed by fixed instructions.
pub open spec fn ex_then(e: ExprV, tail: Seq<InstrV>, ft: TableV, fl: Seq<(Seq<char>, u64)>) -> StmtRes {
    match ex(e, fl) {
        Ok(c) => Ok((c + tail, ft)),
        Err(x) => Err(x),
    }
}

/// The code of a statement that starts at `pos` of its chunk.
pub open spec fn stmt_code(s: StmtV, pos: nat, in_loop: bool, ft: TableV, fl: Seq<(Seq<char>, u64)>) -> StmtRes
    decreases s, 0int,
{
    match s {
        StmtV::Print(e) => ex_then(e, seq![InstrV::Print], ft, fl),
        StmtV::PrintLn(e) => ex_then(e, seq![InstrV::PrintLn], ft, fl),
        StmtV::Let { name, expr } => ex_then(expr, seq![InstrV::StoreVar(name)], ft, fl),
        StmtV::Const { name, expr } => ex_then(expr, seq![InstrV::StoreVar(name)], ft, fl),
        StmtV::Assign { name, expr } => ex_then(expr, seq![InstrV::StoreVar(name)], ft, fl),
        StmtV::Expr(e) => ex_then(e, seq![InstrV::Pop], ft, fl),
        StmtV::Throw(e) => ex_then(e, seq![InstrV::Throw], ft, fl),
        StmtV::Return(e) => match e {
            Some(x) => ex_then(x, seq![InstrV::Deinit, InstrV::Return], ft, fl),
            None => Ok((seq![InstrV::LoadNull, InstrV::Deinit, InstrV::Return], ft)),
        },
        StmtV::Break => if in_loop {
            Ok((seq![InstrV::Jump(BREAK_SENTINEL)], ft))
        } else {
            Err(CompileErrorV::BreakOutsideLoop)
        },
        StmtV::Continue => if in_loop {
            Ok((seq![InstrV::Jump(CONTINUE_SENTINEL)], ft))
        } else {
            Err(CompileErrorV::ContinueOutsideLoop)
        },
        StmtV::FieldAssign { object, field, expr } => match (ex(object, fl), ex(expr, fl)) {
            (Ok(a), Ok(b)) => Ok((
                a + b + seq![InstrV::SetField(field)] + match object {
                    ExprV::Ident(n) => seq![InstrV::StoreVar(n)],
                    _ => Seq::empty(),
                },
                ft,
            )),
            (Err(x), _) => Err(x),
            (_, Err(x)) => Err(x),
        },
        StmtV::IndexAssign { object, index, expr } => match (ex(object, fl), ex(index, fl), ex(expr, fl)) {
            (Ok(a), Ok(b), Ok(c)) => Ok((
                a + b + c + seq![InstrV::IndexSet] + match object {
                    ExprV::Ident(n) => seq![InstrV::StoreVar(n)],
                    _ => Seq::empty(),
                },
                ft,
            )),
            (Err(x), _, _) => Err(x),
            (_, Err(x), _) => Err(x),
            (_, _, Err(x)) => Err(x),
        },
        StmtV::FunctionDef { name, params, body } => match stmts_code(body, 0, false, ft, fl) {
            Ok((c, t)) => Ok((Seq::empty(), table_insert(t, name, func_of(c, params)))),
            Err(x) => Err(x),
        },
        StmtV::TypeDef { name, fields, methods } => match methods_code(name, methods, ft, fl) {
            Ok(t) => Ok((Seq::empty(), t)),
            Err(x) => Err(x),
        },
        StmtV::While { condition, body } => match ex(condition, fl) {
            Ok(c) => match stmts_code(body, pos + c.len() + 1, true, ft, fl) {
                Ok((b, t)) => {
                    let loop_end = pos + c.len() + 1 + b.len() + 1;
                    let raw = c + seq![InstrV::JumpIfFalse(loop_end as usize)] + b + seq![InstrV::Jump(pos as usize)];
                    Ok((patch_code(raw, pos as usize, loop_end as usize), t))
                },
                Err(x) => Err(x),
            },
            Err(x) => Err(x),
        },
        StmtV::For { var, start, end, body } => match (ex(start, fl), ex(end, fl)) {
            (Ok(cs), Ok(ce)) => {
                let pre = cs + seq![InstrV::StoreVar(var)] + ce + seq![InstrV::StoreVar(end_var(var))];
                let loop_start = pos + pre.len();
                match stmts_code(body, loop_start + 4, true, ft, fl) {
                    Ok((b, t)) => {
                        let cont = loop_start + 4 + b.len();
                        let loop_end = cont + 5;
                        let head = seq![
                            InstrV::LoadVar(var),
                            InstrV::LoadVar(end_var(var)),
                            InstrV::Lt,
                            InstrV::JumpIfFalse(loop_end as usize),
                        ];
                        let tail = seq![
                            InstrV::LoadVar(var),
                            InstrV::LoadInt(1),
                            InstrV::Add,
                            InstrV::StoreVar(var),
                            InstrV::Jump(loop_start as usize),
                        ];
                        Ok((pre + patch_code(head + b + tail, cont as usize, loop_end as usize), t))
                    },
                    Err(x) => Err(x),
                }
            },
            (Err(x), _) => Err(x),
            (_, Err(x)) => Err(x),
        },
        StmtV::Try { body, catch_var, catch_body } => match stmts_code(body, pos + 1, in_loop, ft, fl) {
            Ok((b, t)) => {
                let catch_pos = pos + 1 + b.len() + 1;
                let handler = match catch_var {
                    Some(v) => seq![InstrV::StoreVar(v)],
                    None => seq![InstrV::Pop],
                };
                match stmts_code(catch_body, catch_pos + 1, in_loop, t, fl) {
                    Ok((cb, u)) => {
                        let end = catch_pos + 1 + cb.len();
                        Ok((
                            seq![InstrV::TryCatch(catch_pos as usize, end as usize)] + b + seq![InstrV::Jump(end as usize)]
                                + handler + cb,
                            u,
                        ))
                    },
                    Err(x) => Err(x),
                }
            },
            Err(x) => Err(x),
        },
        StmtV::If { condition, then_body, elif_branches, else_body } => match branch_code(
            condition,
            then_body,
            pos,
            in_loop,
            ft,
            fl,
        ) {
            Ok((c0, t1)) => match elifs_code(elif_branches, pos + c0.len(), in_loop, t1, fl) {
                Ok((ce, t2, ends)) => {
                    let q = pos + c0.len() + ce.len();
                    let rest = match else_body {
                        Some(eb) => stmts_code(eb, q, in_loop, t2, fl),
                        None => Ok((Seq::empty(), t2)),
                    };
                    match rest {
                        Ok((cb, t3)) => {
                            let raw = c0 + ce + cb;
                            let all_ends = seq![c0.len() - 1] + ends.map_values(|e: int| e + c0.len());
                            Ok((set_jumps(raw, all_ends, (pos + raw.len()) as usize), t3))
                        },
                        Err(x) => Err(x),
                    }
                },
                Err(x) => Err(x),
            },
            Err(x) => Err(x),
        },
    }
}

/// The code of a list of statements that starts at `pos`.
pub open spec fn stmts_code(ss: Seq<StmtV>, pos: nat, in_loop: bool, ft: TableV, fl: Seq<(Seq<char>, u64)>) -> StmtRes
    decreases ss, 0int,
{
    if ss.len() == 0 {
        Ok((Seq::empty(), ft))
    } else {
        match stmt_code(ss[0], pos, in_loop, ft, fl) {
            Ok((c, t)) => match stmts_code(ss.drop_first(), pos + c.len(), in_loop, t, fl) {
                Ok((d, u)) => Ok((c + d, u)),
                Err(x) => Err(x),
            },
            Err(x) => Err(x),
        }
    }
}

/// One conditional branch at `pos`: the condition, a jump past the branch when it is
/// false, the body, and a jump whose target is set once the whole `if` is known.
pub open spec fn branch_code(cond: ExprV, body: Seq<StmtV>, pos: nat, in_loop: bool, ft: TableV, fl: Seq<(Seq<char>, u64)>) -> StmtRes
    decreases body, 1int,
{
    match ex(cond, fl) {
        Ok(c) => match stmts_code(body, pos + c.len() + 1, in_loop, ft, fl) {
            Ok((b, t)) => Ok((
                c + seq![InstrV::JumpIfFalse((pos + c.len() + 1 + b.len() + 1) as usize)] + b + seq![InstrV::Jump(0)],
                t,
            )),
            Err(x) => Err(x),
        },
        Err(x) => Err(x),
    }
}

/// The `elif` branches at `pos`, with the indices (from `pos`) of their closing jumps.
pub open spec fn elifs_code(es: Seq<(ExprV, Seq<StmtV>)>, pos: nat, in_loop: bool, ft: TableV, fl: Seq<(Seq<char>, u64)>) -> Result<(Seq<InstrV>, TableV, Seq<int>), CompileErrorV>
    decreases es, 0int,
{
    if es.len() == 0 {
        Ok((Seq::empty(), ft, Seq::empty()))
    } else {
        match branch_code(es[0].0, es[0].1, pos, in_loop, ft, fl) {
            Ok((c, t)) => match elifs_code(es.drop_first(), pos + c.len(), in_loop, t, fl) {
                Ok((d, u, ends)) => Ok((c + d, u, seq![c.len() - 1] + ends.map_values(|e: int| e + c.len()))),
                Err(x) => Err(x),
            },
            Err(x) => Err(x),
        }
    }
}

/// The function table after the methods of type `name` are compiled and stored.
pub open spec fn methods_code(name: Seq<char>, ms: Seq<(Seq<char>, Seq<Seq<char>>, Seq<StmtV>)>, ft: TableV, fl: Seq<(Seq<char>, u64)>) -> Result<TableV, CompileErrorV>
    decreases ms, 0int,
{
    if ms.len() == 0 {
        Ok(ft)
    } else {
        match stmts_code(ms[0].2, 0, false, ft, fl) {
            Ok((c, t)) => methods_code(
                name,
                ms.drop_first(),
                table_insert(t, mangled(name, ms[0].0), func_of(c, ms[0].1)),
                fl,
            ),
            Err(x) => Err(x),
        }
    }
}

/// The code of a whole program: its statements, then `Deinit` and `Halt`.
pub open spec fn program_code(ss: Seq<StmtV>, fl: Seq<(Seq<char>, u64)>) -> StmtRes {
    match stmts_code(ss, 0, false, Seq::empty(), fl) {
        Ok((c, t)) => Ok((c + seq![InstrV::Deinit, InstrV::Halt], t)),
        Err(x) => Err(x),
    }
}


/// Whether an emitting call agrees with the specification: on success the chunk grew by
/// the specified code and the table became the specified one.
pub open spec fn emit_agrees(r: Result<(), CompileError>, before: Seq<InstrV>, after: Seq<InstrV>, table: TableV, s: StmtRes) -> bool {
    match s {
        Ok((c, t)) => r is Ok && after =~= before + c && table == t,
        Err(e) => r matches Err(x) && x@ == e,
    }
}

/// `c` followed by the result `r`.
pub open spec fn prefix_res(c: Seq<InstrV>, r: StmtRes) -> StmtRes {
    match r {
        Ok((d, u)) => Ok((c + d, u)),
        Err(x) => Err(x),
    }
}

pub proof fn lemma_prefix_res_assoc(c: Seq<InstrV>, a: Seq<InstrV>, r: StmtRes)
    ensures
        prefix_res(c + a, r) == prefix_res(c, prefix_res(a, r)),
{
    match r {
        Ok((d, u)) => {
            assert(c + a + d =~= c + (a + d));
        },
        Err(_) => {},
    }
}

/// A copy of a list of names.
fn copy_strings(v: &Vec<String>) -> (r: Vec<String>)
    ensures
        names_view(r@) == names_view(v@),
{
    let mut r: Vec<String> = Vec::new();
    let mut k: usize = 0;
    while k < v.len()
        invariant
            k <= v.len(),
            r@.len() == k,
            forall|j: int| 0 <= j < k ==> #[trigger] r@[j]@ == v@[j]@,
        decreases v.len() - k,
    {
        r.push(copy_string(&v[k]));
        k = k + 1;
    }
    assert(names_view(r@) =~= names_view(v@));
    r
}

/// `a` followed by `b`.
fn join(a: &[char], b: &str) -> (r: String)
    ensures
        r@ == a@ + b@,
{
    let mut v: Vec<char> = Vec::new();
    let mut k: usize = 0;
    while k < a.len()
        invariant
            k <= a.len(),
            v@ == a@.take(k as int),
        decreases a.len() - k,
    {
        v.push(a[k]);
        k = k + 1;
        assert(v@ =~= a@.take(k as int));
    }
    let bc = string_to_chars(b);
    let mut j: usize = 0;
    while j < bc.len()
        invariant
            j <= bc.len(),
            bc@ == b@,
            v@ == a@ + bc@.take(j as int),
        decreases bc.len() - j,
    {
        v.push(bc[j]);
        j = j + 1;
        assert(v@ =~= a@ + bc@.take(j as int));
    }
    assert(bc@.take(j as int) =~= bc@);
    chars_to_string(v.as_slice())
}

/// The name a `for` loop over `var` keeps its bound in.
fn end_var_name(var: &String) -> (r: String)
    ensures
        r@ == end_var(var@),
{
    let prefix: [char; 6] = ['_', '_', 'e', 'n', 'd', '_'];
    let r = join(&prefix, var.as_str());
    assert(prefix@ =~= seq!['_', '_', 'e', 'n', 'd', '_']);
    r
}

/// The name method `method` of type `ty` is stored under.
pub(crate) fn mangle(ty: &String, method: &String) -> (r: String)
    ensures
        r@ == mangled(ty@, method@),
{
    let mut v = string_to_chars(ty.as_str());
    v.push('.');
    join(v.as_slice(), method.as_str())
}

/// Closes a loop: in `[loop_start, loop_end)` each pending `break` jumps to `loop_end`
/// and each pending `continue` to `continue_target`.
fn patch_loop_jumps(chunk: &mut Chunk, loop_start: usize, continue_target: usize, loop_end: usize)
    requires
        loop_start <= loop_end <= old(chunk)@.len(),
    ensures
        final(chunk)@ == old(chunk)@.subrange(0, loop_start as int) + patch_code(
            old(chunk)@.subrange(loop_start as int, loop_end as int),
            continue_target,
            loop_end,
        ) + old(chunk)@.subrange(loop_end as int, old(chunk)@.len() as int),
{
    let ghost c0 = chunk@;
    let mut i: usize = loop_start;
    while i < loop_end
        invariant
            loop_start <= i <= loop_end <= c0.len(),
            chunk@.len() == c0.len(),
            forall|j: int| 0 <= j < loop_start ==> chunk@[j] == c0[j],
            forall|j: int| loop_end <= j < c0.len() ==> chunk@[j] == c0[j],
            forall|j: int| i <= j < loop_end ==> chunk@[j] == c0[j],
            forall|j: int| loop_start <= j < i ==> chunk@[j] == patch_instr(c0[j], continue_target, loop_end),
        decreases loop_end - i,
    {
        assert(chunk@[i as int] == chunk.code@[i as int]@);
        let replace = match &chunk.code[i] {
            Instruction::Jump(t) => if *t == BREAK_SENTINEL {
                Some(loop_end)
            } else if *t == CONTINUE_SENTINEL {
                Some(continue_target)
            } else {
                None
            },
            _ => None,
        };
        match replace {
            Some(target) => {
                chunk.set(i, Instruction::Jump(target));
            },
            None => {},
        }
        i = i + 1;
    }
    assert(chunk@ =~= c0.subrange(0, loop_start as int) + patch_code(
        c0.subrange(loop_start as int, loop_end as int),
        continue_target,
        loop_end,
    ) + c0.subrange(loop_end as int, c0.len() as int));
}


/// `c` followed by the `elif` result `r`, whose closing-jump indices move by `c.len()`
/// and follow `ends`.
pub open spec fn prefix_elifs(
    c: Seq<InstrV>,
    ends: Seq<int>,
    r: Result<(Seq<InstrV>, TableV, Seq<int>), CompileErrorV>,
) -> Result<(Seq<InstrV>, TableV, Seq<int>), CompileErrorV> {
    match r {
        Ok((d, u, e2)) => Ok((c + d, u, ends + e2.map_values(|e: int| e + c.len()))),
        Err(x) => Err(x),
    }
}

pub proof fn lemma_prefix_elifs_step(c: Seq<InstrV>, ends: Seq<int>, a: Seq<InstrV>, d: Seq<InstrV>, u: TableV, e2: Seq<int>)
    requires
        a.len() > 0,
    ensures
        prefix_elifs(c, ends, Ok((a + d, u, seq![a.len() - 1] + e2.map_values(|e: int| e + a.len()))))
            == prefix_elifs(c + a, ends.push(c.len() + a.len() - 1), Ok((d, u, e2))),
{
    let l = ends + (seq![a.len() - 1] + e2.map_values(|e: int| e + a.len())).map_values(|e: int| e + c.len());
    let r = ends.push(c.len() + a.len() - 1) + e2.map_values(|e: int| e + (c + a).len());
    assert(l =~= r);
    assert(c + (a + d) =~= c + a + d);
}

/// Compiles a list of statements.
fn compile_block(stmts: &Vec<Statement>, chunk: &mut Chunk, functions: &mut FunctionTable, in_loop: bool, floats: &FloatTable) -> (r: Result<(), CompileError>)
    ensures
        emit_agrees(
            r,
            old(chunk)@,
            final(chunk)@,
            final(functions)@,
            stmts_code(stmts_view(stmts@), old(chunk)@.len(), in_loop, old(functions)@, floats@),
        ),
    decreases stmts, 0int,
{
    let ghost ss = stmts_view(stmts@);
    let ghost start = chunk@;
    let ghost full = stmts_code(ss, start.len(), in_loop, functions@, floats@);
    let ghost mut done: Seq<InstrV> = Seq::empty();
    proof {
        lemma_stmts_view(stmts@);
        assert(ss.skip(0) =~= ss);
        assert(start + done =~= start);
        assert(prefix_res(done, full) == full) by {
            match full {
                Ok((d, u)) => {
                    assert(done + d =~= d);
                },
                Err(_) => {},
            }
        }
    }
    let mut k: usize = 0;
    while k < stmts.len()
        invariant
            k <= stmts.len(),
            ss == stmts_view(stmts@),
            ss.len() == stmts@.len(),
            forall|j: int| 0 <= j < stmts@.len() ==> #[trigger] ss[j] == stmts@[j]@,
            chunk@ == start + done,
            full == prefix_res(done, stmts_code(ss.skip(k as int), chunk@.len(), in_loop, functions@, floats@)),
            start == old(chunk)@,
            full == stmts_code(ss, start.len(), in_loop, old(functions)@, floats@),
        decreases stmts.len() - k,
    {
        let ghost before = chunk@;
        let ghost ft = functions@;
        assert(ss.skip(k as int)[0] == ss[k as int]);
        assert(ss.skip(k as int).drop_first() =~= ss.skip(k + 1));
        let ghost step = stmt_code(ss[k as int], before.len(), in_loop, ft, floats@);
        compile_statement(&stmts[k], chunk, functions, in_loop, floats)?;
        proof {
            match step {
                Ok((c, t)) => {
                    lemma_prefix_res_assoc(
                        done,
                        c,
                        stmts_code(ss.skip(k + 1), before.len() + c.len(), in_loop, t, floats@),
                    );
                    done = done + c;
                    assert(chunk@ =~= start + done);
                },
                Err(_) => {
                    assert(false);
                },
            }
        }
        k = k + 1;
    }
    proof {
        assert(ss.skip(k as int) =~= Seq::<StmtV>::empty());
        assert(done + Seq::<InstrV>::empty() =~= done);
    }
    Ok(())
}

/// Compiles one conditional branch; its closing jump is left at 0.
fn compile_branch(cond: &Expression, body: &Vec<Statement>, chunk: &mut Chunk, functions: &mut FunctionTable, in_loop: bool, floats: &FloatTable) -> (r: Result<(), CompileError>)
    ensures
        emit_agrees(
            r,
            old(chunk)@,
            final(chunk)@,
            final(functions)@,
            branch_code(cond@, stmts_view(body@), old(chunk)@.len(), in_loop, old(functions)@, floats@),
        ),
    decreases body, 1int,
{
    compile_expression(cond, chunk, floats, usize::MAX)?;
    let jump_false = chunk.len();
    chunk.push(Instruction::JumpIfFalse(0));
    compile_block(body, chunk, functions, in_loop, floats)?;
    chunk.push(Instruction::Jump(0));
    let after = chunk.len();
    chunk.set(jump_false, Instruction::JumpIfFalse(after));
    Ok(())
}

/// Compiles one `elif` branch.
fn compile_elif(branch: &ElifBranch, chunk: &mut Chunk, functions: &mut FunctionTable, in_loop: bool, floats: &FloatTable) -> (r: Result<(), CompileError>)
    ensures
        emit_agrees(
            r,
            old(chunk)@,
            final(chunk)@,
            final(functions)@,
            branch_code(branch.condition@, stmts_view(branch.body@), old(chunk)@.len(), in_loop, old(functions)@, floats@),
        ),
    decreases branch, 2int,
{
    compile_branch(&branch.condition, &branch.body, chunk, functions, in_loop, floats)
}

/// Compiles the `elif` branches of an `if`, adding the positions of their closing jumps
/// to `ends`.
fn compile_elifs(elif_branches: &Vec<ElifBranch>, chunk: &mut Chunk, functions: &mut FunctionTable, in_loop: bool, floats: &FloatTable, ends: &mut Vec<usize>) -> (r: Result<(), CompileError>)
    ensures
        match elifs_code(elifs_view(elif_branches@), old(chunk)@.len(), in_loop, old(functions)@, floats@) {
            Ok((c, t, e)) => {
                &&& r is Ok
                &&& final(chunk)@ =~= old(chunk)@ + c
                &&& final(functions)@ == t
                &&& final(ends)@.len() == old(ends)@.len() + e.len()
                &&& forall|i: int| 0 <= i < old(ends)@.len() ==> final(ends)@[i] == old(ends)@[i]
                &&& forall|i: int|
                    0 <= i < e.len() ==> 0 <= #[trigger] e[i] < c.len() && final(ends)@[old(ends)@.len() + i]
                        == old(chunk)@.len() + e[i]
            },
            Err(x) => r matches Err(y) && y@ == x,
        },
    decreases elif_branches, 3int,
{
    let ghost ev = elifs_view(elif_branches@);
    let ghost start = chunk@;
    let ghost ends0 = ends@;
    let ghost full = elifs_code(ev, start.len(), in_loop, functions@, floats@);
    let ghost mut done: Seq<InstrV> = Seq::empty();
    let ghost mut rel: Seq<int> = Seq::empty();
    proof {
        lemma_elifs_view(elif_branches@);
        assert(ev.skip(0) =~= ev);
        assert(start + done =~= start);
        assert(prefix_elifs(done, rel, full) == full) by {
            match full {
                Ok((d, u, e2)) => {
                    assert(done + d =~= d);
                    assert(rel + e2.map_values(|e: int| e + done.len()) =~= e2);
                },
                Err(_) => {},
            }
        }
    }
    let mut k: usize = 0;
    while k < elif_branches.len()
        invariant
            k <= elif_branches.len(),
            ev == elifs_view(elif_branches@),
            ev.len() == elif_branches@.len(),
            forall|j: int|
                0 <= j < elif_branches@.len() ==> #[trigger] ev[j] == (
                    elif_branches@[j].condition@,
                    stmts_view(elif_branches@[j].body@),
                ),
            chunk@ == start + done,
            full == prefix_elifs(
                done,
                rel,
                elifs_code(ev.skip(k as int), chunk@.len(), in_loop, functions@, floats@),
            ),
            ends@.len() == ends0.len() + rel.len(),
            forall|i: int| 0 <= i < ends0.len() ==> ends@[i] == ends0[i],
            forall|i: int|
                0 <= i < rel.len() ==> 0 <= #[trigger] rel[i] < done.len() && ends@[ends0.len() + i]
                    == start.len() + rel[i],
            start == old(chunk)@,
            ends0 == old(ends)@,
            full == elifs_code(ev, start.len(), in_loop, old(functions)@, floats@),
        decreases elif_branches.len() - k,
    {
        let ghost before = chunk@;
        let ghost ft = functions@;
        assert(ev.skip(k as int)[0] == ev[k as int]);
        assert(ev.skip(k as int).drop_first() =~= ev.skip(k + 1));
        let ghost step = branch_code(ev[k as int].0, ev[k as int].1, before.len(), in_loop, ft, floats@);
        assert(elifs_code(ev.skip(k as int), before.len(), in_loop, ft, floats@) == match step {
            Ok((c, t)) => match elifs_code(ev.skip(k + 1), before.len() + c.len(), in_loop, t, floats@) {
                Ok((d, u, ends)) => Ok((c + d, u, seq![c.len() - 1] + ends.map_values(|e: int| e + c.len()))),
                Err(x) => Err(x),
            },
            Err(x) => Err(x),
        });
        compile_elif(&elif_branches[k], chunk, functions, in_loop, floats)?;
        let close = chunk.len() - 1;
        ends.push(close);
        proof {
            match step {
                Ok((c, t)) => {
                    let rest = elifs_code(ev.skip(k + 1), before.len() + c.len(), in_loop, t, floats@);
                    match rest {
                        Ok((d, u, e2)) => {
                            lemma_prefix_elifs_step(done, rel, c, d, u, e2);
                        },
                        Err(_) => {},
                    }
                    rel = rel.push(done.len() + c.len() - 1);
                    done = done + c;
                    assert(chunk@ =~= start + done);
                },
                Err(_) => {
                    assert(false);
                },
            }
        }
        k = k + 1;
    }
    proof {
        assert(ev.skip(k as int) =~= Seq::<(ExprV, Seq<StmtV>)>::empty());
        assert(done + Seq::<InstrV>::empty() =~= done);
        assert(rel + Seq::<int>::empty().map_values(|e: int| e + done.len()) =~= rel);
    }
    Ok(())
}

proof fn lemma_contains_push(es: Seq<usize>, x: usize, y: usize)
    ensures
        es.push(x).contains(y) <==> (es.contains(y) || x == y),
{
    if es.contains(y) {
        let w = choose|w: int| 0 <= w < es.len() && #[trigger] es[w] == y;
        assert(es.push(x)[w] == y);
    }
    if x == y {
        assert(es.push(x)[es.len() as int] == y);
    }
    if es.push(x).contains(y) {
        let w = choose|w: int| 0 <= w < es.len() + 1 && #[trigger] es.push(x)[w] == y;
        if w < es.len() {
            assert(es[w] == y);
        }
    }
}

#[verifier::rlimit(100)]
#[verifier::spinoff_prover]
/// Compiles an `if` statement: every branch that runs jumps past the whole statement.
fn compile_if(stmt: &Statement, chunk: &mut Chunk, functions: &mut FunctionTable, in_loop: bool, floats: &FloatTable) -> (r: Result<(), CompileError>)
    requires
        stmt is If,
    ensures
        emit_agrees(r, old(chunk)@, final(chunk)@, final(functions)@, stmt_code(stmt@, old(chunk)@.len(), in_loop, old(functions)@, floats@)),
    decreases stmt, 2int,
{
    match stmt {
        Statement::If { condition, then_body, elif_branches, else_body } => {
            let ghost start = chunk@;
            let ghost pos = start.len();
            let ghost ft0 = functions@;
            let ghost b0 = branch_code(condition@, stmts_view(then_body@), pos, in_loop, ft0, floats@);
            compile_branch(condition, then_body, chunk, functions, in_loop, floats)?;
            let ghost c0 = chunk@.subrange(pos as int, chunk@.len() as int);
            assert(chunk@ =~= start + c0);
            let ghost t1 = functions@;
            let first_close = chunk.len() - 1;
            let mut ends: Vec<usize> = Vec::new();
            ends.push(first_close);
            let ghost mid = chunk@;
            let ghost e_res = elifs_code(elifs_view(elif_branches@), mid.len(), in_loop, t1, floats@);
            compile_elifs(elif_branches, chunk, functions, in_loop, floats, &mut ends)?;
            let ghost after_elifs = chunk@;
            let ghost t2 = functions@;
            let ghost rest = match else_body {
                Some(eb) => stmts_code(stmts_view(eb@), after_elifs.len(), in_loop, t2, floats@),
                None => Ok((Seq::<InstrV>::empty(), t2)),
            };
            match else_body {
                Some(eb) => {
                    compile_block(eb, chunk, functions, in_loop, floats)?;
                },
                None => {
                    assert(chunk@ =~= after_elifs + Seq::<InstrV>::empty());
                },
            }
            let end = chunk.len();
            proof {
                match (b0, e_res, rest) {
                    (Ok((c0x, _)), Ok((ce, _, rel)), Ok((cb, _))) => {
                        let raw = c0 + ce + cb;
                        let all_ends = seq![c0.len() - 1] + rel.map_values(|e: int| e + c0.len());
                        assert(c0x == c0);
                        assert(chunk@ =~= start + raw);
                        assert(ends@.len() == all_ends.len());
                        assert forall|i: int| 0 <= i < ends@.len() implies pos <= #[trigger] ends@[i] < pos + raw.len()
                            && ends@[i] == pos + all_ends[i] by {
                            if i > 0 {
                                assert(all_ends[i] == rel[i - 1] + c0.len());
                            }
                        }
                    },
                    _ => {
                        assert(false);
                    },
                }
            }
            let ghost patched = chunk@;
            let mut j: usize = 0;
            while j < ends.len()
                invariant
                    j <= ends.len(),
                    end == patched.len(),
                    chunk@.len() == patched.len(),
                    forall|i: int| 0 <= i < pos ==> chunk@[i] == patched[i],
                    forall|i: int|
                        pos <= i < patched.len() ==> chunk@[i] == (if ends@.take(j as int).contains(i as usize) {
                            InstrV::Jump(end)
                        } else {
                            patched[i]
                        }),
                    forall|i: int| 0 <= i < ends@.len() ==> pos <= #[trigger] ends@[i] < patched.len(),
                decreases ends.len() - j,
            {
                let target = ends[j];
                chunk.set(target, Instruction::Jump(end));
                proof {
                    assert(ends@.take(j + 1) =~= ends@.take(j as int).push(ends@[j as int]));
                    assert forall|i: int| pos <= i < patched.len() implies #[trigger] chunk@[i] == (if ends@.take(
                        j + 1,
                    ).contains(i as usize) {
                        InstrV::Jump(end)
                    } else {
                        patched[i]
                    }) by {
                        lemma_contains_push(ends@.take(j as int), ends@[j as int], i as usize);
                    }
                }
                j = j + 1;
            }
            proof {
                match (b0, e_res, rest) {
                    (Ok((_, _)), Ok((ce, _, rel)), Ok((cb, _))) => {
                        let raw = c0 + ce + cb;
                        let all_ends = seq![c0.len() - 1] + rel.map_values(|e: int| e + c0.len());
                        assert(ends@.take(j as int) =~= ends@);
                        assert forall|x: int| pos <= x < chunk@.len() implies #[trigger] chunk@[x] == set_jumps(
                            raw,
                            all_ends,
                            (pos + raw.len()) as usize,
                        )[x - pos] by {
                            let i = x - pos;
                            assert(patched[x] == raw[i]);
                            if ends@.contains(x as usize) {
                                let w = choose|w: int| 0 <= w < ends@.len() && #[trigger] ends@[w] == x as usize;
                                assert(all_ends[w] == i);
                            }
                            if all_ends.contains(i) {
                                let w = choose|w: int| 0 <= w < all_ends.len() && #[trigger] all_ends[w] == i;
                                assert(ends@[w] == x as usize);
                            }
                        }
                        assert(chunk@ =~= start + set_jumps(raw, all_ends, (pos + raw.len()) as usize));
                    },
                    _ => {},
                }
            }
            Ok(())
        },
        _ => Ok(()),
    }
}


/// Compiles a `while` loop.
fn compile_while(stmt: &Statement, chunk: &mut Chunk, functions: &mut FunctionTable, in_loop: bool, floats: &FloatTable) -> (r: Result<(), CompileError>)
    requires
        stmt is While,
    ensures
        emit_agrees(r, old(chunk)@, final(chunk)@, final(functions)@, stmt_code(stmt@, old(chunk)@.len(), in_loop, old(functions)@, floats@)),
    decreases stmt, 2int,
{
    match stmt {
        Statement::While { condition, body } => {
            let ghost start = chunk@;
            let loop_start = chunk.len();
            compile_expression(condition, chunk, floats, usize::MAX)?;
            let jump_exit = chunk.len();
            chunk.push(Instruction::JumpIfFalse(0));
            compile_block(body, chunk, functions, true, floats)?;
            chunk.push(Instruction::Jump(loop_start));
            let loop_end = chunk.len();
            chunk.set(jump_exit, Instruction::JumpIfFalse(loop_end));
            let ghost raw = chunk@.subrange(loop_start as int, loop_end as int);
            assert(chunk@.subrange(0, loop_start as int) =~= start);
            assert(chunk@.subrange(loop_end as int, loop_end as int) =~= Seq::<InstrV>::empty());
            patch_loop_jumps(chunk, loop_start, loop_start, loop_end);
            proof {
                match ex(condition@, floats@) {
                    Ok(c) => {
                        match stmts_code(stmts_view(body@), (loop_start + c.len() + 1) as nat, true, old(functions)@, floats@) {
                            Ok((b, _)) => {
                                assert(raw =~= c + seq![InstrV::JumpIfFalse(loop_end)] + b + seq![InstrV::Jump(loop_start)]);
                                assert(chunk@ =~= start + patch_code(raw, loop_start, loop_end));
                            },
                            Err(_) => {},
                        }
                    },
                    Err(_) => {},
                }
            }
            Ok(())
        },
        _ => Ok(()),
    }
}

#[verifier::rlimit(100)]
#[verifier::spinoff_prover]
/// Compiles a `for` loop over a range: the bound is kept in a variable of its own.
fn compile_for(stmt: &Statement, chunk: &mut Chunk, functions: &mut FunctionTable, in_loop: bool, floats: &FloatTable) -> (r: Result<(), CompileError>)
    requires
        stmt is For,
    ensures
        emit_agrees(r, old(chunk)@, final(chunk)@, final(functions)@, stmt_code(stmt@, old(chunk)@.len(), in_loop, old(functions)@, floats@)),
    decreases stmt, 2int,
{
    match stmt {
        Statement::For { var, start, end, body } => {
            let ghost first = chunk@;
            compile_expression(start, chunk, floats, usize::MAX)?;
            chunk.push(Instruction::StoreVar(copy_string(var)));
            compile_expression(end, chunk, floats, usize::MAX)?;
            let end_name = end_var_name(var);
            chunk.push(Instruction::StoreVar(copy_string(&end_name)));
            let loop_start = chunk.len();
            let ghost pre = chunk@.subrange(first.len() as int, loop_start as int);
            assert(chunk@ =~= first + pre);
            chunk.push(Instruction::LoadVar(copy_string(var)));
            chunk.push(Instruction::LoadVar(end_name));
            chunk.push(Instruction::Lt);
            let jump_exit = chunk.len();
            chunk.push(Instruction::JumpIfFalse(0));
            compile_block(body, chunk, functions, true, floats)?;
            let continue_target = chunk.len();
            chunk.push(Instruction::LoadVar(copy_string(var)));
            chunk.push(Instruction::LoadInt(1));
            chunk.push(Instruction::Add);
            chunk.push(Instruction::StoreVar(copy_string(var)));
            chunk.push(Instruction::Jump(loop_start));
            let loop_end = chunk.len();
            chunk.set(jump_exit, Instruction::JumpIfFalse(loop_end));
            let ghost raw = chunk@.subrange(loop_start as int, loop_end as int);
            assert(chunk@.subrange(0, loop_start as int) =~= first + pre);
            assert(chunk@.subrange(loop_end as int, loop_end as int) =~= Seq::<InstrV>::empty());
            patch_loop_jumps(chunk, loop_start, continue_target, loop_end);
            proof {
                match (ex(start@, floats@), ex(end@, floats@)) {
                    (Ok(cs), Ok(ce)) => {
                        assert(pre =~= cs + seq![InstrV::StoreVar(var@)] + ce + seq![InstrV::StoreVar(end_var(var@))]);
                        match stmts_code(stmts_view(body@), (loop_start + 4) as nat, true, old(functions)@, floats@) {
                            Ok((b, _)) => {
                                assert(raw =~= seq![
                                    InstrV::LoadVar(var@),
                                    InstrV::LoadVar(end_var(var@)),
                                    InstrV::Lt,
                                    InstrV::JumpIfFalse(loop_end),
                                ] + b + seq![
                                    InstrV::LoadVar(var@),
                                    InstrV::LoadInt(1),
                                    InstrV::Add,
                                    InstrV::StoreVar(var@),
                                    InstrV::Jump(loop_start),
                                ]);
                                assert(chunk@ =~= first + (pre + patch_code(raw, continue_target, loop_end)));
                            },
                            Err(_) => {},
                        }
                    },
                    _ => {},
                }
            }
            Ok(())
        },
        _ => Ok(()),
    }
}

/// Compiles a `try` statement: a handler marker, the body, a jump past the handler, then
/// the handler, which first stores or drops the thrown value.
fn compile_try(stmt: &Statement, chunk: &mut Chunk, functions: &mut FunctionTable, in_loop: bool, floats: &FloatTable) -> (r: Result<(), CompileError>)
    requires
        stmt is Try,
    ensures
        emit_agrees(r, old(chunk)@, final(chunk)@, final(functions)@, stmt_code(stmt@, old(chunk)@.len(), in_loop, old(functions)@, floats@)),
    decreases stmt, 2int,
{
    match stmt {
        Statement::Try { body, catch_var, catch_body } => {
            let ghost start = chunk@;
            let try_catch_pos = chunk.len();
            chunk.push(Instruction::TryCatch(0, 0));
            compile_block(body, chunk, functions, in_loop, floats)?;
            let jump_end_pos = chunk.len();
            chunk.push(Instruction::Jump(0));
            let catch_pos = chunk.len();
            match catch_var {
                Some(v) => {
                    chunk.push(Instruction::StoreVar(copy_string(v)));
                },
                None => {
                    chunk.push(Instruction::Pop);
                },
            }
            compile_block(catch_body, chunk, functions, in_loop, floats)?;
            let end_pos = chunk.len();
            chunk.set(try_catch_pos, Instruction::TryCatch(catch_pos, end_pos));
            chunk.set(jump_end_pos, Instruction::Jump(end_pos));
            proof {
                match stmts_code(stmts_view(body@), (try_catch_pos + 1) as nat, in_loop, old(functions)@, floats@) {
                    Ok((b, t)) => {
                        let handler = match catch_var {
                            Some(v) => seq![InstrV::StoreVar(v@)],
                            None => seq![InstrV::Pop],
                        };
                        match stmts_code(stmts_view(catch_body@), (catch_pos + 1) as nat, in_loop, t, floats@) {
                            Ok((cb, _)) => {
                                assert(chunk@ =~= start + (seq![InstrV::TryCatch(catch_pos, end_pos)] + b
                                    + seq![InstrV::Jump(end_pos)] + handler + cb));
                            },
                            Err(_) => {},
                        }
                    },
                    Err(_) => {},
                }
            }
            Ok(())
        },
        _ => Ok(()),
    }
}

/// Compiles a method body into a function.
fn compile_method(method: &MethodDef, functions: &mut FunctionTable, floats: &FloatTable) -> (r: Result<FunctionDef, CompileError>)
    ensures
        match stmts_code(stmts_view(method.body@), 0, false, old(functions)@, floats@) {
            Ok((c, t)) => r matches Ok(f) && f@ == func_of(c, strings_view(method.params@)) && final(functions)@ == t,
            Err(x) => r matches Err(y) && y@ == x,
        },
    decreases method, 2int,
{
    let mut func_chunk = Chunk::new();
    compile_block(&method.body, &mut func_chunk, functions, false, floats)?;
    func_chunk.push(Instruction::LoadNull);
    func_chunk.push(Instruction::Deinit);
    func_chunk.push(Instruction::Return);
    let params = copy_strings(&method.params);
    proof {
        match stmts_code(stmts_view(method.body@), 0, false, old(functions)@, floats@) {
            Ok((c, t)) => {
                assert(func_chunk@ =~= c + seq![InstrV::LoadNull, InstrV::Deinit, InstrV::Return]);
            },
            Err(_) => {},
        }
    }
    Ok(FunctionDef { chunk: func_chunk, params })
}

/// Compiles the methods of a `type` definition into the function table.
fn compile_methods(name: &String, methods: &Vec<MethodDef>, functions: &mut FunctionTable, floats: &FloatTable) -> (r: Result<(), CompileError>)
    ensures
        match methods_code(name@, methods_view(methods@), old(functions)@, floats@) {
            Ok(t) => r is Ok && final(functions)@ == t,
            Err(x) => r matches Err(y) && y@ == x,
        },
    decreases methods, 3int,
{
    let ghost mv = methods_view(methods@);
    let ghost full = methods_code(name@, mv, functions@, floats@);
    proof {
        lemma_methods_view(methods@);
        assert(mv.skip(0) =~= mv);
    }
    let mut k: usize = 0;
    while k < methods.len()
        invariant
            k <= methods.len(),
            mv == methods_view(methods@),
            mv.len() == methods@.len(),
            forall|j: int|
                0 <= j < methods@.len() ==> #[trigger] mv[j] == (
                    methods@[j].name@,
                    strings_view(methods@[j].params@),
                    stmts_view(methods@[j].body@),
                ),
            full == methods_code(name@, mv.skip(k as int), functions@, floats@),
            full == methods_code(name@, mv, old(functions)@, floats@),
        decreases methods.len() - k,
    {
        assert(mv.skip(k as int)[0] == mv[k as int]);
        assert(mv.skip(k as int).drop_first() =~= mv.skip(k + 1));
        let func = compile_method(&methods[k], functions, floats)?;
        functions.insert(mangle(name, &methods[k].name), func);
        k = k + 1;
    }
    assert(mv.skip(k as int) =~= Seq::<(Seq<char>, Seq<Seq<char>>, Seq<StmtV>)>::empty());
    Ok(())
}

/// Compiles one statement.
#[verifier::rlimit(60)]
fn compile_statement(stmt: &Statement, chunk: &mut Chunk, functions: &mut FunctionTable, in_loop: bool, floats: &FloatTable) -> (r: Result<(), CompileError>)
    ensures
        emit_agrees(r, old(chunk)@, final(chunk)@, final(functions)@, stmt_code(stmt@, old(chunk)@.len(), in_loop, old(functions)@, floats@)),
    decreases stmt, 4int,
{
    let ghost start = chunk@;
    match stmt {
        Statement::Print(e) => {
            compile_expression(e, chunk, floats, usize::MAX)?;
            chunk.push(Instruction::Print);
            Ok(())
        },
        Statement::PrintLn(e) => {
            compile_expression(e, chunk, floats, usize::MAX)?;
            chunk.push(Instruction::PrintLn);
            Ok(())
        },
        Statement::Let { name, expr } => {
            compile_expression(expr, chunk, floats, usize::MAX)?;
            chunk.push(Instruction::StoreVar(copy_string(name)));
            Ok(())
        },
        Statement::Const { name, expr } => {
            compile_expression(expr, chunk, floats, usize::MAX)?;
            chunk.push(Instruction::StoreVar(copy_string(name)));
            Ok(())
        },
        Statement::Assign { name, expr } => {
            compile_expression(expr, chunk, floats, usize::MAX)?;
            chunk.push(Instruction::StoreVar(copy_string(name)));
            Ok(())
        },
        Statement::Expr(e) => {
            compile_expression(e, chunk, floats, usize::MAX)?;
            chunk.push(Instruction::Pop);
            Ok(())
        },
        Statement::Throw(e) => {
            compile_expression(e, chunk, floats, usize::MAX)?;
            chunk.push(Instruction::Throw);
            Ok(())
        },
        Statement::Return(e) => {
            match e {
                Some(x) => {
                    compile_expression(x, chunk, floats, usize::MAX)?;
                },
                None => {
                    chunk.push(Instruction::LoadNull);
                },
            }
            chunk.push(Instruction::Deinit);
            chunk.push(Instruction::Return);
            Ok(())
        },
        Statement::Break => {
            if in_loop {
                chunk.push(Instruction::Jump(BREAK_SENTINEL));
                Ok(())
            } else {
                Err(CompileError::BreakOutsideLoop)
            }
        },
        Statement::Continue => {
            if in_loop {
                chunk.push(Instruction::Jump(CONTINUE_SENTINEL));
                Ok(())
            } else {
                Err(CompileError::ContinueOutsideLoop)
            }
        },
        Statement::FieldAssign { object, field, expr } => {
            compile_expression(object, chunk, floats, usize::MAX)?;
            compile_expression(expr, chunk, floats, usize::MAX)?;
            chunk.push(Instruction::SetField(copy_string(field)));
            match object {
                Expression::Ident(name) => {
                    assert(object@ == ExprV::Ident(name@));
                    chunk.push(Instruction::StoreVar(copy_string(name)));
                },
                _ => {
                    assert(!(object@ is Ident));
                },
            }
            Ok(())
        },
        Statement::IndexAssign { object, index, expr } => {
            compile_expression(object, chunk, floats, usize::MAX)?;
            compile_expression(index, chunk, floats, usize::MAX)?;
            compile_expression(expr, chunk, floats, usize::MAX)?;
            chunk.push(Instruction::IndexSet);
            match object {
                Expression::Ident(name) => {
                    assert(object@ == ExprV::Ident(name@));
                    chunk.push(Instruction::StoreVar(copy_string(name)));
                },
                _ => {
                    assert(!(object@ is Ident));
                },
            }
            Ok(())
        },
        Statement::FunctionDef { name, params, body } => {
            let mut func_chunk = Chunk::new();
            compile_block(body, &mut func_chunk, functions, false, floats)?;
            func_chunk.push(Instruction::LoadNull);
    func_chunk.push(Instruction::Deinit);
            func_chunk.push(Instruction::Return);
            let ps = copy_strings(params);
            proof {
                match stmts_code(stmts_view(body@), 0, false, old(functions)@, floats@) {
                    Ok((c, t)) => {
                        assert(func_chunk@ =~= c + seq![InstrV::LoadNull, InstrV::Deinit, InstrV::Return]);
                        assert(names_view(ps@) =~= strings_view(params@));
                    },
                    Err(_) => {},
                }
            }
            functions.insert(copy_string(name), FunctionDef { chunk: func_chunk, params: ps });
            assert(chunk@ =~= start + Seq::<InstrV>::empty());
            Ok(())
        },
        Statement::TypeDef { name, methods, .. } => {
            compile_methods(name, methods, functions, floats)?;
            assert(chunk@ =~= start + Seq::<InstrV>::empty());
            Ok(())
        },
        Statement::If { .. } => compile_if(stmt, chunk, functions, in_loop, floats),
        Statement::While { .. } => compile_while(stmt, chunk, functions, in_loop, floats),
        Statement::For { .. } => compile_for(stmt, chunk, functions, in_loop, floats),
        Statement::Try { .. } => compile_try(stmt, chunk, functions, in_loop, floats),
    }
}

/// Compiles a program: its statements into the main chunk, closed by `Deinit` and `Halt`,
/// and its functions and methods into the function table.
pub fn compile(stmts: &Vec<Statement>, floats: &FloatTable) -> (r: Result<(Chunk, FunctionTable), CompileError>)
    ensures
        match program_code(stmts_view(stmts@), floats@) {
            Ok((c, t)) => r matches Ok((chunk, table)) && chunk@ == c && table@ == t,
            Err(e) => r matches Err(x) && x@ == e,
        },
{
    let mut chunk = Chunk::new();
    let mut functions = FunctionTable::new();
    compile_block(stmts, &mut chunk, &mut functions, false, floats)?;
    chunk.push(Instruction::Deinit);
    chunk.push(Instruction::Halt);
    Ok((chunk, functions))
}


// ---------------------------------------------------------------------------
// Laws

/// Code with no jump of any kind: no `Jump`, `JumpIfFalse` or `TryCatch`.
pub open spec fn jump_free(c: Seq<InstrV>) -> bool {
    forall|i: int| 0 <= i < c.len() ==> !(#[trigger] c[i] is Jump) && !(c[i] is JumpIfFalse) && !(c[i] is TryCatch)
}

/// Code with no `Jump` instruction.
pub open spec fn no_jump(c: Seq<InstrV>) -> bool {
    forall|i: int| 0 <= i < c.len() ==> !(#[trigger] c[i] is Jump)
}

proof fn lemma_no_jump_append(c: Seq<InstrV>, x: InstrV)
    requires
        no_jump(c),
        !(x is Jump),
    ensures
        no_jump(c + seq![x]),
{
    assert forall|i: int| 0 <= i < (c + seq![x]).len() implies !(#[trigger] (c + seq![x])[i] is Jump) by {
        if i < c.len() {
            assert((c + seq![x])[i] == c[i]);
        }
    }
}

/// Code whose jumps go at most to `limit`, or, inside a loop, are a pending `break` or
/// `continue`.
pub open spec fn jumps_within(c: Seq<InstrV>, limit: nat, in_loop: bool) -> bool {
    forall|i: int|
        0 <= i < c.len() ==> match #[trigger] c[i] {
            InstrV::Jump(x) => x <= limit || (in_loop && (x == BREAK_SENTINEL || x == CONTINUE_SENTINEL)),
            _ => true,
        }
}

proof fn lemma_jump_free_concat(a: Seq<InstrV>, b: Seq<InstrV>)
    requires
        jump_free(a),
        jump_free(b),
    ensures
        jump_free(a + b),
{
    assert forall|i: int| 0 <= i < (a + b).len() implies !(#[trigger] (a + b)[i] is Jump) && !((a + b)[i] is JumpIfFalse)
        && !((a + b)[i] is TryCatch) by {
        if i < a.len() {
            assert((a + b)[i] == a[i]);
        } else {
            assert((a + b)[i] == b[i - a.len()]);
        }
    }
}

proof fn lemma_then_code_jump_free(c: Seq<InstrV>, r: CodeRes)
    requires
        jump_free(c),
        r matches Ok(d) ==> jump_free(d),
    ensures
        then_code(c, r) matches Ok(d) ==> jump_free(d),
{
    if let Ok(d) = r {
        lemma_jump_free_concat(c, d);
    }
}

/// Expressions never jump.
pub proof fn lemma_expr_jump_free(e: ExprV, fl: Seq<(Seq<char>, u64)>, depth: nat)
    ensures
        expr_code(e, fl, depth) matches Ok(c) ==> jump_free(c),
    decreases 4 * depth + 3, e,
{
    match e {
        ExprV::Binary(op, l, r) => {
            lemma_expr_jump_free(*l, fl, depth);
            lemma_expr_jump_free(*r, fl, depth);
            if let (Ok(a), Ok(b)) = (expr_code(*l, fl, depth), expr_code(*r, fl, depth)) {
                lemma_jump_free_concat(a, b);
                lemma_jump_free_concat(a + b, bin_code(op));
            }
        },
        ExprV::Not(x) => {
            lemma_expr_jump_free(*x, fl, depth);
            if let Ok(a) = expr_code(*x, fl, depth) {
                lemma_jump_free_concat(a, seq![InstrV::Not]);
                assert(a.push(InstrV::Not) =~= a + seq![InstrV::Not]);
            }
        },
        ExprV::Call { callee, args } => {
            lemma_exprs_jump_free(args, fl, depth);
            if let Ok(a) = exprs_code(args, fl, depth) {
                if let ExprV::Ident(n) = *callee {
                    let x = InstrV::Call(n, args.len() as usize);
                    lemma_jump_free_concat(a, seq![x]);
                    assert(a.push(x) =~= a + seq![x]);
                }
            }
        },
        ExprV::FieldAccess { object, field } => {
            lemma_expr_jump_free(*object, fl, depth);
            if let Ok(a) = expr_code(*object, fl, depth) {
                lemma_jump_free_concat(a, seq![InstrV::GetField(field)]);
                assert(a.push(InstrV::GetField(field)) =~= a + seq![InstrV::GetField(field)]);
            }
        },
        ExprV::MethodCall { object, method, args } => {
            lemma_expr_jump_free(*object, fl, depth);
            lemma_exprs_jump_free(args, fl, depth);
            if let (Ok(a), Ok(b)) = (expr_code(*object, fl, depth), exprs_code(args, fl, depth)) {
                let x = InstrV::MethodCall(method, args.len() as usize);
                lemma_jump_free_concat(a, b);
                lemma_jump_free_concat(a + b, seq![x]);
                assert((a + b).push(x) =~= a + b + seq![x]);
            }
        },
        ExprV::Construct { type_ident, fields } => {
            lemma_named_jump_free(fields, fl, depth);
            if let Ok(a) = named_code(fields, fl, depth) {
                let x = InstrV::Construct(type_ident, fields.map_values(|f: (Seq<char>, ExprV)| f.0));
                lemma_jump_free_concat(a, seq![x]);
                assert(a.push(x) =~= a + seq![x]);
            }
        },
        ExprV::List(items) => {
            lemma_exprs_jump_free(items, fl, depth);
            if let Ok(a) = exprs_code(items, fl, depth) {
                let x = InstrV::NewList(items.len() as usize);
                lemma_jump_free_concat(a, seq![x]);
                assert(a.push(x) =~= a + seq![x]);
            }
        },
        ExprV::Mapping(entries) => {
            lemma_entries_jump_free(entries, fl, depth);
            if let Ok(a) = entries_code(entries, fl, depth) {
                let x = InstrV::NewMap(entries.len() as usize);
                lemma_jump_free_concat(a, seq![x]);
                assert(a.push(x) =~= a + seq![x]);
            }
        },
        ExprV::Index { object, index } => {
            lemma_expr_jump_free(*object, fl, depth);
            lemma_expr_jump_free(*index, fl, depth);
            if let (Ok(a), Ok(b)) = (expr_code(*object, fl, depth), expr_code(*index, fl, depth)) {
                lemma_jump_free_concat(a, b);
                lemma_jump_free_concat(a + b, seq![InstrV::IndexGet]);
                assert((a + b).push(InstrV::IndexGet) =~= a + b + seq![InstrV::IndexGet]);
            }
        },
        ExprV::IndexSet { object, index, value } => {
            lemma_expr_jump_free(*object, fl, depth);
            lemma_expr_jump_free(*index, fl, depth);
            lemma_expr_jump_free(*value, fl, depth);
            if let (Ok(a), Ok(b), Ok(c)) = (
                expr_code(*object, fl, depth),
                expr_code(*index, fl, depth),
                expr_code(*value, fl, depth),
            ) {
                lemma_jump_free_concat(a, b);
                lemma_jump_free_concat(a + b, c);
                lemma_jump_free_concat(a + b + c, seq![InstrV::IndexSet]);
                assert((a + b + c).push(InstrV::IndexSet) =~= a + b + c + seq![InstrV::IndexSet]);
            }
        },
        ExprV::FString(parts) => {
            if parts.len() > 0 {
                lemma_fparts_jump_free(parts, true, fl, depth);
            }
        },
        _ => {},
    }
}

pub proof fn lemma_exprs_jump_free(es: Seq<ExprV>, fl: Seq<(Seq<char>, u64)>, depth: nat)
    ensures
        exprs_code(es, fl, depth) matches Ok(c) ==> jump_free(c),
    decreases 4 * depth + 3, es,
{
    if es.len() > 0 {
        lemma_expr_jump_free(es[0], fl, depth);
        lemma_exprs_jump_free(es.drop_first(), fl, depth);
        if let Ok(a) = expr_code(es[0], fl, depth) {
            lemma_then_code_jump_free(a, exprs_code(es.drop_first(), fl, depth));
        }
    }
}

pub proof fn lemma_named_jump_free(fs: Seq<(Seq<char>, ExprV)>, fl: Seq<(Seq<char>, u64)>, depth: nat)
    ensures
        named_code(fs, fl, depth) matches Ok(c) ==> jump_free(c),
    decreases 4 * depth + 3, fs,
{
    if fs.len() > 0 {
        lemma_expr_jump_free(fs[0].1, fl, depth);
        lemma_named_jump_free(fs.drop_first(), fl, depth);
        if let Ok(a) = expr_code(fs[0].1, fl, depth) {
            lemma_then_code_jump_free(a, named_code(fs.drop_first(), fl, depth));
        }
    }
}

pub proof fn lemma_entries_jump_free(es: Seq<(ExprV, ExprV)>, fl: Seq<(Seq<char>, u64)>, depth: nat)
    ensures
        entries_code(es, fl, depth) matches Ok(c) ==> jump_free(c),
    decreases 4 * depth + 3, es,
{
    if es.len() > 0 {
        lemma_expr_jump_free(es[0].0, fl, depth);
        lemma_expr_jump_free(es[0].1, fl, depth);
        lemma_entries_jump_free(es.drop_first(), fl, depth);
        if let (Ok(a), Ok(b)) = (expr_code(es[0].0, fl, depth), expr_code(es[0].1, fl, depth)) {
            lemma_jump_free_concat(a, b);
            lemma_then_code_jump_free(a + b, entries_code(es.drop_first(), fl, depth));
        }
    }
}

pub proof fn lemma_fpart_jump_free(p: FStrPartV, first: bool, fl: Seq<(Seq<char>, u64)>, depth: nat)
    ensures
        fpart_code(p, first, fl, depth) matches Ok(c) ==> jump_free(c),
    decreases 4 * depth + 1, p,
{
    let piece: CodeRes = match p {
        FStrPartV::Literal(s) => Ok(seq![InstrV::LoadStr(s)]),
        FStrPartV::Expr(t) => if depth == 0 {
            Err(CompileErrorV::FStringTooDeep)
        } else if t.len() + 3 > usize::MAX {
            Err(CompileErrorV::FStringTooLong)
        } else {
            match spec_lex(t) {
                Ok(ts) => match p_expr(ts, 0) {
                    Ok((e, _)) => {
                        lemma_expr_jump_free(e, fl, (depth - 1) as nat);
                        match expr_code(e, fl, (depth - 1) as nat) {
                            Ok(a) => {
                                lemma_jump_free_concat(a, seq![InstrV::Stringify]);
                                assert(a.push(InstrV::Stringify) =~= a + seq![InstrV::Stringify]);
                                Ok(a.push(InstrV::Stringify))
                            },
                            Err(x) => Err(x),
                        }
                    },
                    Err(pe) => Err(CompileErrorV::FStringParse(pe)),
                },
                Err(le) => Err(CompileErrorV::FStringLex(le)),
            }
        },
    };
    if let Ok(a) = piece {
        lemma_jump_free_concat(a, seq![InstrV::Add]);
        assert(a.push(InstrV::Add) =~= a + seq![InstrV::Add]);
    }
}

pub proof fn lemma_fparts_jump_free(ps: Seq<FStrPartV>, first: bool, fl: Seq<(Seq<char>, u64)>, depth: nat)
    ensures
        fparts_code(ps, first, fl, depth) matches Ok(c) ==> jump_free(c),
    decreases 4 * depth + 2, ps,
{
    if ps.len() > 0 {
        lemma_fpart_jump_free(ps[0], first, fl, depth);
        lemma_fparts_jump_free(ps.drop_first(), false, fl, depth);
        if let Ok(a) = fpart_code(ps[0], first, fl, depth) {
            lemma_then_code_jump_free(a, fparts_code(ps.drop_first(), false, fl, depth));
        }
    }
}


proof fn lemma_within_free(c: Seq<InstrV>, limit: nat, in_loop: bool)
    requires
        no_jump(c),
    ensures
        jumps_within(c, limit, in_loop),
{
    assert forall|i: int| 0 <= i < c.len() implies match #[trigger] c[i] {
        InstrV::Jump(x) => x <= limit || (in_loop && (x == BREAK_SENTINEL || x == CONTINUE_SENTINEL)),
        _ => true,
    } by {
        assert(!(c[i] is Jump));
    }
}

proof fn lemma_within_weaken(c: Seq<InstrV>, l1: nat, l2: nat, in_loop: bool)
    requires
        jumps_within(c, l1, false),
        l1 <= l2,
    ensures
        jumps_within(c, l2, in_loop),
{
    assert forall|i: int| 0 <= i < c.len() implies match #[trigger] c[i] {
        InstrV::Jump(x) => x <= l2 || (in_loop && (x == BREAK_SENTINEL || x == CONTINUE_SENTINEL)),
        _ => true,
    } by {}
}

proof fn lemma_within_mono(c: Seq<InstrV>, l1: nat, l2: nat, in_loop: bool)
    requires
        jumps_within(c, l1, in_loop),
        l1 <= l2,
    ensures
        jumps_within(c, l2, in_loop),
{
    assert forall|i: int| 0 <= i < c.len() implies match #[trigger] c[i] {
        InstrV::Jump(x) => x <= l2 || (in_loop && (x == BREAK_SENTINEL || x == CONTINUE_SENTINEL)),
        _ => true,
    } by {}
}

proof fn lemma_within_concat(a: Seq<InstrV>, b: Seq<InstrV>, limit: nat, in_loop: bool)
    requires
        jumps_within(a, limit, in_loop),
        jumps_within(b, limit, in_loop),
    ensures
        jumps_within(a + b, limit, in_loop),
{
    assert forall|i: int| 0 <= i < (a + b).len() implies match #[trigger] (a + b)[i] {
        InstrV::Jump(x) => x <= limit || (in_loop && (x == BREAK_SENTINEL || x == CONTINUE_SENTINEL)),
        _ => true,
    } by {
        if i < a.len() {
            assert((a + b)[i] == a[i]);
        } else {
            assert((a + b)[i] == b[i - a.len()]);
        }
    }
}

proof fn lemma_within_patch(c: Seq<InstrV>, limit: nat, cont: usize, end: usize)
    requires
        jumps_within(c, limit, true),
        cont <= limit,
        end <= limit,
    ensures
        jumps_within(patch_code(c, cont, end), limit, false),
{
    let p = patch_code(c, cont, end);
    assert forall|i: int| 0 <= i < p.len() implies match #[trigger] p[i] {
        InstrV::Jump(x) => x <= limit || (false && (x == BREAK_SENTINEL || x == CONTINUE_SENTINEL)),
        _ => true,
    } by {
        assert(p[i] == patch_instr(c[i], cont, end));
        match c[i] {
            InstrV::Jump(x) => {},
            _ => {},
        }
    }
}

proof fn lemma_within_set_jumps(c: Seq<InstrV>, ends: Seq<int>, t: usize, limit: nat, in_loop: bool)
    requires
        jumps_within(c, limit, in_loop),
        t <= limit,
    ensures
        jumps_within(set_jumps(c, ends, t), limit, in_loop),
{
    let p = set_jumps(c, ends, t);
    assert forall|i: int| 0 <= i < p.len() implies match #[trigger] p[i] {
        InstrV::Jump(x) => x <= limit || (in_loop && (x == BREAK_SENTINEL || x == CONTINUE_SENTINEL)),
        _ => true,
    } by {
        if !ends.contains(i) {
            assert(p[i] == c[i]);
        }
    }
}

proof fn lemma_ex_then_free(e: ExprV, tail: Seq<InstrV>, ft: TableV, fl: Seq<(Seq<char>, u64)>)
    requires
        jump_free(tail),
    ensures
        ex_then(e, tail, ft, fl) matches Ok((c, _)) ==> jump_free(c),
{
    lemma_expr_jump_free(e, fl, fstring_depth());
    if let Ok(a) = ex(e, fl) {
        lemma_jump_free_concat(a, tail);
    }
}

proof fn lemma_while_jumps(s: StmtV, pos: nat, in_loop: bool, ft: TableV, fl: Seq<(Seq<char>, u64)>)
    requires
        s is While,
    ensures
        stmt_code(s, pos, in_loop, ft, fl) matches Ok((c, _)) ==> (pos + c.len() <= usize::MAX ==> jumps_within(
            c,
            pos + c.len(),
            in_loop,
        )),
    decreases s, 1int,
{
    match s {
        StmtV::While { condition, body } => {
            lemma_expr_jump_free(condition, fl, fstring_depth());
            if let Ok(c) = ex(condition, fl) {
                let q = pos + c.len() + 1;
                lemma_stmts_jumps(body, q, true, ft, fl);
                if let Ok((b, _)) = stmts_code(body, q, true, ft, fl) {
                    let loop_end = pos + c.len() + 1 + b.len() + 1;
                    if loop_end <= usize::MAX {
                        let raw = c + seq![InstrV::JumpIfFalse(loop_end as usize)] + b + seq![InstrV::Jump(pos as usize)];
                        lemma_no_jump_append(c, InstrV::JumpIfFalse(loop_end as usize));
                        lemma_within_free(c + seq![InstrV::JumpIfFalse(loop_end as usize)], loop_end, true);
                        lemma_within_mono(b, q + b.len(), loop_end, true);
                        lemma_within_concat(c + seq![InstrV::JumpIfFalse(loop_end as usize)], b, loop_end, true);
                        lemma_within_concat(
                            c + seq![InstrV::JumpIfFalse(loop_end as usize)] + b,
                            seq![InstrV::Jump(pos as usize)],
                            loop_end,
                            true,
                        );
                        lemma_within_patch(raw, loop_end, pos as usize, loop_end as usize);
                        lemma_within_weaken(patch_code(raw, pos as usize, loop_end as usize), loop_end, loop_end, in_loop);
                    }
                }
            }
        },
        _ => {},
    }
}

proof fn lemma_for_jumps(s: StmtV, pos: nat, in_loop: bool, ft: TableV, fl: Seq<(Seq<char>, u64)>)
    requires
        s is For,
    ensures
        stmt_code(s, pos, in_loop, ft, fl) matches Ok((c, _)) ==> (pos + c.len() <= usize::MAX ==> jumps_within(
            c,
            pos + c.len(),
            in_loop,
        )),
    decreases s, 1int,
{
    match s {
        StmtV::For { var, start, end, body } => {
            lemma_expr_jump_free(start, fl, fstring_depth());
            lemma_expr_jump_free(end, fl, fstring_depth());
            if let (Ok(cs), Ok(ce)) = (ex(start, fl), ex(end, fl)) {
                let pre = cs + seq![InstrV::StoreVar(var)] + ce + seq![InstrV::StoreVar(end_var(var))];
                lemma_jump_free_concat(cs, seq![InstrV::StoreVar(var)]);
                lemma_jump_free_concat(cs + seq![InstrV::StoreVar(var)], ce);
                lemma_jump_free_concat(cs + seq![InstrV::StoreVar(var)] + ce, seq![InstrV::StoreVar(end_var(var))]);
                let loop_start = pos + pre.len();
                lemma_stmts_jumps(body, loop_start + 4, true, ft, fl);
                if let Ok((b, _)) = stmts_code(body, loop_start + 4, true, ft, fl) {
                    let cont = loop_start + 4 + b.len();
                    let loop_end = cont + 5;
                    if loop_end <= usize::MAX {
                        let head = seq![
                            InstrV::LoadVar(var),
                            InstrV::LoadVar(end_var(var)),
                            InstrV::Lt,
                            InstrV::JumpIfFalse(loop_end as usize),
                        ];
                        let tail = seq![
                            InstrV::LoadVar(var),
                            InstrV::LoadInt(1),
                            InstrV::Add,
                            InstrV::StoreVar(var),
                            InstrV::Jump(loop_start as usize),
                        ];
                        assert(jumps_within(tail, loop_end, true)) by {
                            assert forall|i: int| 0 <= i < tail.len() implies match #[trigger] tail[i] {
                                InstrV::Jump(x) => x <= loop_end || (true && (x == BREAK_SENTINEL || x
                                    == CONTINUE_SENTINEL)),
                                _ => true,
                            } by {}
                        }
                        assert(no_jump(head));
                        lemma_within_free(head, loop_end, true);
                        lemma_within_mono(b, loop_start + 4 + b.len(), loop_end, true);
                        lemma_within_concat(head, b, loop_end, true);
                        lemma_within_concat(head + b, tail, loop_end, true);
                        lemma_within_patch(head + b + tail, loop_end, cont as usize, loop_end as usize);
                        lemma_within_free(pre, loop_end, false);
                        lemma_within_concat(pre, patch_code(head + b + tail, cont as usize, loop_end as usize), loop_end, false);
                        lemma_within_weaken(
                            pre + patch_code(head + b + tail, cont as usize, loop_end as usize),
                            loop_end,
                            loop_end,
                            in_loop,
                        );
                    }
                }
            }
        },
        _ => {},
    }
}

proof fn lemma_try_jumps(s: StmtV, pos: nat, in_loop: bool, ft: TableV, fl: Seq<(Seq<char>, u64)>)
    requires
        s is Try,
    ensures
        stmt_code(s, pos, in_loop, ft, fl) matches Ok((c, _)) ==> (pos + c.len() <= usize::MAX ==> jumps_within(
            c,
            pos + c.len(),
            in_loop,
        )),
    decreases s, 1int,
{
    match s {
        StmtV::Try { body, catch_var, catch_body } => {
            lemma_stmts_jumps(body, pos + 1, in_loop, ft, fl);
            if let Ok((b, t)) = stmts_code(body, pos + 1, in_loop, ft, fl) {
                let catch_pos = pos + 1 + b.len() + 1;
                let handler = match catch_var {
                    Some(v) => seq![InstrV::StoreVar(v)],
                    None => seq![InstrV::Pop],
                };
                lemma_stmts_jumps(catch_body, catch_pos + 1, in_loop, t, fl);
                if let Ok((cb, _)) = stmts_code(catch_body, catch_pos + 1, in_loop, t, fl) {
                    let end = catch_pos + 1 + cb.len();
                    if end <= usize::MAX {
                        let first = seq![InstrV::TryCatch(catch_pos as usize, end as usize)];
                        let jump = seq![InstrV::Jump(end as usize)];
                        assert(jumps_within(jump, end, in_loop)) by {
                            assert forall|i: int| 0 <= i < jump.len() implies match #[trigger] jump[i] {
                                InstrV::Jump(x) => x <= end || (in_loop && (x == BREAK_SENTINEL || x
                                    == CONTINUE_SENTINEL)),
                                _ => true,
                            } by {}
                        }
                        assert(no_jump(first));
                        assert(jump_free(handler));
                        lemma_within_free(first, end, in_loop);
                        lemma_within_free(handler, end, in_loop);
                        lemma_within_mono(b, pos + 1 + b.len(), end, in_loop);
                        lemma_within_concat(first, b, end, in_loop);
                        lemma_within_concat(first + b, jump, end, in_loop);
                        lemma_within_concat(first + b + jump, handler, end, in_loop);
                        lemma_within_concat(first + b + jump + handler, cb, end, in_loop);
                    }
                }
            }
        },
        _ => {},
    }
}

proof fn lemma_if_jumps(s: StmtV, pos: nat, in_loop: bool, ft: TableV, fl: Seq<(Seq<char>, u64)>)
    requires
        s is If,
    ensures
        stmt_code(s, pos, in_loop, ft, fl) matches Ok((c, _)) ==> (pos + c.len() <= usize::MAX ==> jumps_within(
            c,
            pos + c.len(),
            in_loop,
        )),
    decreases s, 1int,
{
    match s {
        StmtV::If { condition, then_body, elif_branches, else_body } => {
            lemma_branch_jumps(condition, then_body, pos, in_loop, ft, fl);
            if let Ok((c0, t1)) = branch_code(condition, then_body, pos, in_loop, ft, fl) {
                lemma_elifs_jumps(elif_branches, pos + c0.len(), in_loop, t1, fl);
                if let Ok((ce, t2, ends)) = elifs_code(elif_branches, pos + c0.len(), in_loop, t1, fl) {
                    let q = pos + c0.len() + ce.len();
                    let rest = match else_body {
                        Some(eb) => stmts_code(eb, q, in_loop, t2, fl),
                        None => Ok((Seq::empty(), t2)),
                    };
                    if let Some(eb) = else_body {
                        lemma_stmts_jumps(eb, q, in_loop, t2, fl);
                    }
                    if let Ok((cb, _)) = rest {
                        let raw = c0 + ce + cb;
                        let lim = pos + raw.len();
                        if lim <= usize::MAX {
                            lemma_within_mono(c0, pos + c0.len(), lim, in_loop);
                            lemma_within_mono(ce, pos + c0.len() + ce.len(), lim, in_loop);
                            if else_body is None {
                                lemma_within_free(cb, lim, in_loop);
                            } else {
                                lemma_within_mono(cb, q + cb.len(), lim, in_loop);
                            }
                            lemma_within_concat(c0, ce, lim, in_loop);
                            lemma_within_concat(c0 + ce, cb, lim, in_loop);
                            let all_ends = seq![c0.len() - 1] + ends.map_values(|e: int| e + c0.len());
                            lemma_within_set_jumps(raw, all_ends, lim as usize, lim, in_loop);
                        }
                    }
                }
            }
        },
        _ => {},
    }
}

/// The jumps of a statement's code stay inside it, but for the pending `break` and
/// `continue` of an enclosing loop.
pub proof fn lemma_stmt_jumps(s: StmtV, pos: nat, in_loop: bool, ft: TableV, fl: Seq<(Seq<char>, u64)>)
    ensures
        stmt_code(s, pos, in_loop, ft, fl) matches Ok((c, _)) ==> (pos + c.len() <= usize::MAX ==> jumps_within(
            c,
            pos + c.len(),
            in_loop,
        )),
    decreases s, 2int,
{
    match s {
        StmtV::Print(e) => lemma_ex_then_free(e, seq![InstrV::Print], ft, fl),
        StmtV::PrintLn(e) => lemma_ex_then_free(e, seq![InstrV::PrintLn], ft, fl),
        StmtV::Let { name, expr } => lemma_ex_then_free(expr, seq![InstrV::StoreVar(name)], ft, fl),
        StmtV::Const { name, expr } => lemma_ex_then_free(expr, seq![InstrV::StoreVar(name)], ft, fl),
        StmtV::Assign { name, expr } => lemma_ex_then_free(expr, seq![InstrV::StoreVar(name)], ft, fl),
        StmtV::Expr(e) => lemma_ex_then_free(e, seq![InstrV::Pop], ft, fl),
        StmtV::Throw(e) => lemma_ex_then_free(e, seq![InstrV::Throw], ft, fl),
        StmtV::Return(e) => {
            if let Some(x) = e {
                lemma_ex_then_free(x, seq![InstrV::Deinit, InstrV::Return], ft, fl);
            }
        },
        StmtV::FieldAssign { object, field, expr } => {
            lemma_expr_jump_free(object, fl, fstring_depth());
            lemma_expr_jump_free(expr, fl, fstring_depth());
            if let (Ok(a), Ok(b)) = (ex(object, fl), ex(expr, fl)) {
                let t = match object {
                    ExprV::Ident(n) => seq![InstrV::StoreVar(n)],
                    _ => Seq::empty(),
                };
                lemma_jump_free_concat(a, b);
                lemma_jump_free_concat(a + b, seq![InstrV::SetField(field)]);
                lemma_jump_free_concat(a + b + seq![InstrV::SetField(field)], t);
            }
        },
        StmtV::IndexAssign { object, index, expr } => {
            lemma_expr_jump_free(object, fl, fstring_depth());
            lemma_expr_jump_free(index, fl, fstring_depth());
            lemma_expr_jump_free(expr, fl, fstring_depth());
            if let (Ok(a), Ok(b), Ok(c)) = (ex(object, fl), ex(index, fl), ex(expr, fl)) {
                let t = match object {
                    ExprV::Ident(n) => seq![InstrV::StoreVar(n)],
                    _ => Seq::empty(),
                };
                lemma_jump_free_concat(a, b);
                lemma_jump_free_concat(a + b, c);
                lemma_jump_free_concat(a + b + c, seq![InstrV::IndexSet]);
                lemma_jump_free_concat(a + b + c + seq![InstrV::IndexSet], t);
            }
        },
        StmtV::While { .. } => lemma_while_jumps(s, pos, in_loop, ft, fl),
        StmtV::For { .. } => lemma_for_jumps(s, pos, in_loop, ft, fl),
        StmtV::Try { .. } => lemma_try_jumps(s, pos, in_loop, ft, fl),
        StmtV::If { .. } => lemma_if_jumps(s, pos, in_loop, ft, fl),
        _ => {},
    }
}

pub proof fn lemma_stmts_jumps(ss: Seq<StmtV>, pos: nat, in_loop: bool, ft: TableV, fl: Seq<(Seq<char>, u64)>)
    ensures
        stmts_code(ss, pos, in_loop, ft, fl) matches Ok((c, _)) ==> (pos + c.len() <= usize::MAX ==> jumps_within(
            c,
            pos + c.len(),
            in_loop,
        )),
    decreases ss, 0int,
{
    if ss.len() > 0 {
        lemma_stmt_jumps(ss[0], pos, in_loop, ft, fl);
        if let Ok((c, t)) = stmt_code(ss[0], pos, in_loop, ft, fl) {
            lemma_stmts_jumps(ss.drop_first(), pos + c.len(), in_loop, t, fl);
            if let Ok((d, _)) = stmts_code(ss.drop_first(), pos + c.len(), in_loop, t, fl) {
                if pos + c.len() + d.len() <= usize::MAX {
                    lemma_within_mono(c, pos + c.len(), pos + c.len() + d.len(), in_loop);
                    lemma_within_concat(c, d, pos + c.len() + d.len(), in_loop);
                }
            }
        }
    }
}

pub proof fn lemma_branch_jumps(cond: ExprV, body: Seq<StmtV>, pos: nat, in_loop: bool, ft: TableV, fl: Seq<(Seq<char>, u64)>)
    ensures
        branch_code(cond, body, pos, in_loop, ft, fl) matches Ok((c, _)) ==> (pos + c.len() <= usize::MAX ==> jumps_within(
            c,
            pos + c.len(),
            in_loop,
        )),
    decreases body, 1int,
{
    lemma_expr_jump_free(cond, fl, fstring_depth());
    if let Ok(c) = ex(cond, fl) {
        lemma_stmts_jumps(body, pos + c.len() + 1, in_loop, ft, fl);
        if let Ok((b, _)) = stmts_code(body, pos + c.len() + 1, in_loop, ft, fl) {
            let lim = pos + c.len() + 1 + b.len() + 1;
            if lim <= usize::MAX {
                let head = c + seq![InstrV::JumpIfFalse(lim as usize)];
                lemma_no_jump_append(c, InstrV::JumpIfFalse(lim as usize));
                lemma_within_free(head, lim, in_loop);
                lemma_within_mono(b, pos + c.len() + 1 + b.len(), lim, in_loop);
                lemma_within_concat(head, b, lim, in_loop);
                let z = seq![InstrV::Jump(0)];
                assert(jumps_within(z, lim, in_loop)) by {
                    assert forall|i: int| 0 <= i < z.len() implies match #[trigger] z[i] {
                        InstrV::Jump(x) => x <= lim || (in_loop && (x == BREAK_SENTINEL || x == CONTINUE_SENTINEL)),
                        _ => true,
                    } by {}
                }
                lemma_within_concat(head + b, z, lim, in_loop);
            }
        }
    }
}

pub proof fn lemma_elifs_jumps(es: Seq<(ExprV, Seq<StmtV>)>, pos: nat, in_loop: bool, ft: TableV, fl: Seq<(Seq<char>, u64)>)
    ensures
        elifs_code(es, pos, in_loop, ft, fl) matches Ok((c, _, _)) ==> (pos + c.len() <= usize::MAX ==> jumps_within(
            c,
            pos + c.len(),
            in_loop,
        )),
    decreases es, 0int,
{
    if es.len() == 0 {
        lemma_within_free(Seq::empty(), pos, in_loop);
    } else {
        lemma_branch_jumps(es[0].0, es[0].1, pos, in_loop, ft, fl);
        if let Ok((c, t)) = branch_code(es[0].0, es[0].1, pos, in_loop, ft, fl) {
            lemma_elifs_jumps(es.drop_first(), pos + c.len(), in_loop, t, fl);
            if let Ok((d, _, _)) = elifs_code(es.drop_first(), pos + c.len(), in_loop, t, fl) {
                if pos + c.len() + d.len() <= usize::MAX {
                    lemma_within_mono(c, pos + c.len(), pos + c.len() + d.len(), in_loop);
                    lemma_within_concat(c, d, pos + c.len() + d.len(), in_loop);
                }
            }
        }
    }
}

/// A compiled program leaves no `break` or `continue` pending: each went to its loop,
/// and no other jump has a pending target (the code is shorter than those targets).
pub proof fn law_no_pending_jumps(ss: Seq<StmtV>, fl: Seq<(Seq<char>, u64)>)
    ensures
        program_code(ss, fl) matches Ok((c, _)) ==> (c.len() < CONTINUE_SENTINEL ==> forall|i: int|
            0 <= i < c.len() ==> #[trigger] c[i] != InstrV::Jump(BREAK_SENTINEL) && c[i] != InstrV::Jump(
                CONTINUE_SENTINEL,
            )),
{
    lemma_stmts_jumps(ss, 0, false, Seq::empty(), fl);
    if let Ok((c, _)) = stmts_code(ss, 0, false, Seq::empty(), fl) {
        let full = c + seq![InstrV::Deinit, InstrV::Halt];
        if full.len() < CONTINUE_SENTINEL {
            assert forall|i: int| 0 <= i < full.len() implies #[trigger] full[i] != InstrV::Jump(BREAK_SENTINEL)
                && full[i] != InstrV::Jump(CONTINUE_SENTINEL) by {
                if i < c.len() {
                    assert(full[i] == c[i]);
                    match c[i] {
                        InstrV::Jump(x) => {},
                        _ => {},
                    }
                }
            }
        }
    }
}

/// A compiled program ends with `Deinit, Halt`, and each of its `Jump`s goes to an
/// instruction of the program (a position before the final `Deinit`).
pub proof fn law_program_shape(ss: Seq<StmtV>, fl: Seq<(Seq<char>, u64)>)
    ensures
        program_code(ss, fl) matches Ok((c, _)) ==> {
            &&& c.len() >= 2
            &&& c[c.len() - 2] == InstrV::Deinit
            &&& c[c.len() - 1] == InstrV::Halt
            &&& (c.len() <= usize::MAX ==> forall|i: int| 0 <= i < c.len() ==> match #[trigger] c[i] {
                InstrV::Jump(x) => x < c.len() - 1,
                _ => true,
            })
        },
{
    lemma_stmts_jumps(ss, 0, false, Seq::empty(), fl);
    if let Ok((c, _)) = stmts_code(ss, 0, false, Seq::empty(), fl) {
        let full = c + seq![InstrV::Deinit, InstrV::Halt];
        assert(full[full.len() - 2] == InstrV::Deinit);
        assert(full[full.len() - 1] == InstrV::Halt);
        if full.len() <= usize::MAX {
            assert forall|i: int| 0 <= i < full.len() implies match #[trigger] full[i] {
                InstrV::Jump(x) => x < full.len() - 1,
                _ => true,
            } by {
                if i < c.len() {
                    assert(full[i] == c[i]);
                    match c[i] {
                        InstrV::Jump(x) => {},
                        _ => {},
                    }
                }
            }
        }
    }
}

/// Emitting an expression only appends to the chunk: whenever `compile_expression`'s
/// contract holds of a successful call, the old code is a prefix of the new.
pub proof fn law_expression_emission_appends(r: Result<(), CompileError>, before: Seq<InstrV>, after: Seq<InstrV>, s: CodeRes)
    requires
        code_agrees(r, before, after, s),
        r is Ok,
    ensures
        before.len() <= after.len(),
        after.subrange(0, before.len() as int) == before,
{
    assert(after.subrange(0, before.len() as int) =~= before);
}

/// Emitting a statement only appends to the chunk: whenever a statement's emission contract
/// holds of a successful call, the old code is a prefix of the new.
pub proof fn law_statement_emission_appends(
    r: Result<(), CompileError>,
    before: Seq<InstrV>,
    after: Seq<InstrV>,
    table: TableV,
    s: StmtRes,
)
    requires
        emit_agrees(r, before, after, table, s),
        r is Ok,
    ensures
        before.len() <= after.len(),
        after.subrange(0, before.len() as int) == before,
{
    assert(after.subrange(0, before.len() as int) =~= before);
}

/// The code of a compiled function ends with `Deinit, Return`.
pub open spec fn ends_as_function(c: Seq<InstrV>) -> bool {
    c.len() >= 2 && c[c.len() - 2] == InstrV::Deinit && c[c.len() - 1] == InstrV::Return
}

/// Every jump of the code goes to one of its instructions, and every handler
/// `TryCatch(a, b)` has `a <= b` inside the code.
pub open spec fn jumps_inside(c: Seq<InstrV>) -> bool {
    c.len() <= usize::MAX ==> forall|i: int| 0 <= i < c.len() ==> match #[trigger] c[i] {
        InstrV::Jump(x) => x < c.len(),
        InstrV::JumpIfFalse(x) => x < c.len(),
        InstrV::TryCatch(a, b) => a <= b && b < c.len(),
        _ => true,
    }
}

/// Every function of a table ends with `Deinit, Return`, and its jumps stay inside it.
pub open spec fn table_functions_end(t: TableV) -> bool {
    forall|k: int| 0 <= k < t.len() ==> ends_as_function(#[trigger] t[k].1.code) && jumps_inside(t[k].1.code)
}

proof fn lemma_function_jumps(body: Seq<StmtV>, ft: TableV, fl: Seq<(Seq<char>, u64)>, params: Seq<Seq<char>>)
    ensures
        stmts_code(body, 0, false, ft, fl) matches Ok((c, _)) ==> jumps_inside(func_of(c, params).code),
{
    lemma_stmts_jumps(body, 0, false, ft, fl);
    lemma_stmts_ctl(body, 0, false, ft, fl);
    if let Ok((c, _)) = stmts_code(body, 0, false, ft, fl) {
        let code = func_of(c, params).code;
        if code.len() <= usize::MAX {
            assert forall|i: int| 0 <= i < code.len() implies match #[trigger] code[i] {
                InstrV::Jump(x) => x < code.len(),
                InstrV::JumpIfFalse(x) => x < code.len(),
                InstrV::TryCatch(a, b) => a <= b && b < code.len(),
                _ => true,
            } by {
                if i < c.len() {
                    assert(code[i] == c[i]);
                    match c[i] {
                        InstrV::Jump(x) => {},
                        InstrV::JumpIfFalse(x) => {},
                        InstrV::TryCatch(a, b) => {},
                        _ => {},
                    }
                }
            }
        }
    }
}

proof fn lemma_table_insert_func(t: TableV, name: Seq<char>, c: Seq<InstrV>, params: Seq<Seq<char>>)
    requires
        table_functions_end(t),
        jumps_inside(func_of(c, params).code),
    ensures
        table_functions_end(table_insert(t, name, func_of(c, params))),
{
    let f = func_of(c, params);
    assert(ends_as_function(f.code));
    let u = table_insert(t, name, f);
    lemma_index_of_name(t, name);
    let i = index_of_name(t, name);
    assert forall|k: int| 0 <= k < u.len() implies ends_as_function(#[trigger] u[k].1.code) && jumps_inside(u[k].1.code) by {
        if k == i || k == t.len() {
            assert(u[k].1 == f);
        } else {
            assert(u[k] == t[k]);
        }
    }
}

proof fn lemma_stmt_table(s: StmtV, pos: nat, in_loop: bool, ft: TableV, fl: Seq<(Seq<char>, u64)>)
    requires
        table_functions_end(ft),
    ensures
        stmt_code(s, pos, in_loop, ft, fl) matches Ok((_, t)) ==> table_functions_end(t),
    decreases s, 2int,
{
    match s {
        StmtV::FunctionDef { name, params, body } => {
            lemma_stmts_table(body, 0, false, ft, fl);
            lemma_function_jumps(body, ft, fl, params);
            if let Ok((c, t)) = stmts_code(body, 0, false, ft, fl) {
                lemma_table_insert_func(t, name, c, params);
            }
        },
        StmtV::TypeDef { name, fields, methods } => {
            lemma_methods_table(name, methods, ft, fl);
        },
        StmtV::While { condition, body } => {
            if let Ok(c) = ex(condition, fl) {
                lemma_stmts_table(body, pos + c.len() + 1, true, ft, fl);
            }
        },
        StmtV::For { var, start, end, body } => {
            if let (Ok(cs), Ok(ce)) = (ex(start, fl), ex(end, fl)) {
                let pre = cs + seq![InstrV::StoreVar(var)] + ce + seq![InstrV::StoreVar(end_var(var))];
                lemma_stmts_table(body, pos + pre.len() + 4, true, ft, fl);
            }
        },
        StmtV::Try { body, catch_var, catch_body } => {
            lemma_stmts_table(body, pos + 1, in_loop, ft, fl);
            if let Ok((b, t)) = stmts_code(body, pos + 1, in_loop, ft, fl) {
                lemma_stmts_table(catch_body, pos + 1 + b.len() + 1 + 1, in_loop, t, fl);
            }
        },
        StmtV::If { condition, then_body, elif_branches, else_body } => {
            lemma_branch_table(condition, then_body, pos, in_loop, ft, fl);
            if let Ok((c0, t1)) = branch_code(condition, then_body, pos, in_loop, ft, fl) {
                lemma_elifs_table(elif_branches, pos + c0.len(), in_loop, t1, fl);
                if let Ok((ce, t2, _)) = elifs_code(elif_branches, pos + c0.len(), in_loop, t1, fl) {
                    if let Some(eb) = else_body {
                        lemma_stmts_table(eb, pos + c0.len() + ce.len(), in_loop, t2, fl);
                    }
                }
            }
        },
        _ => {},
    }
}

proof fn lemma_stmts_table(ss: Seq<StmtV>, pos: nat, in_loop: bool, ft: TableV, fl: Seq<(Seq<char>, u64)>)
    requires
        table_functions_end(ft),
    ensures
        stmts_code(ss, pos, in_loop, ft, fl) matches Ok((_, t)) ==> table_functions_end(t),
    decreases ss, 0int,
{
    if ss.len() > 0 {
        lemma_stmt_table(ss[0], pos, in_loop, ft, fl);
        if let Ok((c, t)) = stmt_code(ss[0], pos, in_loop, ft, fl) {
            lemma_stmts_table(ss.drop_first(), pos + c.len(), in_loop, t, fl);
        }
    }
}

proof fn lemma_branch_table(cond: ExprV, body: Seq<StmtV>, pos: nat, in_loop: bool, ft: TableV, fl: Seq<(Seq<char>, u64)>)
    requires
        table_functions_end(ft),
    ensures
        branch_code(cond, body, pos, in_loop, ft, fl) matches Ok((_, t)) ==> table_functions_end(t),
    decreases body, 1int,
{
    if let Ok(c) = ex(cond, fl) {
        lemma_stmts_table(body, pos + c.len() + 1, in_loop, ft, fl);
    }
}

proof fn lemma_elifs_table(es: Seq<(ExprV, Seq<StmtV>)>, pos: nat, in_loop: bool, ft: TableV, fl: Seq<(Seq<char>, u64)>)
    requires
        table_functions_end(ft),
    ensures
        elifs_code(es, pos, in_loop, ft, fl) matches Ok((_, t, _)) ==> table_functions_end(t),
    decreases es, 0int,
{
    if es.len() > 0 {
        lemma_branch_table(es[0].0, es[0].1, pos, in_loop, ft, fl);
        if let Ok((c, t)) = branch_code(es[0].0, es[0].1, pos, in_loop, ft, fl) {
            lemma_elifs_table(es.drop_first(), pos + c.len(), in_loop, t, fl);
        }
    }
}

proof fn lemma_methods_table(name: Seq<char>, ms: Seq<(Seq<char>, Seq<Seq<char>>, Seq<StmtV>)>, ft: TableV, fl: Seq<(Seq<char>, u64)>)
    requires
        table_functions_end(ft),
    ensures
        methods_code(name, ms, ft, fl) matches Ok(t) ==> table_functions_end(t),
    decreases ms, 0int,
{
    if ms.len() > 0 {
        lemma_stmts_table(ms[0].2, 0, false, ft, fl);
        lemma_function_jumps(ms[0].2, ft, fl, ms[0].1);
        if let Ok((c, t)) = stmts_code(ms[0].2, 0, false, ft, fl) {
            lemma_table_insert_func(t, mangled(name, ms[0].0), c, ms[0].1);
            lemma_methods_table(name, ms.drop_first(), table_insert(t, mangled(name, ms[0].0), func_of(c, ms[0].1)), fl);
        }
    }
}

/// Every function and method of a compiled program ends with `Deinit, Return`, each of its
/// jumps goes to one of its own instructions, and each handler stays inside it.
pub proof fn law_functions_end_with_return(ss: Seq<StmtV>, fl: Seq<(Seq<char>, u64)>)
    ensures
        program_code(ss, fl) matches Ok((_, t)) ==> table_functions_end(t),
{
    lemma_stmts_table(ss, 0, false, Seq::empty(), fl);
}

/// Whether a statement defines nothing: no function or type definition at any depth.
pub open spec fn defines_nothing(s: StmtV) -> bool
    decreases s, 1int,
{
    match s {
        StmtV::FunctionDef { .. } => false,
        StmtV::TypeDef { .. } => false,
        StmtV::If { condition, then_body, elif_branches, else_body } => {
            &&& all_define_nothing(then_body)
            &&& elifs_define_nothing(elif_branches)
            &&& match else_body {
                Some(eb) => all_define_nothing(eb),
                None => true,
            }
        },
        StmtV::While { condition, body } => all_define_nothing(body),
        StmtV::For { var, start, end, body } => all_define_nothing(body),
        StmtV::Try { body, catch_var, catch_body } => all_define_nothing(body) && all_define_nothing(catch_body),
        _ => true,
    }
}

pub open spec fn all_define_nothing(ss: Seq<StmtV>) -> bool
    decreases ss, 0int,
{
    forall|k: int| 0 <= k < ss.len() ==> defines_nothing(#[trigger] ss[k])
}

pub open spec fn elifs_define_nothing(es: Seq<(ExprV, Seq<StmtV>)>) -> bool
    decreases es, 0int,
{
    forall|k: int| 0 <= k < es.len() ==> all_define_nothing(#[trigger] es[k].1)
}

proof fn lemma_stmt_keeps_table(s: StmtV, pos: nat, in_loop: bool, ft: TableV, fl: Seq<(Seq<char>, u64)>)
    requires
        defines_nothing(s),
    ensures
        stmt_code(s, pos, in_loop, ft, fl) matches Ok((_, t)) ==> t == ft,
    decreases s, 2int,
{
    match s {
        StmtV::While { condition, body } => {
            if let Ok(c) = ex(condition, fl) {
                lemma_stmts_keep_table(body, pos + c.len() + 1, true, ft, fl);
            }
        },
        StmtV::For { var, start, end, body } => {
            if let (Ok(cs), Ok(ce)) = (ex(start, fl), ex(end, fl)) {
                let pre = cs + seq![InstrV::StoreVar(var)] + ce + seq![InstrV::StoreVar(end_var(var))];
                lemma_stmts_keep_table(body, pos + pre.len() + 4, true, ft, fl);
            }
        },
        StmtV::Try { body, catch_var, catch_body } => {
            lemma_stmts_keep_table(body, pos + 1, in_loop, ft, fl);
            if let Ok((b, t)) = stmts_code(body, pos + 1, in_loop, ft, fl) {
                lemma_stmts_keep_table(catch_body, pos + 1 + b.len() + 1 + 1, in_loop, t, fl);
            }
        },
        StmtV::If { condition, then_body, elif_branches, else_body } => {
            lemma_branch_keeps_table(condition, then_body, pos, in_loop, ft, fl);
            if let Ok((c0, t1)) = branch_code(condition, then_body, pos, in_loop, ft, fl) {
                lemma_elifs_keep_table(elif_branches, pos + c0.len(), in_loop, t1, fl);
                if let Ok((ce, t2, _)) = elifs_code(elif_branches, pos + c0.len(), in_loop, t1, fl) {
                    if let Some(eb) = else_body {
                        lemma_stmts_keep_table(eb, pos + c0.len() + ce.len(), in_loop, t2, fl);
                    }
                }
            }
        },
        _ => {},
    }
}

proof fn lemma_stmts_keep_table(ss: Seq<StmtV>, pos: nat, in_loop: bool, ft: TableV, fl: Seq<(Seq<char>, u64)>)
    requires
        all_define_nothing(ss),
    ensures
        stmts_code(ss, pos, in_loop, ft, fl) matches Ok((_, t)) ==> t == ft,
    decreases ss, 0int,
{
    if ss.len() > 0 {
        assert(defines_nothing(ss[0]));
        lemma_stmt_keeps_table(ss[0], pos, in_loop, ft, fl);
        if let Ok((c, t)) = stmt_code(ss[0], pos, in_loop, ft, fl) {
            let rest = ss.drop_first();
            assert forall|k: int| 0 <= k < rest.len() implies defines_nothing(#[trigger] rest[k]) by {
                assert(rest[k] == ss[k + 1]);
            }
            lemma_stmts_keep_table(rest, pos + c.len(), in_loop, t, fl);
        }
    }
}

proof fn lemma_branch_keeps_table(cond: ExprV, body: Seq<StmtV>, pos: nat, in_loop: bool, ft: TableV, fl: Seq<(Seq<char>, u64)>)
    requires
        all_define_nothing(body),
    ensures
        branch_code(cond, body, pos, in_loop, ft, fl) matches Ok((_, t)) ==> t == ft,
    decreases body, 1int,
{
    if let Ok(c) = ex(cond, fl) {
        lemma_stmts_keep_table(body, pos + c.len() + 1, in_loop, ft, fl);
    }
}

proof fn lemma_elifs_keep_table(es: Seq<(ExprV, Seq<StmtV>)>, pos: nat, in_loop: bool, ft: TableV, fl: Seq<(Seq<char>, u64)>)
    requires
        elifs_define_nothing(es),
    ensures
        elifs_code(es, pos, in_loop, ft, fl) matches Ok((_, t, _)) ==> t == ft,
    decreases es, 0int,
{
    if es.len() > 0 {
        assert(all_define_nothing(es[0].1));
        lemma_branch_keeps_table(es[0].0, es[0].1, pos, in_loop, ft, fl);
        if let Ok((c, t)) = branch_code(es[0].0, es[0].1, pos, in_loop, ft, fl) {
            let rest = es.drop_first();
            assert forall|k: int| 0 <= k < rest.len() implies all_define_nothing(#[trigger] rest[k].1) by {
                assert(rest[k] == es[k + 1]);
            }
            lemma_elifs_keep_table(rest, pos + c.len(), in_loop, t, fl);
        }
    }
}

/// Compiling a statement that defines no function or type leaves the function table as it
/// was.
pub proof fn law_statement_keeps_table(s: StmtV, pos: nat, in_loop: bool, ft: TableV, fl: Seq<(Seq<char>, u64)>)
    requires
        defines_nothing(s),
    ensures
        stmt_code(s, pos, in_loop, ft, fl) matches Ok((_, t)) ==> t == ft,
{
    lemma_stmt_keeps_table(s, pos, in_loop, ft, fl);
}

/// Code whose conditional jumps go at most to `limit`, and whose handlers `TryCatch(a, b)`
/// have `a <= b <= limit`.
pub open spec fn ctl_within(c: Seq<InstrV>, limit: nat) -> bool {
    forall|i: int|
        0 <= i < c.len() ==> match #[trigger] c[i] {
            InstrV::JumpIfFalse(x) => x <= limit,
            InstrV::TryCatch(a, b) => a <= b && b <= limit,
            _ => true,
        }
}

proof fn lemma_ctl_free(c: Seq<InstrV>, limit: nat)
    requires
        jump_free(c),
    ensures
        ctl_within(c, limit),
{
    assert forall|i: int| 0 <= i < c.len() implies match #[trigger] c[i] {
        InstrV::JumpIfFalse(x) => x <= limit,
        InstrV::TryCatch(a, b) => a <= b && b <= limit,
        _ => true,
    } by {
        assert(!(c[i] is JumpIfFalse) && !(c[i] is TryCatch));
    }
}

proof fn lemma_ctl_mono(c: Seq<InstrV>, l1: nat, l2: nat)
    requires
        ctl_within(c, l1),
        l1 <= l2,
    ensures
        ctl_within(c, l2),
{
    assert forall|i: int| 0 <= i < c.len() implies match #[trigger] c[i] {
        InstrV::JumpIfFalse(x) => x <= l2,
        InstrV::TryCatch(a, b) => a <= b && b <= l2,
        _ => true,
    } by {}
}

proof fn lemma_ctl_concat(a: Seq<InstrV>, b: Seq<InstrV>, limit: nat)
    requires
        ctl_within(a, limit),
        ctl_within(b, limit),
    ensures
        ctl_within(a + b, limit),
{
    assert forall|i: int| 0 <= i < (a + b).len() implies match #[trigger] (a + b)[i] {
        InstrV::JumpIfFalse(x) => x <= limit,
        InstrV::TryCatch(p, q) => p <= q && q <= limit,
        _ => true,
    } by {
        if i < a.len() {
            assert((a + b)[i] == a[i]);
        } else {
            assert((a + b)[i] == b[i - a.len()]);
        }
    }
}

proof fn lemma_ctl_one(x: InstrV, limit: nat)
    requires
        match x {
            InstrV::JumpIfFalse(t) => t <= limit,
            InstrV::TryCatch(a, b) => a <= b && b <= limit,
            _ => true,
        },
    ensures
        ctl_within(seq![x], limit),
{
    assert forall|i: int| 0 <= i < seq![x].len() implies match #[trigger] seq![x][i] {
        InstrV::JumpIfFalse(t) => t <= limit,
        InstrV::TryCatch(a, b) => a <= b && b <= limit,
        _ => true,
    } by {
        assert(seq![x][i] == x);
    }
}

proof fn lemma_ctl_patch(c: Seq<InstrV>, limit: nat, cont: usize, end: usize)
    requires
        ctl_within(c, limit),
    ensures
        ctl_within(patch_code(c, cont, end), limit),
{
    let p = patch_code(c, cont, end);
    assert forall|i: int| 0 <= i < p.len() implies match #[trigger] p[i] {
        InstrV::JumpIfFalse(x) => x <= limit,
        InstrV::TryCatch(a, b) => a <= b && b <= limit,
        _ => true,
    } by {
        assert(p[i] == patch_instr(c[i], cont, end));
        match c[i] {
            InstrV::Jump(x) => {},
            _ => {},
        }
    }
}

proof fn lemma_ctl_set_jumps(c: Seq<InstrV>, ends: Seq<int>, t: usize, limit: nat)
    requires
        ctl_within(c, limit),
    ensures
        ctl_within(set_jumps(c, ends, t), limit),
{
    let p = set_jumps(c, ends, t);
    assert forall|i: int| 0 <= i < p.len() implies match #[trigger] p[i] {
        InstrV::JumpIfFalse(x) => x <= limit,
        InstrV::TryCatch(a, b) => a <= b && b <= limit,
        _ => true,
    } by {
        if !ends.contains(i) {
            assert(p[i] == c[i]);
        }
    }
}

proof fn lemma_while_ctl(s: StmtV, pos: nat, in_loop: bool, ft: TableV, fl: Seq<(Seq<char>, u64)>)
    requires
        s is While,
    ensures
        stmt_code(s, pos, in_loop, ft, fl) matches Ok((c, _)) ==> (pos + c.len() <= usize::MAX ==> ctl_within(c, pos + c.len())),
    decreases s, 1int,
{
    match s {
        StmtV::While { condition, body } => {
            lemma_expr_jump_free(condition, fl, fstring_depth());
            if let Ok(c) = ex(condition, fl) {
                let q = pos + c.len() + 1;
                lemma_stmts_ctl(body, q, true, ft, fl);
                if let Ok((b, _)) = stmts_code(body, q, true, ft, fl) {
                    let loop_end = pos + c.len() + 1 + b.len() + 1;
                    if loop_end <= usize::MAX {
                        let raw = c + seq![InstrV::JumpIfFalse(loop_end as usize)] + b + seq![InstrV::Jump(pos as usize)];
                        lemma_ctl_free(c, loop_end);
                        lemma_ctl_one(InstrV::JumpIfFalse(loop_end as usize), loop_end);
                        lemma_ctl_one(InstrV::Jump(pos as usize), loop_end);
                        lemma_ctl_mono(b, q + b.len(), loop_end);
                        lemma_ctl_concat(c, seq![InstrV::JumpIfFalse(loop_end as usize)], loop_end);
                        lemma_ctl_concat(c + seq![InstrV::JumpIfFalse(loop_end as usize)], b, loop_end);
                        lemma_ctl_concat(c + seq![InstrV::JumpIfFalse(loop_end as usize)] + b, seq![InstrV::Jump(pos as usize)], loop_end);
                        lemma_ctl_patch(raw, loop_end, pos as usize, loop_end as usize);
                    }
                }
            }
        },
        _ => {},
    }
}

proof fn lemma_for_ctl(s: StmtV, pos: nat, in_loop: bool, ft: TableV, fl: Seq<(Seq<char>, u64)>)
    requires
        s is For,
    ensures
        stmt_code(s, pos, in_loop, ft, fl) matches Ok((c, _)) ==> (pos + c.len() <= usize::MAX ==> ctl_within(c, pos + c.len())),
    decreases s, 1int,
{
    match s {
        StmtV::For { var, start, end, body } => {
            lemma_expr_jump_free(start, fl, fstring_depth());
            lemma_expr_jump_free(end, fl, fstring_depth());
            if let (Ok(cs), Ok(ce)) = (ex(start, fl), ex(end, fl)) {
                let pre = cs + seq![InstrV::StoreVar(var)] + ce + seq![InstrV::StoreVar(end_var(var))];
                lemma_jump_free_concat(cs, seq![InstrV::StoreVar(var)]);
                lemma_jump_free_concat(cs + seq![InstrV::StoreVar(var)], ce);
                lemma_jump_free_concat(cs + seq![InstrV::StoreVar(var)] + ce, seq![InstrV::StoreVar(end_var(var))]);
                let loop_start = pos + pre.len();
                lemma_stmts_ctl(body, loop_start + 4, true, ft, fl);
                if let Ok((b, _)) = stmts_code(body, loop_start + 4, true, ft, fl) {
                    let cont = loop_start + 4 + b.len();
                    let loop_end = cont + 5;
                    if loop_end <= usize::MAX {
                        let head = seq![
                            InstrV::LoadVar(var),
                            InstrV::LoadVar(end_var(var)),
                            InstrV::Lt,
                            InstrV::JumpIfFalse(loop_end as usize),
                        ];
                        let tail = seq![
                            InstrV::LoadVar(var),
                            InstrV::LoadInt(1),
                            InstrV::Add,
                            InstrV::StoreVar(var),
                            InstrV::Jump(loop_start as usize),
                        ];
                        assert(ctl_within(head, loop_end)) by {
                            assert forall|i: int| 0 <= i < head.len() implies match #[trigger] head[i] {
                                InstrV::JumpIfFalse(x) => x <= loop_end,
                                InstrV::TryCatch(a, b) => a <= b && b <= loop_end,
                                _ => true,
                            } by {}
                        }
                        assert(ctl_within(tail, loop_end)) by {
                            assert forall|i: int| 0 <= i < tail.len() implies match #[trigger] tail[i] {
                                InstrV::JumpIfFalse(x) => x <= loop_end,
                                InstrV::TryCatch(a, b) => a <= b && b <= loop_end,
                                _ => true,
                            } by {}
                        }
                        lemma_ctl_mono(b, loop_start + 4 + b.len(), loop_end);
                        lemma_ctl_concat(head, b, loop_end);
                        lemma_ctl_concat(head + b, tail, loop_end);
                        lemma_ctl_patch(head + b + tail, loop_end, cont as usize, loop_end as usize);
                        lemma_ctl_free(pre, loop_end);
                        lemma_ctl_concat(pre, patch_code(head + b + tail, cont as usize, loop_end as usize), loop_end);
                    }
                }
            }
        },
        _ => {},
    }
}

proof fn lemma_try_ctl(s: StmtV, pos: nat, in_loop: bool, ft: TableV, fl: Seq<(Seq<char>, u64)>)
    requires
        s is Try,
    ensures
        stmt_code(s, pos, in_loop, ft, fl) matches Ok((c, _)) ==> (pos + c.len() <= usize::MAX ==> ctl_within(c, pos + c.len())),
    decreases s, 1int,
{
    match s {
        StmtV::Try { body, catch_var, catch_body } => {
            lemma_stmts_ctl(body, pos + 1, in_loop, ft, fl);
            if let Ok((b, t)) = stmts_code(body, pos + 1, in_loop, ft, fl) {
                let catch_pos = pos + 1 + b.len() + 1;
                let handler = match catch_var {
                    Some(v) => seq![InstrV::StoreVar(v)],
                    None => seq![InstrV::Pop],
                };
                lemma_stmts_ctl(catch_body, catch_pos + 1, in_loop, t, fl);
                if let Ok((cb, _)) = stmts_code(catch_body, catch_pos + 1, in_loop, t, fl) {
                    let end = catch_pos + 1 + cb.len();
                    if end <= usize::MAX {
                        let first = seq![InstrV::TryCatch(catch_pos as usize, end as usize)];
                        let jump = seq![InstrV::Jump(end as usize)];
                        lemma_ctl_one(InstrV::TryCatch(catch_pos as usize, end as usize), end);
                        lemma_ctl_one(InstrV::Jump(end as usize), end);
                        assert(jump_free(handler));
                        lemma_ctl_free(handler, end);
                        lemma_ctl_mono(b, pos + 1 + b.len(), end);
                        lemma_ctl_concat(first, b, end);
                        lemma_ctl_concat(first + b, jump, end);
                        lemma_ctl_concat(first + b + jump, handler, end);
                        lemma_ctl_concat(first + b + jump + handler, cb, end);
                    }
                }
            }
        },
        _ => {},
    }
}

proof fn lemma_if_ctl(s: StmtV, pos: nat, in_loop: bool, ft: TableV, fl: Seq<(Seq<char>, u64)>)
    requires
        s is If,
    ensures
        stmt_code(s, pos, in_loop, ft, fl) matches Ok((c, _)) ==> (pos + c.len() <= usize::MAX ==> ctl_within(c, pos + c.len())),
    decreases s, 1int,
{
    match s {
        StmtV::If { condition, then_body, elif_branches, else_body } => {
            lemma_branch_ctl(condition, then_body, pos, in_loop, ft, fl);
            if let Ok((c0, t1)) = branch_code(condition, then_body, pos, in_loop, ft, fl) {
                lemma_elifs_ctl(elif_branches, pos + c0.len(), in_loop, t1, fl);
                if let Ok((ce, t2, ends)) = elifs_code(elif_branches, pos + c0.len(), in_loop, t1, fl) {
                    let q = pos + c0.len() + ce.len();
                    let rest = match else_body {
                        Some(eb) => stmts_code(eb, q, in_loop, t2, fl),
                        None => Ok((Seq::empty(), t2)),
                    };
                    if let Some(eb) = else_body {
                        lemma_stmts_ctl(eb, q, in_loop, t2, fl);
                    }
                    if let Ok((cb, _)) = rest {
                        let raw = c0 + ce + cb;
                        let lim = pos + raw.len();
                        if lim <= usize::MAX {
                            lemma_ctl_mono(c0, pos + c0.len(), lim);
                            lemma_ctl_mono(ce, pos + c0.len() + ce.len(), lim);
                            if else_body is None {
                                assert(cb.len() == 0);
                                lemma_ctl_free(cb, lim);
                            } else {
                                lemma_ctl_mono(cb, q + cb.len(), lim);
                            }
                            lemma_ctl_concat(c0, ce, lim);
                            lemma_ctl_concat(c0 + ce, cb, lim);
                            let all_ends = seq![c0.len() - 1] + ends.map_values(|e: int| e + c0.len());
                            lemma_ctl_set_jumps(raw, all_ends, lim as usize, lim);
                        }
                    }
                }
            }
        },
        _ => {},
    }
}

/// The conditional jumps and handlers of a statement's code stay inside it.
pub proof fn lemma_stmt_ctl(s: StmtV, pos: nat, in_loop: bool, ft: TableV, fl: Seq<(Seq<char>, u64)>)
    ensures
        stmt_code(s, pos, in_loop, ft, fl) matches Ok((c, _)) ==> (pos + c.len() <= usize::MAX ==> ctl_within(c, pos + c.len())),
    decreases s, 2int,
{
    match s {
        StmtV::While { .. } => lemma_while_ctl(s, pos, in_loop, ft, fl),
        StmtV::For { .. } => lemma_for_ctl(s, pos, in_loop, ft, fl),
        StmtV::Try { .. } => lemma_try_ctl(s, pos, in_loop, ft, fl),
        StmtV::If { .. } => lemma_if_ctl(s, pos, in_loop, ft, fl),
        StmtV::Print(e) => lemma_ex_then_free(e, seq![InstrV::Print], ft, fl),
        StmtV::PrintLn(e) => lemma_ex_then_free(e, seq![InstrV::PrintLn], ft, fl),
        StmtV::Let { name, expr } => lemma_ex_then_free(expr, seq![InstrV::StoreVar(name)], ft, fl),
        StmtV::Const { name, expr } => lemma_ex_then_free(expr, seq![InstrV::StoreVar(name)], ft, fl),
        StmtV::Assign { name, expr } => lemma_ex_then_free(expr, seq![InstrV::StoreVar(name)], ft, fl),
        StmtV::Expr(e) => lemma_ex_then_free(e, seq![InstrV::Pop], ft, fl),
        StmtV::Throw(e) => lemma_ex_then_free(e, seq![InstrV::Throw], ft, fl),
        StmtV::Return(e) => {
            if let Some(x) = e {
                lemma_ex_then_free(x, seq![InstrV::Deinit, InstrV::Return], ft, fl);
            }
        },
        StmtV::FieldAssign { object, field, expr } => {
            lemma_expr_jump_free(object, fl, fstring_depth());
            lemma_expr_jump_free(expr, fl, fstring_depth());
            if let (Ok(a), Ok(b)) = (ex(object, fl), ex(expr, fl)) {
                let t = match object {
                    ExprV::Ident(n) => seq![InstrV::StoreVar(n)],
                    _ => Seq::empty(),
                };
                lemma_jump_free_concat(a, b);
                lemma_jump_free_concat(a + b, seq![InstrV::SetField(field)]);
                lemma_jump_free_concat(a + b + seq![InstrV::SetField(field)], t);
            }
        },
        StmtV::IndexAssign { object, index, expr } => {
            lemma_expr_jump_free(object, fl, fstring_depth());
            lemma_expr_jump_free(index, fl, fstring_depth());
            lemma_expr_jump_free(expr, fl, fstring_depth());
            if let (Ok(a), Ok(b), Ok(c)) = (ex(object, fl), ex(index, fl), ex(expr, fl)) {
                let t = match object {
                    ExprV::Ident(n) => seq![InstrV::StoreVar(n)],
                    _ => Seq::empty(),
                };
                lemma_jump_free_concat(a, b);
                lemma_jump_free_concat(a + b, c);
                lemma_jump_free_concat(a + b + c, seq![InstrV::IndexSet]);
                lemma_jump_free_concat(a + b + c + seq![InstrV::IndexSet], t);
            }
        },
        _ => {},
    }
    if let Ok((c, _)) = stmt_code(s, pos, in_loop, ft, fl) {
        if !(s is While || s is For || s is Try || s is If) && pos + c.len() <= usize::MAX {
            assert forall|i: int| 0 <= i < c.len() implies !(#[trigger] c[i] is JumpIfFalse) && !(c[i] is TryCatch) by {
                match s {
                    StmtV::Return(None) => {},
                    StmtV::Break => {},
                    StmtV::Continue => {},
                    _ => {},
                }
            }
            assert forall|i: int| 0 <= i < c.len() implies match #[trigger] c[i] {
                InstrV::JumpIfFalse(x) => x <= pos + c.len(),
                InstrV::TryCatch(a, b) => a <= b && b <= pos + c.len(),
                _ => true,
            } by {
                assert(!(c[i] is JumpIfFalse) && !(c[i] is TryCatch));
            }
        }
    }
}

pub proof fn lemma_stmts_ctl(ss: Seq<StmtV>, pos: nat, in_loop: bool, ft: TableV, fl: Seq<(Seq<char>, u64)>)
    ensures
        stmts_code(ss, pos, in_loop, ft, fl) matches Ok((c, _)) ==> (pos + c.len() <= usize::MAX ==> ctl_within(c, pos + c.len())),
    decreases ss, 0int,
{
    if ss.len() == 0 {
        lemma_ctl_free(Seq::empty(), pos);
    } else {
        lemma_stmt_ctl(ss[0], pos, in_loop, ft, fl);
        if let Ok((c, t)) = stmt_code(ss[0], pos, in_loop, ft, fl) {
            lemma_stmts_ctl(ss.drop_first(), pos + c.len(), in_loop, t, fl);
            if let Ok((d, _)) = stmts_code(ss.drop_first(), pos + c.len(), in_loop, t, fl) {
                if pos + c.len() + d.len() <= usize::MAX {
                    lemma_ctl_mono(c, pos + c.len(), pos + c.len() + d.len());
                    lemma_ctl_concat(c, d, pos + c.len() + d.len());
                }
            }
        }
    }
}

pub proof fn lemma_branch_ctl(cond: ExprV, body: Seq<StmtV>, pos: nat, in_loop: bool, ft: TableV, fl: Seq<(Seq<char>, u64)>)
    ensures
        branch_code(cond, body, pos, in_loop, ft, fl) matches Ok((c, _)) ==> (pos + c.len() <= usize::MAX ==> ctl_within(c, pos + c.len())),
    decreases body, 1int,
{
    lemma_expr_jump_free(cond, fl, fstring_depth());
    if let Ok(c) = ex(cond, fl) {
        lemma_stmts_ctl(body, pos + c.len() + 1, in_loop, ft, fl);
        if let Ok((b, _)) = stmts_code(body, pos + c.len() + 1, in_loop, ft, fl) {
            let lim = pos + c.len() + 1 + b.len() + 1;
            if lim <= usize::MAX {
                lemma_ctl_free(c, lim);
                lemma_ctl_one(InstrV::JumpIfFalse(lim as usize), lim);
                lemma_ctl_one(InstrV::Jump(0), lim);
                lemma_ctl_concat(c, seq![InstrV::JumpIfFalse(lim as usize)], lim);
                lemma_ctl_mono(b, pos + c.len() + 1 + b.len(), lim);
                lemma_ctl_concat(c + seq![InstrV::JumpIfFalse(lim as usize)], b, lim);
                lemma_ctl_concat(c + seq![InstrV::JumpIfFalse(lim as usize)] + b, seq![InstrV::Jump(0)], lim);
            }
        }
    }
}

pub proof fn lemma_elifs_ctl(es: Seq<(ExprV, Seq<StmtV>)>, pos: nat, in_loop: bool, ft: TableV, fl: Seq<(Seq<char>, u64)>)
    ensures
        elifs_code(es, pos, in_loop, ft, fl) matches Ok((c, _, _)) ==> (pos + c.len() <= usize::MAX ==> ctl_within(c, pos + c.len())),
    decreases es, 0int,
{
    if es.len() == 0 {
        lemma_ctl_free(Seq::empty(), pos);
    } else {
        lemma_branch_ctl(es[0].0, es[0].1, pos, in_loop, ft, fl);
        if let Ok((c, t)) = branch_code(es[0].0, es[0].1, pos, in_loop, ft, fl) {
            lemma_elifs_ctl(es.drop_first(), pos + c.len(), in_loop, t, fl);
            if let Ok((d, _, _)) = elifs_code(es.drop_first(), pos + c.len(), in_loop, t, fl) {
                if pos + c.len() + d.len() <= usize::MAX {
                    lemma_ctl_mono(c, pos + c.len(), pos + c.len() + d.len());
                    lemma_ctl_concat(c, d, pos + c.len() + d.len());
                }
            }
        }
    }
}

/// In a compiled program every `JumpIfFalse` goes to an instruction of the program, and
/// every handler `TryCatch(a, b)` has `a <= b` inside the program.
pub proof fn law_program_branch_targets(ss: Seq<StmtV>, fl: Seq<(Seq<char>, u64)>)
    ensures
        program_code(ss, fl) matches Ok((c, _)) ==> (c.len() <= usize::MAX ==> forall|i: int| 0 <= i < c.len() ==> match #[trigger] c[i] {
            InstrV::JumpIfFalse(x) => x < c.len() - 1,
            InstrV::TryCatch(a, b) => a <= b && b < c.len() - 1,
            _ => true,
        }),
{
    lemma_stmts_ctl(ss, 0, false, Seq::empty(), fl);
    if let Ok((c, _)) = stmts_code(ss, 0, false, Seq::empty(), fl) {
        let full = c + seq![InstrV::Deinit, InstrV::Halt];
        if full.len() <= usize::MAX {
            assert forall|i: int| 0 <= i < full.len() implies match #[trigger] full[i] {
                InstrV::JumpIfFalse(x) => x < full.len() - 1,
                InstrV::TryCatch(a, b) => a <= b && b < full.len() - 1,
                _ => true,
            } by {
                if i < c.len() {
                    assert(full[i] == c[i]);
                    match c[i] {
                        InstrV::JumpIfFalse(x) => {},
                        InstrV::TryCatch(a, b) => {},
                        _ => {},
                    }
                }
            }
        }
    }
}

/// The code of `while cond { body }` at `pos`: the condition, then a jump past the loop when
/// it is false, then the body, then a jump back to the condition; in the body, `break` jumps
/// past the loop and `continue` back to the condition.
pub proof fn law_while_loop_shape(cond: ExprV, body: Seq<StmtV>, pos: nat, in_loop: bool, ft: TableV, fl: Seq<(Seq<char>, u64)>)
    requires
        stmt_code(StmtV::While { condition: cond, body }, pos, in_loop, ft, fl) is Ok,
        pos + stmt_code(StmtV::While { condition: cond, body }, pos, in_loop, ft, fl)->Ok_0.0.len() < CONTINUE_SENTINEL,
    ensures
        ({
            let c = stmt_code(StmtV::While { condition: cond, body }, pos, in_loop, ft, fl)->Ok_0.0;
            let a = ex(cond, fl)->Ok_0;
            let b = stmts_code(body, pos + a.len() + 1, true, ft, fl)->Ok_0.0;
            let end = (pos + c.len()) as usize;
            &&& ex(cond, fl) is Ok
            &&& c.len() == a.len() + b.len() + 2
            &&& c.take(a.len() as int) == a
            &&& c[a.len() as int] == InstrV::JumpIfFalse(end)
            &&& c.last() == InstrV::Jump(pos as usize)
            &&& forall|k: int| 0 <= k < b.len() && b[k] == InstrV::Jump(BREAK_SENTINEL) ==> #[trigger] c[a.len() + 1 + k]
                == InstrV::Jump(end)
            &&& forall|k: int| 0 <= k < b.len() && b[k] == InstrV::Jump(CONTINUE_SENTINEL) ==> #[trigger] c[a.len() + 1
                + k] == InstrV::Jump(pos as usize)
        }),
{
    let a = ex(cond, fl)->Ok_0;
    let b = stmts_code(body, pos + a.len() + 1, true, ft, fl)->Ok_0.0;
    let loop_end = pos + a.len() + 1 + b.len() + 1;
    let raw = a + seq![InstrV::JumpIfFalse(loop_end as usize)] + b + seq![InstrV::Jump(pos as usize)];
    let c = patch_code(raw, pos as usize, loop_end as usize);
    assert(stmt_code(StmtV::While { condition: cond, body }, pos, in_loop, ft, fl)->Ok_0.0 == c);
    assert(c.len() == raw.len());
    assert forall|k: int| 0 <= k < a.len() implies c.take(a.len() as int)[k] == a[k] by {
        assert(raw[k] == a[k]);
        lemma_expr_jump_free(cond, fl, fstring_depth());
    }
    assert(c.take(a.len() as int) =~= a);
    assert(raw[a.len() as int] == InstrV::JumpIfFalse(loop_end as usize));
    assert(raw[raw.len() - 1] == InstrV::Jump(pos as usize));
    assert forall|k: int| 0 <= k < b.len() implies #[trigger] raw[a.len() + 1 + k] == b[k] by {}
}

/// The code of `if cond { then } else { other }` at `pos`: the condition, a jump to the
/// `else` part when it is false, the `then` part, a jump past the whole `if`, and the `else`
/// part.
pub proof fn law_if_else_shape(cond: ExprV, then_body: Seq<StmtV>, else_body: Seq<StmtV>, pos: nat, in_loop: bool, ft: TableV, fl: Seq<(Seq<char>, u64)>)
    requires
        stmt_code(
            StmtV::If { condition: cond, then_body, elif_branches: Seq::empty(), else_body: Some(else_body) },
            pos,
            in_loop,
            ft,
            fl,
        ) is Ok,
    ensures
        ({
            let c = stmt_code(
                StmtV::If { condition: cond, then_body, elif_branches: Seq::empty(), else_body: Some(else_body) },
                pos,
                in_loop,
                ft,
                fl,
            )->Ok_0.0;
            let a = ex(cond, fl)->Ok_0;
            let (b, t1) = stmts_code(then_body, pos + a.len() + 1, in_loop, ft, fl)->Ok_0;
            let e = stmts_code(else_body, pos + a.len() + b.len() + 2, in_loop, t1, fl)->Ok_0.0;
            &&& ex(cond, fl) is Ok
            &&& c.len() == a.len() + b.len() + 2 + e.len()
            &&& c.take(a.len() as int) == a
            &&& c[a.len() as int] == InstrV::JumpIfFalse((pos + a.len() + b.len() + 2) as usize)
            &&& c[(a.len() + 1 + b.len()) as int] == InstrV::Jump((pos + c.len()) as usize)
            &&& forall|k: int| 0 <= k < b.len() ==> #[trigger] c[a.len() + 1 + k] == b[k]
            &&& forall|k: int| 0 <= k < e.len() ==> #[trigger] c[a.len() + b.len() + 2 + k] == e[k]
        }),
{
    let a = ex(cond, fl)->Ok_0;
    let (b, t1) = stmts_code(then_body, pos + a.len() + 1, in_loop, ft, fl)->Ok_0;
    let c0 = a + seq![InstrV::JumpIfFalse((pos + a.len() + 1 + b.len() + 1) as usize)] + b + seq![InstrV::Jump(0)];
    assert(branch_code(cond, then_body, pos, in_loop, ft, fl) == Ok::<(Seq<InstrV>, TableV), CompileErrorV>((c0, t1)));
    let es = Seq::<(ExprV, Seq<StmtV>)>::empty();
    assert(elifs_code(es, pos + c0.len(), in_loop, t1, fl) == Ok::<(Seq<InstrV>, TableV, Seq<int>), CompileErrorV>((
        Seq::empty(),
        t1,
        Seq::empty(),
    )));
    let q = pos + c0.len();
    let e = stmts_code(else_body, q, in_loop, t1, fl)->Ok_0.0;
    let raw = c0 + Seq::<InstrV>::empty() + e;
    let all_ends = seq![c0.len() - 1] + Seq::<int>::empty().map_values(|x: int| x + c0.len());
    assert(all_ends =~= seq![c0.len() - 1]);
    let c = set_jumps(raw, all_ends, (pos + raw.len()) as usize);
    assert(stmt_code(
        StmtV::If { condition: cond, then_body, elif_branches: Seq::empty(), else_body: Some(else_body) },
        pos,
        in_loop,
        ft,
        fl,
    )->Ok_0.0 == c);
    assert forall|i: int| 0 <= i < c.len() && i != c0.len() - 1 implies c[i] == raw[i] by {
        assert(!all_ends.contains(i)) by {
            if all_ends.contains(i) {
                let j = choose|j: int| 0 <= j < all_ends.len() && all_ends[j] == i;
                assert(j == 0);
            }
        }
    }
    assert(all_ends.contains(c0.len() - 1)) by {
        assert(all_ends[0] == c0.len() - 1);
    }
    assert(c.take(a.len() as int) =~= a);
    assert forall|k: int| 0 <= k < b.len() implies #[trigger] c[a.len() + 1 + k] == b[k] by {
        assert(raw[a.len() + 1 + k] == b[k]);
    }
    assert forall|k: int| 0 <= k < e.len() implies #[trigger] c[a.len() + b.len() + 2 + k] == e[k] by {
        assert(raw[c0.len() + k] == e[k]);
    }
}

/// The code of `try { body } catch v { handler }` at `pos`: a handler entry whose catch target
/// is the instruction that stores the caught value in `v` (or drops it when there is no
/// name), the body, a jump past the whole statement, then that store and the handler.
pub proof fn law_try_shape(body: Seq<StmtV>, catch_var: Option<Seq<char>>, catch_body: Seq<StmtV>, pos: nat, in_loop: bool, ft: TableV, fl: Seq<(Seq<char>, u64)>)
    requires
        stmt_code(StmtV::Try { body, catch_var, catch_body }, pos, in_loop, ft, fl) is Ok,
    ensures
        ({
            let c = stmt_code(StmtV::Try { body, catch_var, catch_body }, pos, in_loop, ft, fl)->Ok_0.0;
            let (b, t) = stmts_code(body, pos + 1, in_loop, ft, fl)->Ok_0;
            let catch_pos = pos + 1 + b.len() + 1;
            let cb = stmts_code(catch_body, catch_pos + 1, in_loop, t, fl)->Ok_0.0;
            let end = pos + c.len();
            &&& c.len() == b.len() + cb.len() + 3
            &&& c[0] == InstrV::TryCatch(catch_pos as usize, end as usize)
            &&& forall|k: int| 0 <= k < b.len() ==> #[trigger] c[1 + k] == b[k]
            &&& c[(b.len() + 1) as int] == InstrV::Jump(end as usize)
            &&& c[(catch_pos - pos) as int] == (match catch_var {
                Some(v) => InstrV::StoreVar(v),
                None => InstrV::Pop,
            })
            &&& forall|k: int| 0 <= k < cb.len() ==> #[trigger] c[b.len() + 3 + k] == cb[k]
        }),
{
    let (b, t) = stmts_code(body, pos + 1, in_loop, ft, fl)->Ok_0;
    let catch_pos = pos + 1 + b.len() + 1;
    let cb = stmts_code(catch_body, catch_pos + 1, in_loop, t, fl)->Ok_0.0;
    let end = catch_pos + 1 + cb.len();
    let handler = match catch_var {
        Some(v) => seq![InstrV::StoreVar(v)],
        None => seq![InstrV::Pop],
    };
    let c = seq![InstrV::TryCatch(catch_pos as usize, end as usize)] + b + seq![InstrV::Jump(end as usize)] + handler + cb;
    assert(stmt_code(StmtV::Try { body, catch_var, catch_body }, pos, in_loop, ft, fl)->Ok_0.0 == c);
    assert forall|k: int| 0 <= k < b.len() implies #[trigger] c[1 + k] == b[k] by {}
    assert forall|k: int| 0 <= k < cb.len() implies #[trigger] c[b.len() + 3 + k] == cb[k] by {}
}

} // verus!
