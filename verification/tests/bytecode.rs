use julix::bytecode::chunk::{bytes_to_instruction, deserialize, instruction_to_bytes, serialize, Chunk, DecodeError, EncodeError, FunctionDef, FunctionTable};
use julix::bytecode::instruction::Instruction;

fn s(x: &str) -> String {
    x.to_string()
}

fn sample() -> Chunk {
    let mut c = Chunk::new();
    for i in vec![
        Instruction::LoadInt(-5),
        Instruction::LoadFloat(0x400921FB54442D18),
        Instruction::LoadStr(s("héllo")),
        Instruction::LoadBool(true),
        Instruction::LoadNull,
        Instruction::LoadSlot(3),
        Instruction::StoreSlot(4),
        Instruction::Jump(10),
        Instruction::JumpIfFalse(11),
        Instruction::Call(s("f"), 2),
        Instruction::Construct(s("P"), vec![s("a"), s("b")]),
        Instruction::GetField(s("a")),
        Instruction::SetField(s("b")),
        Instruction::MethodCall(s("m"), 1),
        Instruction::TryCatch(1, 2),
        Instruction::LoadBytes(vec![0, 255]),
        Instruction::NewList(3),
        Instruction::NewMap(1),
        Instruction::Add,
        Instruction::Halt,
    ] {
        c.push(i);
    }
    c
}

#[test]
fn serialize_then_deserialize_gives_the_chunk_back() {
    let c = sample();
    let bytes = serialize(&c).unwrap();
    assert_eq!(deserialize(&bytes), Ok(c));
}

#[test]
fn serialize_exact_bytes() {
    let mut c = Chunk::new();
    c.push(Instruction::LoadBool(true));
    c.push(Instruction::Halt);
    assert_eq!(serialize(&c), Ok(vec![74, 76, 88, 82, 2, 0, 0, 0, 2, 1, 99]));
}

#[test]
fn instruction_bytes_round_trip() {
    let mut data = Vec::new();
    instruction_to_bytes(&Instruction::Call(s("go"), 3), &mut data);
    assert_eq!(data, vec![52, 2, 0, 0, 0, b'g', b'o', 3, 0, 0, 0]);
    assert_eq!(bytes_to_instruction(&data, 0), Ok((Instruction::Call(s("go"), 3), 11)));
}

#[test]
fn deserialize_errors() {
    assert_eq!(deserialize(b"XXXX\0\0\0\0"), Err(DecodeError::BadHeader));
    assert_eq!(deserialize(b"JLX"), Err(DecodeError::BadHeader));
    assert_eq!(deserialize(&[74, 76, 88, 82, 1, 0, 0, 0, 200]), Err(DecodeError::UnknownTag(200)));
    assert_eq!(deserialize(&[74, 76, 88, 82, 1, 0, 0, 0, 0, 1, 2]), Err(DecodeError::Truncated));
    assert_eq!(deserialize(&[74, 76, 88, 82, 2, 0, 0, 0, 10]), Err(DecodeError::Truncated));
}

#[test]
fn invalid_utf8_in_a_string_is_replaced() {
    let bytes = vec![74, 76, 88, 82, 1, 0, 0, 0, 1, 2, 0, 0, 0, 0xff, b'a'];
    let c = deserialize(&bytes).unwrap();
    assert_eq!(c.code, vec![Instruction::LoadStr(s("\u{FFFD}a"))]);
}

#[test]
fn chunk_basics() {
    let mut c = Chunk::new();
    assert_eq!(c.len(), 0);
    c.push(Instruction::Pop);
    assert_eq!(c.len(), 1);
    assert_eq!(c.get(0), Some(&Instruction::Pop));
    assert_eq!(c.get(1), None);
}

#[test]
fn function_table_replaces_a_binding() {
    let mut t = FunctionTable::new();
    let f1 = FunctionDef { chunk: Chunk::new(), params: vec![s("a")] };
    let f2 = FunctionDef { chunk: Chunk::new(), params: vec![s("b")] };
    t.insert(s("f"), f1);
    assert_eq!(t.get("f").unwrap().params, vec![s("a")]);
    t.insert(s("f"), f2);
    assert_eq!(t.get("f").unwrap().params, vec![s("b")]);
    assert!(t.get("g").is_none());
}

#[test]
fn name_based_variable_tags_are_unknown() {
    assert_eq!(bytes_to_instruction(&[3, 0, 0, 0, 0], 0), Err(DecodeError::UnknownTag(3)));
    assert_eq!(bytes_to_instruction(&[6, 1, 0, 0, 0, b'x'], 0), Err(DecodeError::UnknownTag(6)));
    assert_eq!(bytes_to_instruction(&[7, 1, 0, 0, 0, b'x'], 0), Err(DecodeError::UnknownTag(7)));
}

#[test]
fn name_based_variable_instructions_have_no_byte_form() {
    let mut c = Chunk::new();
    c.push(Instruction::Pop);
    c.push(Instruction::StoreVar(s("x")));
    c.push(Instruction::LoadConst(0));
    assert_eq!(serialize(&c), Err(EncodeError::NoByteForm(1)));
}

#[test]
fn instruction_decodes_at_an_offset() {
    let mut data = vec![9, 9, 9];
    instruction_to_bytes(&Instruction::Jump(7), &mut data);
    data.push(42);
    assert_eq!(bytes_to_instruction(&data, 3), Ok((Instruction::Jump(7), 8)));
}
