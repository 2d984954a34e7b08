use bytecode_vm::Instruction;

fn test_serialize_deserialize(instruction: Instruction) {
    let mut serialized = Vec::new();
    instruction.serialize(&mut serialized);

    let (instruction_back, len) = Instruction::deserialize(&serialized, 0).unwrap();

    assert_eq!(instruction, instruction_back);
    assert_eq!(len, serialized.len());
}

#[test]
fn test_serialize_push() {
    test_serialize_deserialize(Instruction::Push(42));
}

#[test]
fn test_serialize_out() {
    test_serialize_deserialize(Instruction::Out(1));
}

#[test]
fn test_serialization_dec() {
    test_serialize_deserialize(Instruction::Dec(10));
}

#[test]
fn test_serialization_inc() {
    test_serialize_deserialize(Instruction::Inc(15));
}

#[test]
fn test_serialization_in_byte() {
    test_serialize_deserialize(Instruction::InByte());
}

#[test]
fn test_serialization_out_byte() {
    test_serialize_deserialize(Instruction::OutByte(10));
}

#[test]
fn test_serialization_in() {
    test_serialize_deserialize(Instruction::In());
}

#[test]
fn test_serialization_out_str() {
    test_serialize_deserialize(Instruction::OutStr("Hello, world!".to_string()));
}

#[test]
fn test_serialization_copy() {
    test_serialize_deserialize(Instruction::Copy(5));
}

#[test]
fn test_serialization_add() {
    test_serialize_deserialize(Instruction::Add(5, 7));
}

#[test]
fn test_serialization_gt() {
    test_serialize_deserialize(Instruction::Gt(3, 4, 5));
}

#[test]
fn test_serialization_eq() {
    test_serialize_deserialize(Instruction::Eq(3, 4, 5));
}

#[test]
fn test_serialization_jmp() {
    test_serialize_deserialize(Instruction::Jmp(6));
}
