use bytecode_vm::{
    deserialize_code, serialize_code, ExecError, FormatError, Input, Instruction, Machine, Status,
};

fn run_program(code: Vec<Instruction>, input: &[u8]) -> (Result<Status, ExecError>, Machine, Vec<u8>) {
    let mut machine = Machine::new(code);
    let mut input = Input::new(input.to_vec());
    let mut output = Vec::new();
    let r = machine.run(&mut input, &mut output, 10_000);
    (r, machine, output)
}

fn exec_one(instruction: Instruction, stack: Vec<u64>, input: &[u8]) -> (Result<Status, ExecError>, Machine, Vec<u8>) {
    let mut machine = Machine {
        code: Vec::new(),
        stack,
        pc: 0,
    };
    let mut input = Input::new(input.to_vec());
    let mut output = Vec::new();
    let r = instruction.execute(&mut machine, &mut input, &mut output);
    (r, machine, output)
}

#[test]
fn record_sizes() {
    assert_eq!(serialize_code(&[Instruction::Push(7)]).len(), 9);
    assert_eq!(serialize_code(&[Instruction::Add(1, 2)]).len(), 17);
    assert_eq!(serialize_code(&[Instruction::In()]).len(), 1);
    let text = "h\u{e9}llo".to_string();
    assert_eq!(serialize_code(&[Instruction::OutStr(text)]).len(), 9 + 6);
}

#[test]
fn record_bytes_are_little_endian() {
    assert_eq!(
        serialize_code(&[Instruction::Push(0x0102)]),
        vec![0, 0x02, 0x01, 0, 0, 0, 0, 0, 0]
    );
    assert_eq!(
        serialize_code(&[Instruction::OutStr("ab".to_string()), Instruction::InByte()]),
        vec![3, 2, 0, 0, 0, 0, 0, 0, 0, b'a', b'b', 11]
    );
}

#[test]
fn program_round_trip() {
    let code = vec![
        Instruction::Push(u64::MAX),
        Instruction::Out(0),
        Instruction::In(),
        Instruction::OutStr("gr\u{fc}\u{df} \u{1f600}".to_string()),
        Instruction::Copy(3),
        Instruction::Add(1, 0),
        Instruction::Gt(0, 1, 12),
        Instruction::Eq(2, 3, 9),
        Instruction::Jmp(4),
        Instruction::Dec(2),
        Instruction::Inc(1),
        Instruction::InByte(),
        Instruction::OutByte(0),
    ];
    let bytes = serialize_code(&code);
    assert_eq!(deserialize_code(&bytes), Ok(code));
}

#[test]
fn empty_bytes_decode_to_empty_program() {
    assert_eq!(deserialize_code(&[]), Ok(Vec::new()));
}

#[test]
fn unknown_tag_is_format_error() {
    let mut bytes = serialize_code(&[Instruction::In()]);
    bytes.push(13);
    assert_eq!(deserialize_code(&bytes), Err(FormatError::UnknownTag(13)));
}

#[test]
fn truncated_record_is_format_error() {
    assert_eq!(deserialize_code(&[0, 1, 2, 3]), Err(FormatError::Truncated));
    assert_eq!(deserialize_code(&[3, 5, 0, 0, 0, 0, 0, 0, 0, b'a']), Err(FormatError::Truncated));
    assert_eq!(deserialize_code(&[6, 1, 0, 0, 0, 0, 0, 0, 0]), Err(FormatError::Truncated));
}

#[test]
fn invalid_utf8_is_format_error() {
    assert_eq!(deserialize_code(&[3, 1, 0, 0, 0, 0, 0, 0, 0, 0xff]), Err(FormatError::InvalidUtf8));
}

#[test]
fn straight_line_arithmetic() {
    let code = vec![
        Instruction::Push(5),
        Instruction::Push(3),
        Instruction::Add(1, 0),
        Instruction::Out(0),
    ];
    let (r, machine, output) = run_program(code, b"");
    assert_eq!(r, Ok(Status::Halted));
    assert_eq!(output, b"8\n".to_vec());
    assert_eq!(machine.stack, vec![8]);
    assert_eq!(machine.pc, 4);
}

#[test]
fn counted_loop() {
    let code = vec![
        Instruction::Push(0),
        Instruction::In(),
        Instruction::Push(0),
        Instruction::Push(1),
        Instruction::Eq(2, 3, 9),
        Instruction::Copy(0),
        Instruction::Add(1, 2),
        Instruction::Dec(2),
        Instruction::Jmp(4),
        Instruction::Out(0),
    ];
    // Each pass counts the input down by one and turns the top pair (a, b)
    // into (b, a + b); five passes leave 8 on top.
    let (r, machine, output) = run_program(code, b"5\n");
    assert_eq!(r, Ok(Status::Halted));
    assert_eq!(output, b"8\n".to_vec());
    assert_eq!(machine.stack, vec![0, 0, 5, 8]);
}

#[test]
fn byte_passthrough() {
    let code = vec![Instruction::InByte(), Instruction::OutByte(0)];
    let (r, _, output) = run_program(code, &[0x41]);
    assert_eq!(r, Ok(Status::Halted));
    assert_eq!(output, vec![0x41]);
}

#[test]
fn empty_program_halts() {
    let (r, machine, output) = run_program(Vec::new(), b"1\n2\n");
    assert_eq!(r, Ok(Status::Halted));
    assert!(output.is_empty());
    assert!(machine.stack.is_empty());
    assert_eq!(machine.pc, 0);
}

#[test]
fn out_past_stack_is_bounds_error() {
    assert_eq!(exec_one(Instruction::Out(0), Vec::new(), b"").0, Err(ExecError::Bounds));
    assert_eq!(exec_one(Instruction::Out(1), vec![5], b"").0, Err(ExecError::Bounds));
    assert_eq!(exec_one(Instruction::Out(u64::MAX), vec![5, 6], b"").0, Err(ExecError::Bounds));
}

#[test]
fn other_offsets_past_stack_are_bounds_errors() {
    assert_eq!(exec_one(Instruction::Copy(2), vec![1, 2], b"").0, Err(ExecError::Bounds));
    assert_eq!(exec_one(Instruction::Add(0, 2), vec![1, 2], b"").0, Err(ExecError::Bounds));
    assert_eq!(exec_one(Instruction::Add(0, 0), vec![1, 2], b"").0, Err(ExecError::Bounds));
    assert_eq!(exec_one(Instruction::Gt(3, 0, 0), vec![1, 2], b"").0, Err(ExecError::Bounds));
    assert_eq!(exec_one(Instruction::Eq(0, 3, 0), vec![1, 2], b"").0, Err(ExecError::Bounds));
    assert_eq!(exec_one(Instruction::Dec(1), vec![1], b"").0, Err(ExecError::Bounds));
    assert_eq!(exec_one(Instruction::Inc(1), vec![1], b"").0, Err(ExecError::Bounds));
    assert_eq!(exec_one(Instruction::OutByte(1), vec![1], b"").0, Err(ExecError::Bounds));
}

#[test]
fn arithmetic_errors() {
    assert_eq!(exec_one(Instruction::Dec(0), vec![0], b"").0, Err(ExecError::Arithmetic));
    assert_eq!(exec_one(Instruction::Inc(0), vec![u64::MAX], b"").0, Err(ExecError::Arithmetic));
    assert_eq!(exec_one(Instruction::OutByte(0), vec![256], b"").0, Err(ExecError::Arithmetic));
    assert_eq!(exec_one(Instruction::Add(0, 1), vec![u64::MAX, 1], b"").0, Err(ExecError::Arithmetic));
}

#[test]
fn bad_line_is_parse_error() {
    assert_eq!(exec_one(Instruction::In(), Vec::new(), b"abc\n").0, Err(ExecError::Parse));
    assert_eq!(exec_one(Instruction::In(), Vec::new(), b"-1\n").0, Err(ExecError::Parse));
    assert_eq!(exec_one(Instruction::In(), Vec::new(), b"\n").0, Err(ExecError::Parse));
    assert_eq!(
        exec_one(Instruction::In(), Vec::new(), b"18446744073709551616\n").0,
        Err(ExecError::Parse)
    );
}

#[test]
fn line_forms_that_parse() {
    let (r, m, _) = exec_one(Instruction::In(), Vec::new(), b"+7\r\n");
    assert_eq!(r, Ok(Status::Running));
    assert_eq!(m.stack, vec![7]);
    let (r, m, _) = exec_one(Instruction::In(), Vec::new(), b"18446744073709551615");
    assert_eq!(r, Ok(Status::Running));
    assert_eq!(m.stack, vec![u64::MAX]);
}

#[test]
fn end_of_input_halts_cleanly() {
    let (r, m, _) = exec_one(Instruction::In(), vec![3], b"");
    assert_eq!(r, Ok(Status::Halted));
    assert_eq!(m.stack, vec![3]);
    assert_eq!(m.pc, 0);
    let (r, m, _) = exec_one(Instruction::InByte(), vec![3], b"");
    assert_eq!(r, Ok(Status::Halted));
    assert_eq!(m.pc, 0);
    let code = vec![Instruction::In(), Instruction::Out(0), Instruction::Jmp(0)];
    let (r, _, output) = run_program(code, b"1\n22\n");
    assert_eq!(r, Ok(Status::Halted));
    assert_eq!(output, b"1\n22\n".to_vec());
}

#[test]
fn lines_and_bytes_share_one_input() {
    let code = vec![Instruction::In(), Instruction::InByte(), Instruction::In()];
    let (r, m, _) = run_program(code, b"12\nA34\n");
    assert_eq!(r, Ok(Status::Halted));
    assert_eq!(m.stack, vec![12, 65, 34]);
}

#[test]
fn decimal_output() {
    assert_eq!(exec_one(Instruction::Out(0), vec![0], b"").2, b"0\n".to_vec());
    assert_eq!(
        exec_one(Instruction::Out(1), vec![u64::MAX, 3], b"").2,
        b"18446744073709551615\n".to_vec()
    );
}

#[test]
fn out_str_writes_utf8_and_newline() {
    let (r, _, output) = exec_one(Instruction::OutStr("h\u{e9}".to_string()), Vec::new(), b"");
    assert_eq!(r, Ok(Status::Running));
    assert_eq!(output, vec![b'h', 0xc3, 0xa9, b'\n']);
}

#[test]
fn add_removes_by_absolute_index() {
    assert_eq!(exec_one(Instruction::Add(0, 2), vec![1, 2, 3], b"").1.stack, vec![2, 4]);
    assert_eq!(exec_one(Instruction::Add(2, 0), vec![1, 2, 3], b"").1.stack, vec![2, 4]);
    assert_eq!(exec_one(Instruction::Add(1, 2), vec![10, 20, 30, 40], b"").1.stack, vec![10, 40, 50]);
}

#[test]
fn run_stops_when_steps_run_out() {
    let mut machine = Machine::new(vec![Instruction::Inc(0), Instruction::Jmp(0)]);
    machine.stack.push(0);
    let mut input = Input::new(Vec::new());
    let mut output = Vec::new();
    assert_eq!(machine.run(&mut input, &mut output, 5), Ok(Status::Running));
    assert_eq!(machine.stack, vec![3]);
    assert_eq!(machine.pc, 1);
}

#[test]
fn step_past_end_halts() {
    let mut machine = Machine::new(vec![Instruction::Push(1)]);
    let mut input = Input::new(Vec::new());
    let mut output = Vec::new();
    assert_eq!(machine.step(&mut input, &mut output), Ok(Status::Running));
    assert_eq!(machine.step(&mut input, &mut output), Ok(Status::Halted));
    assert_eq!(machine.stack, vec![1]);
    assert_eq!(machine.pc, 1);
}

#[test]
fn input_reads_lines_and_bytes() {
    let mut input = Input::new(b"ab\r\ncd".to_vec());
    assert!(input.has_line());
    assert_eq!(input.read_line(), Some(b"ab".to_vec()));
    assert!(!input.has_line());
    assert_eq!(input.read_byte(), Some(b'c'));
    assert_eq!(input.read_line(), Some(b"d".to_vec()));
    assert!(input.is_empty());
    assert_eq!(input.read_line(), None);
    assert_eq!(input.read_byte(), None);
}

#[test]
fn input_fed_in_pieces() {
    let mut machine = Machine::new(vec![Instruction::In(), Instruction::InByte(), Instruction::Out(1)]);
    let mut input = Input::new(Vec::new());
    let mut output = Vec::new();
    assert!(machine.wants_input(&input));
    input.append(b"4");
    assert!(machine.wants_input(&input));
    input.append(b"2\n");
    assert!(!machine.wants_input(&input));
    assert_eq!(machine.step(&mut input, &mut output), Ok(Status::Running));
    assert!(machine.wants_input(&input));
    input.append(b"Z");
    assert!(!machine.wants_input(&input));
    assert_eq!(machine.step(&mut input, &mut output), Ok(Status::Running));
    assert!(!machine.wants_input(&input));
    assert_eq!(machine.step(&mut input, &mut output), Ok(Status::Running));
    assert_eq!(machine.stack, vec![42, 90]);
    assert_eq!(output, b"42\n".to_vec());
    assert!(!machine.wants_input(&input));
    assert_eq!(machine.step(&mut input, &mut output), Ok(Status::Halted));
}
