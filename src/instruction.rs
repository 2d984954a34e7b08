//! The closed instruction set of the machine.

use vstd::prelude::*;

verus! {

/// One instruction. Stack operands are offsets from the top of the stack:
/// offset `0` is the top element. Jump targets are absolute instruction
/// indices.
#[derive(Debug, Clone, PartialEq)]
pub enum Instruction {
    /// Pushes an immediate value.
    Push(u64),
    /// Writes the value at an offset in decimal, followed by a newline.
    Out(u64),
    /// Reads one line of input as a decimal number and pushes it.
    In(),
    /// Writes a string followed by a newline.
    OutStr(String),
    /// Pushes a copy of the value at an offset.
    Copy(u64),
    /// Removes the values at two offsets and pushes their sum.
    Add(u64, u64),
    /// Jumps to the target when the first value is greater than the second.
    Gt(u64, u64, u64),
    /// Jumps to the target when the two values are equal.
    Eq(u64, u64, u64),
    /// Jumps to the target.
    Jmp(u64),
    /// Decrements the value at an offset in place.
    Dec(u64),
    /// Increments the value at an offset in place.
    Inc(u64),
    /// Reads one raw byte of input and pushes it.
    InByte(),
    /// Writes the value at an offset as one raw byte.
    OutByte(u64),
}

/// The mathematical value of an [`Instruction`]: the same variants, with the
/// string operand seen as its characters.
pub enum Op {
    Push(u64),
    Out(u64),
    In,
    OutStr(Seq<char>),
    Copy(u64),
    Add(u64, u64),
    Gt(u64, u64, u64),
    Eq(u64, u64, u64),
    Jmp(u64),
    Dec(u64),
    Inc(u64),
    InByte,
    OutByte(u64),
}

impl View for Instruction {
    type V = Op;

    open spec fn view(&self) -> Op {
        match self {
            Instruction::Push(v) => Op::Push(*v),
            Instruction::Out(p) => Op::Out(*p),
            Instruction::In() => Op::In,
            Instruction::OutStr(s) => Op::OutStr(s@),
            Instruction::Copy(p) => Op::Copy(*p),
            Instruction::Add(a, b) => Op::Add(*a, *b),
            Instruction::Gt(a, b, t) => Op::Gt(*a, *b, *t),
            Instruction::Eq(a, b, t) => Op::Eq(*a, *b, *t),
            Instruction::Jmp(t) => Op::Jmp(*t),
            Instruction::Dec(p) => Op::Dec(*p),
            Instruction::Inc(p) => Op::Inc(*p),
            Instruction::InByte() => Op::InByte,
            Instruction::OutByte(p) => Op::OutByte(*p),
        }
    }
}

/// The mathematical value of a program.
pub open spec fn program_view(code: Seq<Instruction>) -> Seq<Op> {
    code.map_values(|i: Instruction| i@)
}

} // verus!
