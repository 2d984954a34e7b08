//! The execution engine: a program, a stack of `u64` values and a program
//! counter, driven one instruction at a time against an input and an output.

use vstd::prelude::*;
use vstd::utf8::encode_utf8;
use crate::input::{line_consumed, line_end, line_text, Input};
use crate::instruction::{program_view, Instruction, Op};
use crate::numeric::{decimal, parse_decimal, parse_u64, push_bytes, push_decimal};

verus! {

/// Why a run stopped on an error.
#[derive(Debug, Clone, Copy, PartialEq, Eq, Structural)]
pub enum ExecError {
    /// A line read by `In` is not an unsigned 64-bit decimal number.
    Parse,
    /// A stack offset does not name an element of the current stack.
    Bounds,
    /// A value leaves its range: `Dec` below zero, `Inc` or `Add` past
    /// `u64::MAX`, `OutByte` on a value above 255.
    Arithmetic,
}

/// Whether a run goes on after a step.
#[derive(Debug, Clone, Copy, PartialEq, Eq, Structural)]
pub enum Status {
    /// The next instruction is to be fetched.
    Running,
    /// The run ended cleanly: the program counter left the program, or a
    /// read found the end of the input.
    Halted,
}

/// The state that instructions act on.
pub struct Config {
    pub stack: Seq<u64>,
    pub pc: u64,
    /// The input not read yet.
    pub input: Seq<u8>,
    /// Everything written so far.
    pub output: Seq<u8>,
}

/// Where a step leads.
pub enum Outcome {
    Running(Config),
    Halted(Config),
    Failed(ExecError),
}

/// The absolute index that a stack offset names: offset `0` is the top.
pub open spec fn slot(stack: Seq<u64>, offset: u64) -> int {
    stack.len() - 1 - offset
}

/// `c` with a new stack and the program counter moved to the next instruction.
pub open spec fn next(c: Config, stack: Seq<u64>) -> Outcome {
    Outcome::Running(Config { stack, pc: (c.pc + 1) as u64, input: c.input, output: c.output })
}

/// `c` with more output and the program counter moved to the next instruction.
pub open spec fn emit(c: Config, bytes: Seq<u8>) -> Outcome {
    Outcome::Running(
        Config { stack: c.stack, pc: (c.pc + 1) as u64, input: c.input, output: c.output + bytes },
    )
}

/// `c` with the program counter at `target`.
pub open spec fn jump(c: Config, target: u64) -> Outcome {
    Outcome::Running(Config { stack: c.stack, pc: target, input: c.input, output: c.output })
}

/// What `Add` leaves on the stack: the values at the two indices are taken,
/// the element at `l` is removed, then the element at `r` (one lower when it
/// lay above `l`), and the sum is pushed.
pub open spec fn add_op(c: Config, l: int, r: int) -> Outcome {
    let s = c.stack;
    let rest = s.remove(l);
    let r2 = if r > l {
        r - 1
    } else {
        r
    };
    if r2 >= rest.len() {
        Outcome::Failed(ExecError::Bounds)
    } else if s[l] + s[r] > u64::MAX {
        Outcome::Failed(ExecError::Arithmetic)
    } else {
        next(c, rest.remove(r2).push((s[l] + s[r]) as u64))
    }
}

/// The effect of one instruction on `c`, the program counter included.
pub open spec fn exec_op(op: Op, c: Config) -> Outcome {
    let s = c.stack;
    match op {
        Op::Push(v) => next(c, s.push(v)),
        Op::Out(p) => if p < s.len() {
            emit(c, decimal(s[slot(s, p)] as nat).push(10))
        } else {
            Outcome::Failed(ExecError::Bounds)
        },
        Op::In => if c.input.len() == 0 {
            Outcome::Halted(c)
        } else {
            match parse_decimal(line_text(c.input)) {
                Some(v) => Outcome::Running(
                    Config {
                        stack: s.push(v),
                        pc: (c.pc + 1) as u64,
                        input: c.input.skip(line_consumed(c.input) as int),
                        output: c.output,
                    },
                ),
                None => Outcome::Failed(ExecError::Parse),
            }
        },
        Op::OutStr(text) => emit(c, encode_utf8(text).push(10)),
        Op::Copy(p) => if p < s.len() {
            next(c, s.push(s[slot(s, p)]))
        } else {
            Outcome::Failed(ExecError::Bounds)
        },
        Op::Add(a, b) => if a < s.len() && b < s.len() {
            add_op(c, slot(s, a), slot(s, b))
        } else {
            Outcome::Failed(ExecError::Bounds)
        },
        Op::Gt(a, b, t) => if a < s.len() && b < s.len() {
            if s[slot(s, a)] > s[slot(s, b)] {
                jump(c, t)
            } else {
                next(c, s)
            }
        } else {
            Outcome::Failed(ExecError::Bounds)
        },
        Op::Eq(a, b, t) => if a < s.len() && b < s.len() {
            if s[slot(s, a)] == s[slot(s, b)] {
                jump(c, t)
            } else {
                next(c, s)
            }
        } else {
            Outcome::Failed(ExecError::Bounds)
        },
        Op::Jmp(t) => jump(c, t),
        Op::Dec(p) => if p < s.len() {
            if s[slot(s, p)] == 0 {
                Outcome::Failed(ExecError::Arithmetic)
            } else {
                next(c, s.update(slot(s, p), (s[slot(s, p)] - 1) as u64))
            }
        } else {
            Outcome::Failed(ExecError::Bounds)
        },
        Op::Inc(p) => if p < s.len() {
            if s[slot(s, p)] == u64::MAX {
                Outcome::Failed(ExecError::Arithmetic)
            } else {
                next(c, s.update(slot(s, p), (s[slot(s, p)] + 1) as u64))
            }
        } else {
            Outcome::Failed(ExecError::Bounds)
        },
        Op::InByte => if c.input.len() == 0 {
            Outcome::Halted(c)
        } else {
            Outcome::Running(
                Config {
                    stack: s.push(c.input[0] as u64),
                    pc: (c.pc + 1) as u64,
                    input: c.input.drop_first(),
                    output: c.output,
                },
            )
        },
        Op::OutByte(p) => if p < s.len() {
            if s[slot(s, p)] > 255 {
                Outcome::Failed(ExecError::Arithmetic)
            } else {
                emit(c, seq![s[slot(s, p)] as u8])
            }
        } else {
            Outcome::Failed(ExecError::Bounds)
        },
    }
}

/// One fetch-execute step of `code` from `c`.
pub open spec fn step_op(code: Seq<Op>, c: Config) -> Outcome {
    if c.pc >= code.len() {
        Outcome::Halted(c)
    } else {
        exec_op(code[c.pc as int], c)
    }
}

/// Up to `fuel` steps of `code` from `c`, stopping at the first halt or error.
pub open spec fn run_op(code: Seq<Op>, c: Config, fuel: nat) -> Outcome
    decreases fuel,
{
    if fuel == 0 {
        Outcome::Running(c)
    } else {
        match step_op(code, c) {
            Outcome::Running(c2) => run_op(code, c2, (fuel - 1) as nat),
            other => other,
        }
    }
}


/// Whether the next step of `code` would read past the input pending now,
/// so that a caller feeding the input piece by piece should add more first:
/// `In` with no whole line pending, or `InByte` with no byte pending.
pub open spec fn wants_input(code: Seq<Op>, pc: u64, pending: Seq<u8>) -> bool {
    pc < code.len() && match code[pc as int] {
        Op::In => !(line_end(pending) < pending.len()),
        Op::InByte => pending.len() == 0,
        _ => false,
    }
}

/// Whether the result `r` of a call, with `post` the state it left, reports
/// the outcome `o`.
pub open spec fn reports(o: Outcome, r: Result<Status, ExecError>, post: Config) -> bool {
    match r {
        Ok(Status::Running) => o == Outcome::Running(post),
        Ok(Status::Halted) => o == Outcome::Halted(post),
        Err(e) => o == Outcome::Failed(e),
    }
}

/// A program being run: its code, its stack, and the index of the next
/// instruction. A program counter at or past the end of the code means the
/// machine has halted.
pub struct Machine {
    pub code: Vec<Instruction>,
    pub stack: Vec<u64>,
    pub pc: u64,
}

/// The absolute index that `offset` names in a stack of `len` elements.
fn slot_of(len: usize, offset: u64) -> (r: Option<usize>)
    ensures
        offset < len ==> r == Some((len - 1 - offset) as usize),
        offset >= len ==> r is None,
{
    if offset < len as u64 {
        Some(len - 1 - offset as usize)
    } else {
        None
    }
}

impl Instruction {
    /// Performs this instruction on a stack and program counter, reading from
    /// `input` and writing to `output`.
    fn apply(&self, stack: &mut Vec<u64>, pc: &mut u64, input: &mut Input, output: &mut Vec<u8>) -> (r:
        Result<Status, ExecError>)
        requires
            *old(pc) < u64::MAX,
        ensures
            reports(
                exec_op(
                    self@,
                    (Config {
                        stack: old(stack)@,
                        pc: *old(pc),
                        input: old(input)@,
                        output: old(output)@,
                    }),
                ),
                r,
                (Config {
                    stack: final(stack)@,
                    pc: *final(pc),
                    input: final(input)@,
                    output: final(output)@,
                }),
            ),
    {
        let ghost out0 = output@;
        let len: usize = stack.len();
        match self {
            Instruction::Push(v) => {
                stack.push(*v);
            },
            Instruction::Out(p) => {
                match slot_of(len, *p) {
                    Some(i) => {
                        push_decimal(output, stack[i]);
                        output.push(10);
                        assert(output@ =~= out0 + decimal(stack@[i as int] as nat).push(10));
                    },
                    None => {
                        return Err(ExecError::Bounds);
                    },
                }
            },
            Instruction::In() => {
                match input.read_line() {
                    None => {
                        return Ok(Status::Halted);
                    },
                    Some(line) => match parse_u64(line.as_slice()) {
                        Some(v) => {
                            stack.push(v);
                        },
                        None => {
                            return Err(ExecError::Parse);
                        },
                    },
                }
            },
            Instruction::OutStr(text) => {
                push_bytes(output, text.as_str().as_bytes());
                output.push(10);
                assert(output@ =~= out0 + encode_utf8(text@).push(10));
            },
            Instruction::Copy(p) => {
                match slot_of(len, *p) {
                    Some(i) => {
                        let v: u64 = stack[i];
                        stack.push(v);
                    },
                    None => {
                        return Err(ExecError::Bounds);
                    },
                }
            },
            Instruction::Add(a, b) => {
                match (slot_of(len, *a), slot_of(len, *b)) {
                    (Some(l), Some(r)) => {
                        let lv: u64 = stack[l];
                        let rv: u64 = stack[r];
                        let r2: usize = if r > l {
                            r - 1
                        } else {
                            r
                        };
                        if r2 >= len - 1 {
                            return Err(ExecError::Bounds);
                        }
                        match lv.checked_add(rv) {
                            Some(sum) => {
                                stack.remove(l);
                                stack.remove(r2);
                                stack.push(sum);
                            },
                            None => {
                                return Err(ExecError::Arithmetic);
                            },
                        }
                    },
                    _ => {
                        return Err(ExecError::Bounds);
                    },
                }
            },
            Instruction::Gt(a, b, t) => {
                match (slot_of(len, *a), slot_of(len, *b)) {
                    (Some(l), Some(r)) => {
                        if stack[l] > stack[r] {
                            *pc = *t;
                            return Ok(Status::Running);
                        }
                    },
                    _ => {
                        return Err(ExecError::Bounds);
                    },
                }
            },
            Instruction::Eq(a, b, t) => {
                match (slot_of(len, *a), slot_of(len, *b)) {
                    (Some(l), Some(r)) => {
                        if stack[l] == stack[r] {
                            *pc = *t;
                            return Ok(Status::Running);
                        }
                    },
                    _ => {
                        return Err(ExecError::Bounds);
                    },
                }
            },
            Instruction::Jmp(t) => {
                *pc = *t;
                return Ok(Status::Running);
            },
            Instruction::Dec(p) => {
                match slot_of(len, *p) {
                    Some(i) => {
                        let v: u64 = stack[i];
                        if v == 0 {
                            return Err(ExecError::Arithmetic);
                        }
                        stack.set(i, v - 1);
                    },
                    None => {
                        return Err(ExecError::Bounds);
                    },
                }
            },
            Instruction::Inc(p) => {
                match slot_of(len, *p) {
                    Some(i) => {
                        let v: u64 = stack[i];
                        if v == u64::MAX {
                            return Err(ExecError::Arithmetic);
                        }
                        stack.set(i, v + 1);
                    },
                    None => {
                        return Err(ExecError::Bounds);
                    },
                }
            },
            Instruction::InByte() => {
                match input.read_byte() {
                    None => {
                        return Ok(Status::Halted);
                    },
                    Some(b) => {
                        stack.push(b as u64);
                    },
                }
            },
            Instruction::OutByte(p) => {
                match slot_of(len, *p) {
                    Some(i) => {
                        let v: u64 = stack[i];
                        if v > 255 {
                            return Err(ExecError::Arithmetic);
                        }
                        output.push(v as u8);
                        assert(output@ =~= out0 + seq![v as u8]);
                    },
                    None => {
                        return Err(ExecError::Bounds);
                    },
                }
            },
        }
        *pc = *pc + 1;
        Ok(Status::Running)
    }
}

/// The state of `m` with the given input and output.
pub open spec fn config_of(m: Machine, input: Seq<u8>, output: Seq<u8>) -> Config {
    Config { stack: m.stack@, pc: m.pc, input, output }
}

impl Instruction {
    /// Performs this instruction on `machine`: its effect on the stack, the
    /// input and the output, then the move of the program counter, to the
    /// next instruction or to a jump's target. `Ok(Status::Halted)` when a
    /// read found the end of the input; the machine is then unchanged. The
    /// program counter must be able to advance, so it is below `u64::MAX`.
    pub fn execute(&self, machine: &mut Machine, input: &mut Input, output: &mut Vec<u8>) -> (r:
        Result<Status, ExecError>)
        requires
            old(machine).pc < u64::MAX,
        ensures
            reports(
                exec_op(self@, config_of(*old(machine), old(input)@, old(output)@)),
                r,
                config_of(*final(machine), final(input)@, final(output)@),
            ),
            final(machine).code == old(machine).code,
    {
        self.apply(&mut machine.stack, &mut machine.pc, input, output)
    }
}

impl Machine {
    /// A machine that will run `code` from its first instruction, with an
    /// empty stack.
    pub fn new(code: Vec<Instruction>) -> (r: Machine)
        ensures
            r.code@ == code@,
            r.stack@ == Seq::<u64>::empty(),
            r.pc == 0,
    {
        Machine { code, stack: Vec::new(), pc: 0 }
    }

    /// Fetches the instruction at the program counter and executes it;
    /// `Ok(Status::Halted)`, with nothing changed, when the counter is past
    /// the end of the code.
    pub fn step(&mut self, input: &mut Input, output: &mut Vec<u8>) -> (r: Result<Status, ExecError>)
        ensures
            reports(
                step_op(program_view(old(self).code@), config_of(*old(self), old(input)@, old(output)@)),
                r,
                config_of(*final(self), final(input)@, final(output)@),
            ),
            final(self).code == old(self).code,
    {
        if self.pc >= self.code.len() as u64 {
            return Ok(Status::Halted);
        }
        let i: usize = self.pc as usize;
        let instr: &Instruction = &self.code[i];
        instr.apply(&mut self.stack, &mut self.pc, input, output)
    }

    /// Whether the next step would read past what `input` holds now; see
    /// [`wants_input`].
    pub fn wants_input(&self, input: &Input) -> (r: bool)
        ensures
            r == wants_input(program_view(self.code@), self.pc, input@),
    {
        if self.pc >= self.code.len() as u64 {
            return false;
        }
        match &self.code[self.pc as usize] {
            Instruction::In() => !input.has_line(),
            Instruction::InByte() => input.is_empty(),
            _ => false,
        }
    }

    /// Runs at most `max_steps` steps, stopping early at a clean halt or an
    /// error. `Ok(Status::Running)` when the steps ran out first.
    pub fn run(&mut self, input: &mut Input, output: &mut Vec<u8>, max_steps: u64) -> (r: Result<
        Status,
        ExecError,
    >)
        ensures
            reports(
                run_op(
                    program_view(old(self).code@),
                    config_of(*old(self), old(input)@, old(output)@),
                    max_steps as nat,
                ),
                r,
                config_of(*final(self), final(input)@, final(output)@),
            ),
            final(self).code == old(self).code,
    {
        let ghost code = program_view(self.code@);
        let mut left: u64 = max_steps;
        while left > 0
            invariant
                code == program_view(self.code@),
                self.code == old(self).code,
                run_op(code, config_of(*old(self), old(input)@, old(output)@), max_steps as nat)
                    == run_op(code, config_of(*self, input@, output@), left as nat),
            decreases left,
        {
            match self.step(input, output) {
                Ok(Status::Running) => {},
                other => {
                    return other;
                },
            }
            left = left - 1;
        }
        Ok(Status::Running)
    }
}

/// An empty program halts on its first step, whatever the input: it writes
/// nothing, reads nothing, and its stack stays empty.
pub proof fn lemma_empty_program_halts(input: Seq<u8>, fuel: nat)
    requires
        fuel > 0,
    ensures
        run_op(
            Seq::empty(),
            (Config { stack: Seq::empty(), pc: 0, input, output: Seq::empty() }),
            fuel,
        ) == Outcome::Halted(
            (Config { stack: Seq::empty(), pc: 0, input, output: Seq::empty() }),
        ),
{
}

/// `Out` with an offset at or past the stack's length fails with a bounds
/// error, whatever else the state holds.
pub proof fn lemma_out_of_range(p: u64, c: Config)
    requires
        p >= c.stack.len(),
    ensures
        exec_op(Op::Out(p), c) == Outcome::Failed(ExecError::Bounds),
{
}

/// `Add` takes two stack slots and pushes one: when it succeeds the stack is
/// one element shorter, whether or not its operands were adjacent.
pub proof fn lemma_add_shrinks_stack(a: u64, b: u64, c: Config)
    ensures
        exec_op(Op::Add(a, b), c) matches Outcome::Running(c2) ==> c2.stack.len() == c.stack.len() - 1,
{
}

/// An instruction other than a branch that runs on moves the program counter
/// to the next instruction; a taken branch sets it to its target instead.
pub proof fn lemma_pc_advance(op: Op, c: Config)
    requires
        c.pc < u64::MAX,
    ensures
        exec_op(op, c) matches Outcome::Running(c2) ==> match op {
            Op::Jmp(t) => c2.pc == t,
            Op::Gt(_, _, t) => c2.pc == t || c2.pc == c.pc + 1,
            Op::Eq(_, _, t) => c2.pc == t || c2.pc == c.pc + 1,
            _ => c2.pc == c.pc + 1,
        },
{
}

} // verus!
