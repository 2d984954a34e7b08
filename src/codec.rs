//! The binary encoding of instructions and programs.
//!
//! A record is one tag byte followed by its operands, each a little-endian
//! `u64`; a string operand is its byte length as such a `u64`, then its UTF-8
//! bytes. A program is the concatenation of its records, with no header.

use vstd::prelude::*;
use vstd::slice::{slice_subrange, slice_to_vec};
use vstd::utf8::{
    decode_utf8, decode_utf8_encode_utf8, encode_utf8, encode_utf8_decode_utf8, encode_utf8_valid_utf8,
    valid_utf8,
};
use crate::instruction::{program_view, Instruction, Op};
use crate::numeric::{
    le_bytes, le_digits, le_value, lemma_le_digits_len, lemma_le_digits_of_value, lemma_le_round_trip,
    lemma_le_value_bound, lemma_pow256_8, push_bytes, push_le_u64, read_le_u64,
};

verus! {

/// Why a byte string is not a program.
#[derive(Debug, Clone, Copy, PartialEq, Eq, Structural)]
pub enum FormatError {
    /// A record starts with a byte that is no instruction's tag.
    UnknownTag(u8),
    /// The bytes end inside a record.
    Truncated,
    /// A string operand is not well-formed UTF-8.
    InvalidUtf8,
}

/// The tag byte of each instruction.
pub open spec fn tag_of(op: Op) -> u8 {
    match op {
        Op::Push(_) => 0,
        Op::Out(_) => 1,
        Op::In => 2,
        Op::OutStr(_) => 3,
        Op::Copy(_) => 4,
        Op::Add(_, _) => 5,
        Op::Gt(_, _, _) => 6,
        Op::Eq(_, _, _) => 7,
        Op::Jmp(_) => 8,
        Op::Dec(_) => 9,
        Op::Inc(_) => 10,
        Op::InByte => 11,
        Op::OutByte(_) => 12,
    }
}

/// The record of one instruction.
pub open spec fn encode_op(op: Op) -> Seq<u8> {
    seq![tag_of(op)] + match op {
        Op::Push(a) => le_bytes(a),
        Op::Out(a) => le_bytes(a),
        Op::In => Seq::empty(),
        Op::OutStr(s) => le_digits(encode_utf8(s).len(), 8) + encode_utf8(s),
        Op::Copy(a) => le_bytes(a),
        Op::Add(a, b) => le_bytes(a) + le_bytes(b),
        Op::Gt(a, b, t) => le_bytes(a) + le_bytes(b) + le_bytes(t),
        Op::Eq(a, b, t) => le_bytes(a) + le_bytes(b) + le_bytes(t),
        Op::Jmp(t) => le_bytes(t),
        Op::Dec(a) => le_bytes(a),
        Op::Inc(a) => le_bytes(a),
        Op::InByte => Seq::empty(),
        Op::OutByte(a) => le_bytes(a),
    }
}

/// The bytes of a program: its records in order.
pub open spec fn encode_program(p: Seq<Op>) -> Seq<u8>
    decreases p.len(),
{
    if p.len() == 0 {
        Seq::empty()
    } else {
        encode_op(p[0]) + encode_program(p.drop_first())
    }
}

/// How many `u64` operands follow a tag, for every tag but the string's.
pub open spec fn operand_count(tag: u8) -> nat {
    if tag == 2 || tag == 11 {
        0
    } else if tag == 5 {
        2
    } else if tag == 6 || tag == 7 {
        3
    } else {
        1
    }
}

/// The `k`-th `u64` operand of the record that starts `s`.
pub open spec fn operand(s: Seq<u8>, k: int) -> u64 {
    le_value(s.subrange(1 + 8 * k, 9 + 8 * k)) as u64
}

/// The instruction of a record with a known tag and only `u64` operands.
pub open spec fn fixed_op(tag: u8, s: Seq<u8>) -> Op {
    if tag == 0 {
        Op::Push(operand(s, 0))
    } else if tag == 1 {
        Op::Out(operand(s, 0))
    } else if tag == 2 {
        Op::In
    } else if tag == 4 {
        Op::Copy(operand(s, 0))
    } else if tag == 5 {
        Op::Add(operand(s, 0), operand(s, 1))
    } else if tag == 6 {
        Op::Gt(operand(s, 0), operand(s, 1), operand(s, 2))
    } else if tag == 7 {
        Op::Eq(operand(s, 0), operand(s, 1), operand(s, 2))
    } else if tag == 8 {
        Op::Jmp(operand(s, 0))
    } else if tag == 9 {
        Op::Dec(operand(s, 0))
    } else if tag == 10 {
        Op::Inc(operand(s, 0))
    } else if tag == 11 {
        Op::InByte
    } else {
        Op::OutByte(operand(s, 0))
    }
}

/// The record at the start of the non-empty `s`: the instruction and the
/// record's length, or why there is none.
pub open spec fn decode_first(s: Seq<u8>) -> Result<(Op, nat), FormatError> {
    let tag = s[0];
    if tag > 12 {
        Err(FormatError::UnknownTag(tag))
    } else if tag == 3 {
        if s.len() < 9 {
            Err(FormatError::Truncated)
        } else {
            let n = le_value(s.subrange(1, 9));
            if s.len() < 9 + n {
                Err(FormatError::Truncated)
            } else if !valid_utf8(s.subrange(9, 9 + n as int)) {
                Err(FormatError::InvalidUtf8)
            } else {
                Ok((Op::OutStr(decode_utf8(s.subrange(9, 9 + n as int))), 9 + n))
            }
        }
    } else if s.len() < 1 + 8 * operand_count(tag) {
        Err(FormatError::Truncated)
    } else {
        Ok((fixed_op(tag, s), 1 + 8 * operand_count(tag)))
    }
}

/// The program that `s` encodes: records are read one after another until
/// the bytes end exactly at a record boundary; the first bad record decides
/// the error.
pub open spec fn decode_program(s: Seq<u8>) -> Result<Seq<Op>, FormatError>
    decreases s.len(),
{
    if s.len() == 0 {
        Ok(Seq::empty())
    } else {
        match decode_first(s) {
            Err(e) => Err(e),
            Ok((op, n)) => if 0 < n <= s.len() {
                match decode_program(s.skip(n as int)) {
                    Ok(rest) => Ok(seq![op] + rest),
                    Err(e) => Err(e),
                }
            } else {
                Err(FormatError::Truncated)
            },
        }
    }
}

/// Relies on `String::from_utf8`: it accepts exactly the well-formed UTF-8
/// byte strings, and the string it returns holds those very bytes.
#[verifier::external_body]
fn string_from_utf8(bytes: Vec<u8>) -> (r: Option<String>)
    ensures
        r.is_some() == valid_utf8(bytes@),
        r matches Some(s) ==> encode_utf8(s@) == bytes@,
{
    String::from_utf8(bytes).ok()
}

impl Instruction {
    /// Appends the record of this instruction to `out`.
    pub fn serialize(&self, out: &mut Vec<u8>)
        ensures
            final(out)@ == old(out)@ + encode_op(self@),
    {
        let ghost start = out@;
        match self {
            Instruction::Push(a) => {
                out.push(0);
                push_le_u64(out, *a);
            },
            Instruction::Out(a) => {
                out.push(1);
                push_le_u64(out, *a);
            },
            Instruction::In() => {
                out.push(2);
            },
            Instruction::OutStr(text) => {
                out.push(3);
                let b: &[u8] = text.as_str().as_bytes();
                push_le_u64(out, b.len() as u64);
                push_bytes(out, b);
            },
            Instruction::Copy(a) => {
                out.push(4);
                push_le_u64(out, *a);
            },
            Instruction::Add(a, b) => {
                out.push(5);
                push_le_u64(out, *a);
                push_le_u64(out, *b);
            },
            Instruction::Gt(a, b, t) => {
                out.push(6);
                push_le_u64(out, *a);
                push_le_u64(out, *b);
                push_le_u64(out, *t);
            },
            Instruction::Eq(a, b, t) => {
                out.push(7);
                push_le_u64(out, *a);
                push_le_u64(out, *b);
                push_le_u64(out, *t);
            },
            Instruction::Jmp(t) => {
                out.push(8);
                push_le_u64(out, *t);
            },
            Instruction::Dec(a) => {
                out.push(9);
                push_le_u64(out, *a);
            },
            Instruction::Inc(a) => {
                out.push(10);
                push_le_u64(out, *a);
            },
            Instruction::InByte() => {
                out.push(11);
            },
            Instruction::OutByte(a) => {
                out.push(12);
                push_le_u64(out, *a);
            },
        }
        assert(out@ =~= start + encode_op(self@));
    }
}

/// Appending one record to a program's bytes encodes the longer program.
pub proof fn lemma_encode_program_push(p: Seq<Op>, op: Op)
    ensures
        encode_program(p.push(op)) == encode_program(p) + encode_op(op),
    decreases p.len(),
{
    if p.len() == 0 {
        assert(p.push(op).drop_first() =~= p);
        assert(encode_program(p.push(op).drop_first()) == Seq::<u8>::empty());
        assert(encode_program(p.push(op)) =~= encode_op(op));
    } else {
        assert(p.push(op).drop_first() =~= p.drop_first().push(op));
        lemma_encode_program_push(p.drop_first(), op);
        assert(encode_program(p.push(op)) =~= encode_program(p) + encode_op(op));
    }
}

/// The bytes of a program: the record of each instruction, in order.
pub fn serialize_code(instructions: &[Instruction]) -> (r: Vec<u8>)
    ensures
        r@ == encode_program(program_view(instructions@)),
{
    let ghost ops = program_view(instructions@);
    let n: usize = instructions.len();
    let mut out: Vec<u8> = Vec::new();
    let mut i: usize = 0;
    assert(ops.take(0) =~= Seq::<Op>::empty());
    while i < n
        invariant
            i <= n == instructions@.len(),
            ops == program_view(instructions@),
            out@ == encode_program(ops.take(i as int)),
        decreases n - i,
    {
        instructions[i].serialize(&mut out);
        proof {
            assert(ops.take(i + 1) =~= ops.take(i as int).push(instructions@[i as int]@));
            lemma_encode_program_push(ops.take(i as int), instructions@[i as int]@);
        }
        i = i + 1;
    }
    assert(ops.take(n as int) =~= ops);
    out
}

/// The number of `u64` operands after a tag other than the string's.
fn operand_count_of(tag: u8) -> (r: usize)
    ensures
        r as nat == operand_count(tag),
        r <= 3,
{
    if tag == 2 || tag == 11 {
        0
    } else if tag == 5 {
        2
    } else if tag == 6 || tag == 7 {
        3
    } else {
        1
    }
}

/// The `k`-th operand of the record at `pos`.
fn read_operand(bytes: &[u8], pos: usize, k: usize) -> (r: u64)
    requires
        k < 3,
        pos + 9 + 8 * k <= bytes@.len(),
    ensures
        r == operand(bytes@.skip(pos as int), k as int),
{
    let total: usize = bytes.len();
    assert(pos + 9 + 8 * k <= total);
    let r = read_le_u64(bytes, pos + 1 + 8 * k);
    assert(bytes@.skip(pos as int).subrange(1 + 8 * k, 9 + 8 * k) =~= bytes@.subrange(
        pos + 1 + 8 * k,
        pos + 9 + 8 * k,
    ));
    r
}

impl Instruction {
    /// Reads the record at `pos`: the instruction and the record's length.
    pub fn deserialize(bytes: &[u8], pos: usize) -> (r: Result<(Instruction, usize), FormatError>)
        requires
            pos < bytes@.len(),
        ensures
            match r {
                Ok((i, n)) => {
                    &&& decode_first(bytes@.skip(pos as int)) == Ok::<(Op, nat), FormatError>((i@, n as nat))
                    &&& 0 < n
                    &&& pos + n <= bytes@.len()
                },
                Err(e) => decode_first(bytes@.skip(pos as int)) == Err::<(Op, nat), FormatError>(e),
            },
    {
        let ghost s = bytes@.skip(pos as int);
        let avail: usize = bytes.len() - pos;
        let tag: u8 = bytes[pos];
        assert(s[0] == tag);
        if tag > 12 {
            return Err(FormatError::UnknownTag(tag));
        }
        if tag == 3 {
            if avail < 9 {
                return Err(FormatError::Truncated);
            }
            let len: u64 = read_le_u64(bytes, pos + 1);
            assert(s.subrange(1, 9) =~= bytes@.subrange(pos + 1, pos + 9));
            if ((avail - 9) as u64) < len {
                return Err(FormatError::Truncated);
            }
            let len: usize = len as usize;
            let body: Vec<u8> = slice_to_vec(slice_subrange(bytes, pos + 9, pos + 9 + len));
            assert(body@ =~= s.subrange(9, 9 + len));
            return match string_from_utf8(body) {
                Some(text) => {
                    proof {
                        encode_utf8_decode_utf8(text@);
                    }
                    Ok((Instruction::OutStr(text), 9 + len))
                },
                None => Err(FormatError::InvalidUtf8),
            };
        }
        let k: usize = operand_count_of(tag);
        if avail < 1 + 8 * k {
            return Err(FormatError::Truncated);
        }
        let instr = if tag == 0 {
            Instruction::Push(read_operand(bytes, pos, 0))
        } else if tag == 1 {
            Instruction::Out(read_operand(bytes, pos, 0))
        } else if tag == 2 {
            Instruction::In()
        } else if tag == 4 {
            Instruction::Copy(read_operand(bytes, pos, 0))
        } else if tag == 5 {
            Instruction::Add(read_operand(bytes, pos, 0), read_operand(bytes, pos, 1))
        } else if tag == 6 {
            Instruction::Gt(
                read_operand(bytes, pos, 0),
                read_operand(bytes, pos, 1),
                read_operand(bytes, pos, 2),
            )
        } else if tag == 7 {
            Instruction::Eq(
                read_operand(bytes, pos, 0),
                read_operand(bytes, pos, 1),
                read_operand(bytes, pos, 2),
            )
        } else if tag == 8 {
            Instruction::Jmp(read_operand(bytes, pos, 0))
        } else if tag == 9 {
            Instruction::Dec(read_operand(bytes, pos, 0))
        } else if tag == 10 {
            Instruction::Inc(read_operand(bytes, pos, 0))
        } else if tag == 11 {
            Instruction::InByte()
        } else {
            Instruction::OutByte(read_operand(bytes, pos, 0))
        };
        Ok((instr, 1 + 8 * k))
    }
}

/// What `rest` decodes to, after the instructions `done`.
pub open spec fn after(done: Seq<Op>, rest: Result<Seq<Op>, FormatError>) -> Result<
    Seq<Op>,
    FormatError,
> {
    match rest {
        Ok(ops) => Ok(done + ops),
        Err(e) => Err(e),
    }
}

/// The program that `bytes` encodes, or the first fault in them.
pub fn deserialize_code(bytes: &[u8]) -> (r: Result<Vec<Instruction>, FormatError>)
    ensures
        match r {
            Ok(code) => decode_program(bytes@) == Ok::<Seq<Op>, FormatError>(program_view(code@)),
            Err(e) => decode_program(bytes@) == Err::<Seq<Op>, FormatError>(e),
        },
{
    let n: usize = bytes.len();
    let mut code: Vec<Instruction> = Vec::new();
    let mut pos: usize = 0;
    assert(bytes@.skip(0) =~= bytes@);
    assert(program_view(code@) =~= Seq::<Op>::empty());
    while pos < n
        invariant
            pos <= n == bytes@.len(),
            decode_program(bytes@) == after(program_view(code@), decode_program(bytes@.skip(pos as int))),
        decreases n - pos,
    {
        let ghost s = bytes@.skip(pos as int);
        match Instruction::deserialize(bytes, pos) {
            Ok((instr, len)) => {
                let ghost done = program_view(code@);
                proof {
                    assert(s.skip(len as int) =~= bytes@.skip(pos + len));
                    assert(program_view(code@.push(instr)) =~= done.push(instr@));
                    match decode_program(s.skip(len as int)) {
                        Ok(ops) => {
                            assert(done + (seq![instr@] + ops) =~= done.push(instr@) + ops);
                        },
                        Err(_) => {},
                    }
                }
                code.push(instr);
                pos = pos + len;
            },
            Err(e) => {
                return Err(e);
            },
        }
    }
    assert(bytes@.skip(n as int).len() == 0);
    assert(program_view(code@) + Seq::<Op>::empty() =~= program_view(code@));
    Ok(code)
}

/// An instruction that has a record: a string operand's byte length must fit
/// in the eight-byte length field, as that of every `String` does.
pub open spec fn encodable(op: Op) -> bool {
    match op {
        Op::OutStr(text) => encode_utf8(text).len() <= u64::MAX,
        _ => true,
    }
}

proof fn lemma_le_bytes(v: u64)
    ensures
        le_bytes(v).len() == 8,
        le_value(le_bytes(v)) == v,
{
    lemma_le_digits_len(v as nat, 8);
    lemma_pow256_8();
    lemma_le_round_trip(v as nat, 8);
}

/// The length of each record: the tag, eight bytes for each `u64` operand,
/// and for a string its length field and its UTF-8 bytes.
pub proof fn lemma_record_len(op: Op)
    ensures
        encode_op(op).len() == match op {
            Op::OutStr(text) => 9 + encode_utf8(text).len(),
            _ => 1 + 8 * operand_count(tag_of(op)),
        },
{
    match op {
        Op::OutStr(text) => {
            lemma_le_digits_len(encode_utf8(text).len(), 8);
        },
        Op::Push(a) => lemma_le_bytes(a),
        Op::Out(a) => lemma_le_bytes(a),
        Op::Copy(a) => lemma_le_bytes(a),
        Op::Jmp(a) => lemma_le_bytes(a),
        Op::Dec(a) => lemma_le_bytes(a),
        Op::Inc(a) => lemma_le_bytes(a),
        Op::OutByte(a) => lemma_le_bytes(a),
        Op::Add(a, b) => {
            lemma_le_bytes(a);
            lemma_le_bytes(b);
        },
        Op::Gt(a, b, t) => {
            lemma_le_bytes(a);
            lemma_le_bytes(b);
            lemma_le_bytes(t);
        },
        Op::Eq(a, b, t) => {
            lemma_le_bytes(a);
            lemma_le_bytes(b);
            lemma_le_bytes(t);
        },
        _ => {},
    }
}

/// Record sizes: `Push` takes 9 bytes, `Add` 17, `In` 1, and `OutStr` 9 plus
/// the byte length of its string.
pub proof fn lemma_record_sizes(v: u64, a: u64, b: u64, text: Seq<char>)
    ensures
        encode_op(Op::Push(v)).len() == 9,
        encode_op(Op::Add(a, b)).len() == 17,
        encode_op(Op::OutStr(text)).len() == 9 + encode_utf8(text).len(),
        encode_op(Op::In).len() == 1,
{
    lemma_record_len(Op::Push(v));
    lemma_record_len(Op::Add(a, b));
    lemma_record_len(Op::OutStr(text));
    lemma_record_len(Op::In);
}

proof fn lemma_operand(s: Seq<u8>, k: int, v: u64)
    requires
        0 <= k,
        9 + 8 * k <= s.len(),
        s.subrange(1 + 8 * k, 9 + 8 * k) == le_bytes(v),
    ensures
        operand(s, k) == v,
{
    lemma_le_bytes(v);
}

/// A record followed by any bytes reads back as its instruction, and takes
/// exactly its own length.
pub proof fn lemma_decode_first_encode(op: Op, rest: Seq<u8>)
    requires
        encodable(op),
    ensures
        decode_first(encode_op(op) + rest) == Ok::<(Op, nat), FormatError>((op, encode_op(op).len())),
{
    let e = encode_op(op);
    let s = e + rest;
    lemma_record_len(op);
    assert(s[0] == tag_of(op));
    match op {
        Op::OutStr(text) => {
            let b = encode_utf8(text);
            lemma_le_digits_len(b.len(), 8);
            lemma_pow256_8();
            lemma_le_round_trip(b.len(), 8);
            assert(s.subrange(1, 9) =~= le_digits(b.len(), 8));
            assert(s.subrange(9, 9 + b.len() as int) =~= b);
            encode_utf8_valid_utf8(text);
            encode_utf8_decode_utf8(text);
        },
        Op::Push(a) | Op::Out(a) | Op::Copy(a) | Op::Jmp(a) | Op::Dec(a) | Op::Inc(a) | Op::OutByte(
            a,
        ) => {
            lemma_le_bytes(a);
            assert(s.subrange(1, 9) =~= le_bytes(a));
            lemma_operand(s, 0, a);
        },
        Op::Add(a, b) => {
            lemma_le_bytes(a);
            lemma_le_bytes(b);
            assert(s.subrange(1, 9) =~= le_bytes(a));
            assert(s.subrange(9, 17) =~= le_bytes(b));
            lemma_operand(s, 0, a);
            lemma_operand(s, 1, b);
        },
        Op::Gt(a, b, t) | Op::Eq(a, b, t) => {
            lemma_le_bytes(a);
            lemma_le_bytes(b);
            lemma_le_bytes(t);
            assert(s.subrange(1, 9) =~= le_bytes(a));
            assert(s.subrange(9, 17) =~= le_bytes(b));
            assert(s.subrange(17, 25) =~= le_bytes(t));
            lemma_operand(s, 0, a);
            lemma_operand(s, 1, b);
            lemma_operand(s, 2, t);
        },
        _ => {},
    }
}

/// Round trip of one instruction: decoding its record gives it back.
pub proof fn lemma_decode_encode_op(op: Op)
    requires
        encodable(op),
    ensures
        decode_program(encode_op(op)) == Ok::<Seq<Op>, FormatError>(seq![op]),
{
    let e = encode_op(op);
    lemma_decode_first_encode(op, Seq::empty());
    assert(e + Seq::<u8>::empty() =~= e);
    assert(decode_first(e) == Ok::<(Op, nat), FormatError>((op, e.len())));
    lemma_record_len(op);
    assert(e.skip(e.len() as int) =~= Seq::<u8>::empty());
    assert(decode_program(Seq::<u8>::empty()) == Ok::<Seq<Op>, FormatError>(Seq::empty()));
    assert(seq![op] + Seq::<Op>::empty() =~= seq![op]);
}

/// Round trip of a program: decoding its bytes gives it back.
pub proof fn lemma_decode_encode_program(p: Seq<Op>)
    requires
        forall|i: int| 0 <= i < p.len() ==> encodable(#[trigger] p[i]),
    ensures
        decode_program(encode_program(p)) == Ok::<Seq<Op>, FormatError>(p),
    decreases p.len(),
{
    if p.len() > 0 {
        let e = encode_op(p[0]);
        let tail = encode_program(p.drop_first());
        lemma_decode_first_encode(p[0], tail);
        lemma_record_len(p[0]);
        assert(encode_program(p) == e + tail);
        assert((e + tail).skip(e.len() as int) =~= tail);
        assert forall|i: int| 0 <= i < p.drop_first().len() implies encodable(
            #[trigger] p.drop_first()[i],
        ) by {
            assert(p.drop_first()[i] == p[i + 1]);
        }
        lemma_decode_encode_program(p.drop_first());
        assert(decode_program(e + tail) == after(seq![p[0]], decode_program(tail)));
        assert(seq![p[0]] + p.drop_first() =~= p);
    } else {
        assert(encode_program(p) =~= Seq::<u8>::empty());
        assert(p =~= Seq::<Op>::empty());
    }
}

/// An operand field holds the encoding of the operand read from it.
proof fn lemma_operand_bytes(s: Seq<u8>, k: int)
    requires
        0 <= k,
        9 + 8 * k <= s.len(),
    ensures
        s.subrange(1 + 8 * k, 9 + 8 * k) == le_bytes(operand(s, k)),
{
    let t = s.subrange(1 + 8 * k, 9 + 8 * k);
    lemma_le_value_bound(t);
    lemma_pow256_8();
    lemma_le_digits_of_value(t);
}

/// A record that reads as an instruction is that instruction's record.
pub proof fn lemma_decode_first_is_record(s: Seq<u8>)
    requires
        s.len() > 0,
        decode_first(s) is Ok,
    ensures
        encodable(decode_first(s)->Ok_0.0),
        s.subrange(0, decode_first(s)->Ok_0.1 as int) == encode_op(decode_first(s)->Ok_0.0),
{
    let (op, n) = decode_first(s)->Ok_0;
    let tag = s[0];
    if tag == 3 {
        let t = s.subrange(1, 9);
        let len = le_value(t);
        let b = s.subrange(9, 9 + len as int);
        lemma_le_value_bound(t);
        lemma_pow256_8();
        lemma_le_digits_of_value(t);
        decode_utf8_encode_utf8(b);
        assert(s.subrange(0, n as int) =~= encode_op(op));
    } else {
        let k = operand_count(tag);
        if k >= 1 {
            lemma_operand_bytes(s, 0);
        }
        if k >= 2 {
            lemma_operand_bytes(s, 1);
        }
        if k >= 3 {
            lemma_operand_bytes(s, 2);
        }
        assert(s.subrange(0, n as int) =~= encode_op(op));
    }
}

/// The other half of the round trip: bytes that decode to a program are
/// exactly that program's encoding.
pub proof fn lemma_decoded_bytes_are_encoding(s: Seq<u8>)
    requires
        decode_program(s) is Ok,
    ensures
        encode_program(decode_program(s)->Ok_0) == s,
        forall|i: int|
            0 <= i < decode_program(s)->Ok_0.len() ==> encodable(#[trigger] decode_program(s)->Ok_0[i]),
    decreases s.len(),
{
    let p = decode_program(s)->Ok_0;
    if s.len() > 0 {
        let (op, n) = decode_first(s)->Ok_0;
        let tail = s.skip(n as int);
        lemma_decode_first_is_record(s);
        lemma_decoded_bytes_are_encoding(tail);
        let q = decode_program(tail)->Ok_0;
        assert(p == seq![op] + q);
        assert(p.drop_first() =~= q);
        assert(s =~= s.subrange(0, n as int) + tail);
        assert forall|i: int| 0 <= i < p.len() implies encodable(#[trigger] p[i]) by {
            if i > 0 {
                assert(p[i] == q[i - 1]);
            }
        }
    } else {
        assert(p =~= Seq::<Op>::empty());
    }
}

} // verus!
