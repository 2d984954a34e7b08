//! The input stream of a run: one buffer read both by lines and by single
//! bytes, so that neither way of reading loses or repeats a byte.

use vstd::prelude::*;
use vstd::slice::{slice_subrange, slice_to_vec};
use crate::numeric::push_bytes;

verus! {

/// Where the first line of `s` ends: the index of its first newline byte, or
/// the length of `s` when it has none.
pub open spec fn line_end(s: Seq<u8>) -> nat
    decreases s.len(),
{
    if s.len() == 0 || s[0] == 10 {
        0
    } else {
        1 + line_end(s.drop_first())
    }
}

/// The text of the first line of `s`, without its `"\n"` or `"\r\n"` ending.
pub open spec fn line_text(s: Seq<u8>) -> Seq<u8> {
    let e = line_end(s) as int;
    if 0 < e < s.len() && s[e - 1] == 13 {
        s.take(e - 1)
    } else {
        s.take(e)
    }
}

/// How many bytes reading the first line of `s` takes: the line and its
/// newline, if it has one.
pub open spec fn line_consumed(s: Seq<u8>) -> nat {
    if line_end(s) < s.len() {
        line_end(s) + 1
    } else {
        line_end(s)
    }
}

proof fn lemma_line_end(s: Seq<u8>, e: int)
    requires
        0 <= e <= s.len(),
        forall|j: int| 0 <= j < e ==> s[j] != 10,
        e == s.len() || s[e] == 10,
    ensures
        line_end(s) == e,
    decreases e,
{
    if e > 0 {
        lemma_line_end(s.drop_first(), e - 1);
    }
}

/// Bytes still to be read, and how far reading has come.
pub struct Input {
    bytes: Vec<u8>,
    pos: usize,
}

impl View for Input {
    type V = Seq<u8>;

    /// The bytes not read yet.
    closed spec fn view(&self) -> Seq<u8> {
        self.bytes@.skip(self.pos as int)
    }
}

impl Input {
    #[verifier::type_invariant]
    spec fn inv(&self) -> bool {
        self.pos <= self.bytes@.len()
    }

    /// An input that will yield `bytes`, then end.
    pub fn new(bytes: Vec<u8>) -> (r: Input)
        ensures
            r@ == bytes@,
    {
        let r = Input { bytes, pos: 0 };
        assert(r.bytes@.skip(0) =~= r.bytes@);
        r
    }

    /// Reads one byte; `None` at the end of the input.
    pub fn read_byte(&mut self) -> (r: Option<u8>)
        ensures
            old(self)@.len() == 0 ==> r is None && final(self)@ == old(self)@,
            old(self)@.len() > 0 ==> r == Some(old(self)@[0]) && final(self)@ == old(self)@.drop_first(),
    {
        proof {
            use_type_invariant(&*self);
        }
        if self.pos < self.bytes.len() {
            let b: u8 = self.bytes[self.pos];
            self.pos = self.pos + 1;
            assert(self@ =~= old(self)@.drop_first());
            Some(b)
        } else {
            None
        }
    }

    /// Reads one line; `None` at the end of the input. The line's text comes
    /// without its ending, which is consumed too.
    pub fn read_line(&mut self) -> (r: Option<Vec<u8>>)
        ensures
            old(self)@.len() == 0 ==> r is None && final(self)@ == old(self)@,
            old(self)@.len() > 0 ==> r is Some && final(self)@ == old(self)@.skip(
                line_consumed(old(self)@) as int,
            ),
            r matches Some(line) ==> line@ == line_text(old(self)@),
    {
        proof {
            use_type_invariant(&*self);
        }
        let ghost s = self@;
        let n: usize = self.bytes.len();
        let start: usize = self.pos;
        if start == n {
            return None;
        }
        let mut i: usize = start;
        while i < n && self.bytes[i] != 10
            invariant
                start <= i <= n == self.bytes@.len(),
                s == self.bytes@.skip(start as int),
                forall|j: int| start <= j < i ==> self.bytes@[j] != 10,
            decreases n - i,
        {
            i = i + 1;
        }
        proof {
            lemma_line_end(s, i - start);
        }
        let stop: usize = if i > start && i < n && self.bytes[i - 1] == 13 {
            i - 1
        } else {
            i
        };
        let line: Vec<u8> = slice_to_vec(slice_subrange(self.bytes.as_slice(), start, stop));
        assert(line@ =~= line_text(s));
        self.pos = if i < n {
            i + 1
        } else {
            i
        };
        assert(self@ =~= s.skip(line_consumed(s) as int));
        Some(line)
    }

    /// Adds `more` at the end of the bytes still to be read. The bytes
    /// already read are dropped.
    pub fn append(&mut self, more: &[u8])
        ensures
            final(self)@ == old(self)@ + more@,
    {
        proof {
            use_type_invariant(&*self);
        }
        let n: usize = self.bytes.len();
        let mut bytes: Vec<u8> = slice_to_vec(slice_subrange(self.bytes.as_slice(), self.pos, n));
        push_bytes(&mut bytes, more);
        *self = Input { bytes, pos: 0 };
        assert(self@ =~= old(self)@ + more@);
    }

    /// Whether no byte is left to read.
    pub fn is_empty(&self) -> (r: bool)
        ensures
            r == (self@.len() == 0),
    {
        proof {
            use_type_invariant(self);
        }
        self.pos == self.bytes.len()
    }

    /// Whether a whole line, newline included, is waiting to be read.
    pub fn has_line(&self) -> (r: bool)
        ensures
            r == (line_end(self@) < self@.len()),
    {
        proof {
            use_type_invariant(self);
        }
        let ghost s = self@;
        let n: usize = self.bytes.len();
        let mut i: usize = self.pos;
        while i < n && self.bytes[i] != 10
            invariant
                self.pos <= i <= n == self.bytes@.len(),
                s == self.bytes@.skip(self.pos as int),
                forall|j: int| self.pos <= j < i ==> self.bytes@[j] != 10,
            decreases n - i,
        {
            i = i + 1;
        }
        proof {
            lemma_line_end(s, i - self.pos);
        }
        i < n
    }
}

} // verus!
