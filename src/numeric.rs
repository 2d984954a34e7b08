//! Fixed-width little-endian integers and decimal text, on bytes.

use vstd::prelude::*;

verus! {

/// `256` raised to `n`.
pub open spec fn pow256(n: nat) -> nat
    decreases n,
{
    if n == 0 {
        1
    } else {
        256 * pow256((n - 1) as nat)
    }
}

/// The `n` low-order base-256 digits of `v`, least significant first.
pub open spec fn le_digits(v: nat, n: nat) -> Seq<u8>
    decreases n,
{
    if n == 0 {
        Seq::empty()
    } else {
        seq![(v % 256) as u8] + le_digits(v / 256, (n - 1) as nat)
    }
}

/// The number whose base-256 digits, least significant first, are `s`.
pub open spec fn le_value(s: Seq<u8>) -> nat
    decreases s.len(),
{
    if s.len() == 0 {
        0
    } else {
        s[0] as nat + 256 * le_value(s.drop_first())
    }
}

/// The eight-byte little-endian encoding of `v`.
pub open spec fn le_bytes(v: u64) -> Seq<u8> {
    le_digits(v as nat, 8)
}

/// `256^8` is `2^64`.
pub proof fn lemma_pow256_8()
    ensures
        pow256(8) == 0x1_0000_0000_0000_0000,
{
    reveal_with_fuel(pow256, 9);
}

/// Powers of 256 grow with the exponent.
pub proof fn lemma_pow256_monotone(a: nat, b: nat)
    requires
        a <= b,
    ensures
        pow256(a) <= pow256(b),
    decreases b,
{
    if a < b {
        lemma_pow256_monotone(a, (b - 1) as nat);
    }
}

/// Writing `n` digits gives `n` bytes.
pub proof fn lemma_le_digits_len(v: nat, n: nat)
    ensures
        le_digits(v, n).len() == n,
    decreases n,
{
    if n > 0 {
        lemma_le_digits_len(v / 256, (n - 1) as nat);
    }
}

/// Reading back the `n` digits of a value below `256^n` gives the value.
pub proof fn lemma_le_round_trip(v: nat, n: nat)
    requires
        v < pow256(n),
    ensures
        le_value(le_digits(v, n)) == v,
    decreases n,
{
    if n > 0 {
        let rest = le_digits(v / 256, (n - 1) as nat);
        assert(v / 256 < pow256((n - 1) as nat)) by (nonlinear_arith)
            requires
                v < 256 * pow256((n - 1) as nat),
        ;
        lemma_le_round_trip(v / 256, (n - 1) as nat);
        assert((seq![(v % 256) as u8] + rest).drop_first() =~= rest);
        assert(v == v % 256 + 256 * (v / 256)) by (nonlinear_arith);
    } else {
        assert(v == 0);
    }
}

/// `n` base-256 digits stand for a number below `256^n`.
pub proof fn lemma_le_value_bound(s: Seq<u8>)
    ensures
        le_value(s) < pow256(s.len()),
    decreases s.len(),
{
    if s.len() > 0 {
        lemma_le_value_bound(s.drop_first());
        let r = le_value(s.drop_first());
        let p = pow256((s.len() - 1) as nat);
        let b = s[0] as nat;
        assert(b + 256 * r < 256 * p) by (nonlinear_arith)
            requires
                r < p,
                b < 256,
        ;
    }
}

/// Writing out the value of `t` with as many digits as `t` has gives `t`.
pub proof fn lemma_le_digits_of_value(t: Seq<u8>)
    ensures
        le_digits(le_value(t), t.len()) == t,
    decreases t.len(),
{
    if t.len() > 0 {
        let r = le_value(t.drop_first());
        let b = t[0] as nat;
        let v = le_value(t);
        assert(v % 256 == b && v / 256 == r) by (nonlinear_arith)
            requires
                v == b + 256 * r,
                b < 256,
        ;
        lemma_le_digits_of_value(t.drop_first());
        assert(le_digits(v, t.len()) =~= t);
    } else {
        assert(t =~= Seq::<u8>::empty());
    }
}

/// Appends `bytes` to `out`.
pub fn push_bytes(out: &mut Vec<u8>, bytes: &[u8])
    ensures
        final(out)@ == old(out)@ + bytes@,
{
    let n: usize = bytes.len();
    let mut i: usize = 0;
    while i < n
        invariant
            i <= n == bytes@.len(),
            out@ == old(out)@ + bytes@.take(i as int),
        decreases n - i,
    {
        out.push(bytes[i]);
        assert(old(out)@ + bytes@.take(i + 1) =~= out@);
        i = i + 1;
    }
    assert(bytes@.take(n as int) =~= bytes@);
}

/// Appends the eight-byte little-endian encoding of `v` to `out`.
pub fn push_le_u64(out: &mut Vec<u8>, v: u64)
    ensures
        final(out)@ == old(out)@ + le_bytes(v),
{
    let ghost start = out@;
    let mut x: u64 = v;
    let mut i: usize = 0;
    while i < 8
        invariant
            i <= 8,
            out@ + le_digits(x as nat, (8 - i) as nat) == start + le_bytes(v),
        decreases 8 - i,
    {
        let ghost before = out@;
        let b: u8 = (x % 256) as u8;
        out.push(b);
        proof {
            let tail = le_digits((x / 256) as nat, (8 - i - 1) as nat);
            assert(le_digits(x as nat, (8 - i) as nat) == seq![b] + tail);
            assert(before + (seq![b] + tail) =~= out@ + tail);
        }
        x = x / 256;
        i = i + 1;
    }
    assert(out@ + le_digits(x as nat, 0) =~= out@);
}

/// Reads the `u64` stored little-endian in `bytes[pos..pos + 8]`.
pub fn read_le_u64(bytes: &[u8], pos: usize) -> (r: u64)
    requires
        pos + 8 <= bytes@.len(),
    ensures
        r as nat == le_value(bytes@.subrange(pos as int, pos + 8)),
{
    let n: usize = bytes.len();
    let mut acc: u64 = 0;
    let mut i: usize = 8;
    proof {
        lemma_pow256_8();
        assert(bytes@.subrange(pos + 8, pos + 8).len() == 0);
    }
    while i > 0
        invariant
            i <= 8,
            pos + 8 <= n,
            n == bytes@.len(),
            acc as nat == le_value(bytes@.subrange(pos + i, pos + 8)),
            (acc as nat) < pow256((8 - i) as nat),
            pow256(8) == 0x1_0000_0000_0000_0000,
        decreases i,
    {
        i = i - 1;
        let b: u8 = bytes[pos + i];
        proof {
            let p = pow256((8 - i - 1) as nat);
            let a = acc as nat;
            assert(a * 256 + b < 256 * p) by (nonlinear_arith)
                requires
                    a < p,
                    b < 256,
            ;
            lemma_pow256_monotone((8 - i) as nat, 8);
            let s = bytes@.subrange(pos + i, pos + 8);
            assert(s.drop_first() =~= bytes@.subrange(pos + i + 1, pos + 8));
            assert(s[0] == b);
        }
        acc = acc * 256 + b as u64;
    }
    acc
}

/// The ASCII decimal digits of `v`, most significant first, with no leading zero.
pub open spec fn decimal(v: nat) -> Seq<u8>
    decreases v,
{
    if v < 10 {
        seq![(48 + v) as u8]
    } else {
        decimal(v / 10).push((48 + v % 10) as u8)
    }
}

pub open spec fn is_digit(b: u8) -> bool {
    48 <= b <= 57
}

pub open spec fn all_digits(s: Seq<u8>) -> bool {
    forall|i: int| 0 <= i < s.len() ==> is_digit(#[trigger] s[i])
}

/// The number written by the ASCII decimal digits `s`, most significant first.
pub open spec fn digits_value(s: Seq<u8>) -> nat
    decreases s.len(),
{
    if s.len() == 0 {
        0
    } else {
        digits_value(s.drop_last()) * 10 + (s.last() - 48) as nat
    }
}

/// The unsigned 64-bit number that `text` writes in decimal: an optional `+`,
/// then one or more digits, with a value that fits; `None` for anything else.
pub open spec fn parse_decimal(text: Seq<u8>) -> Option<u64> {
    let d = if text.len() > 0 && text[0] == 43 {
        text.drop_first()
    } else {
        text
    };
    if d.len() > 0 && all_digits(d) && digits_value(d) <= u64::MAX {
        Some(digits_value(d) as u64)
    } else {
        None
    }
}

/// A digit string is worth at least as much as any of its prefixes.
pub proof fn lemma_digits_value_prefix(s: Seq<u8>, i: int)
    requires
        0 <= i <= s.len(),
        all_digits(s),
    ensures
        digits_value(s.subrange(0, i)) <= digits_value(s),
    decreases s.len(),
{
    if i < s.len() {
        let t = s.drop_last();
        assert(all_digits(t)) by {
            assert forall|j: int| 0 <= j < t.len() implies is_digit(#[trigger] t[j]) by {
                assert(t[j] == s[j]);
            }
        }
        lemma_digits_value_prefix(t, i);
        assert(t.subrange(0, i) =~= s.subrange(0, i));
    } else {
        assert(s.subrange(0, i) =~= s);
    }
}

/// Appends the decimal digits of `v` to `out`.
pub fn push_decimal(out: &mut Vec<u8>, v: u64)
    ensures
        final(out)@ == old(out)@ + decimal(v as nat),
    decreases v,
{
    if v >= 10 {
        push_decimal(out, v / 10);
    }
    out.push((48 + v % 10) as u8);
    assert(old(out)@ + decimal(v as nat) =~= out@);
}

/// Reads `text` as an unsigned 64-bit decimal number.
pub fn parse_u64(text: &[u8]) -> (r: Option<u64>)
    ensures
        r == parse_decimal(text@),
{
    let n: usize = text.len();
    let start: usize = if n > 0 && text[0] == 43 {
        1
    } else {
        0
    };
    let ghost d = if n > 0 && text@[0] == 43 {
        text@.drop_first()
    } else {
        text@
    };
    assert(d =~= text@.subrange(start as int, n as int));
    if start == n {
        return None;
    }
    let mut acc: u64 = 0;
    let mut i: usize = start;
    while i < n
        invariant
            start <= i <= n,
            n == text@.len(),
            d =~= text@.subrange(start as int, n as int),
            start < n,
            parse_decimal(text@) == (if all_digits(d) && digits_value(d) <= u64::MAX {
                Some(digits_value(d) as u64)
            } else {
                None
            }),
            forall|j: int| start <= j < i ==> is_digit(#[trigger] text@[j]),
            acc as nat == digits_value(text@.subrange(start as int, i as int)),
        decreases n - i,
    {
        let b: u8 = text[i];
        if b < 48 || b > 57 {
            assert(!is_digit(d[i - start]));
            assert(!all_digits(d));
            return None;
        }
        let ghost pre = text@.subrange(start as int, i as int);
        let ghost next = text@.subrange(start as int, i + 1);
        assert(next.drop_last() =~= pre);
        assert(next.last() == b);
        let digit: u64 = (b - 48) as u64;
        match acc.checked_mul(10) {
            Some(m) => match m.checked_add(digit) {
                Some(a) => {
                    acc = a;
                },
                None => {
                    proof { self::lemma_overflow(text@, start as int, i as int, n as int); }
                    return None;
                },
            },
            None => {
                proof { self::lemma_overflow(text@, start as int, i as int, n as int); }
                return None;
            },
        }
        i = i + 1;
    }
    assert(d =~= text@.subrange(start as int, i as int));
    Some(acc)
}

/// A digit prefix that overflows makes the whole text fail to parse.
proof fn lemma_overflow(text: Seq<u8>, start: int, i: int, n: int)
    requires
        0 <= start <= i < n == text.len(),
        forall|j: int| start <= j <= i ==> is_digit(#[trigger] text[j]),
        digits_value(text.subrange(start, i + 1)) > u64::MAX,
    ensures
        !(all_digits(text.subrange(start, n)) && digits_value(text.subrange(start, n)) <= u64::MAX),
{
    let d = text.subrange(start, n);
    if all_digits(d) {
        lemma_digits_value_prefix(d, i + 1 - start);
        assert(d.subrange(0, i + 1 - start) =~= text.subrange(start, i + 1));
    }
}

} // verus!
