//! Numbers, quoted strings and base 64 as text.

use vstd::prelude::*;
use crate::decimal::{digits, pow10, power_of_ten, push_digits};

verus! {

/// The decimal text of `v`, without leading zeros.
pub open spec fn nat_text(v: nat) -> Seq<u8>
    decreases v,
{
    if v < 10 {
        seq![(48 + v) as u8]
    } else {
        nat_text(v / 10).push((48 + v % 10) as u8)
    }
}

/// The decimal text of `v`, with a minus sign where it is negative.
pub open spec fn int_text(v: int) -> Seq<u8> {
    if v < 0 {
        seq![45u8] + nat_text((-v) as nat)
    } else {
        nat_text(v as nat)
    }
}

/// The decimal text of `v` with at least `width` digits.
pub open spec fn padded_text(v: nat, width: nat) -> Seq<u8> {
    if v < pow10(width) {
        digits(v, width)
    } else {
        nat_text(v)
    }
}

/// The lower-case hexadecimal digit of `d`.
pub open spec fn hex_digit(d: int) -> u8 {
    if d < 10 {
        (48 + d) as u8
    } else {
        (87 + d) as u8
    }
}

/// What stands for the byte `b` inside a quoted JSON string: a backslash
/// escape for the quote, the backslash and the control characters, the byte
/// itself otherwise.
pub open spec fn escape_byte(b: u8) -> Seq<u8> {
    if b == 34 {
        seq![92u8, 34u8]
    } else if b == 92 {
        seq![92u8, 92u8]
    } else if b == 8 {
        seq![92u8, 98u8]
    } else if b == 12 {
        seq![92u8, 102u8]
    } else if b == 10 {
        seq![92u8, 110u8]
    } else if b == 13 {
        seq![92u8, 114u8]
    } else if b == 9 {
        seq![92u8, 116u8]
    } else if b < 32 {
        seq![92u8, 117u8, 48u8, 48u8, hex_digit(b as int / 16), hex_digit(b as int % 16)]
    } else {
        seq![b]
    }
}

/// The bytes of `t`, each escaped.
pub open spec fn escaped(t: Seq<u8>) -> Seq<u8>
    decreases t.len(),
{
    if t.len() == 0 {
        Seq::empty()
    } else {
        escaped(t.drop_last()) + escape_byte(t.last())
    }
}

/// `t` as a quoted JSON string.
pub open spec fn quoted(t: Seq<u8>) -> Seq<u8> {
    seq![34u8] + escaped(t) + seq![34u8]
}

/// The character of the base-64 alphabet that stands for `v`.
pub open spec fn base64_char(v: int) -> u8 {
    if v < 26 {
        (65 + v) as u8
    } else if v < 52 {
        (71 + v) as u8
    } else if v < 62 {
        (v - 4) as u8
    } else if v == 62 {
        43
    } else {
        47
    }
}

/// The base-64 text of the bytes of `s` from `pos` up to `end`, appended to
/// `acc`: four characters for every three bytes, padded with `=`.
pub open spec fn base64_from(s: Seq<u8>, pos: int, end: int, acc: Seq<u8>) -> Seq<u8>
    decreases end - pos,
{
    if pos >= end {
        acc
    } else if end - pos == 1 {
        acc + seq![
            base64_char(s[pos] as int / 4),
            base64_char((s[pos] as int % 4) * 16),
            61u8,
            61u8,
        ]
    } else if end - pos == 2 {
        acc + seq![
            base64_char(s[pos] as int / 4),
            base64_char((s[pos] as int % 4) * 16 + s[pos + 1] as int / 16),
            base64_char((s[pos + 1] as int % 16) * 4),
            61u8,
        ]
    } else {
        base64_from(
            s,
            pos + 3,
            end,
            acc + seq![
                base64_char(s[pos] as int / 4),
                base64_char((s[pos] as int % 4) * 16 + s[pos + 1] as int / 16),
                base64_char((s[pos + 1] as int % 16) * 4 + s[pos + 2] as int / 64),
                base64_char(s[pos + 2] as int % 64),
            ],
        )
    }
}

/// Appends the decimal text of `v`.
pub fn push_nat(out: &mut Vec<u8>, v: u64)
    ensures
        final(out)@ == old(out)@ + nat_text(v as nat),
    decreases v,
{
    if v >= 10 {
        push_nat(out, v / 10);
    }
    out.push(48 + (v % 10) as u8);
    assert(out@ =~= old(out)@ + nat_text(v as nat));
}

/// Appends the decimal text of `v`.
pub fn push_int(out: &mut Vec<u8>, v: i64)
    ensures
        final(out)@ == old(out)@ + int_text(v as int),
{
    if v < 0 {
        out.push(45);
        let ghost signed = out@;
        push_nat(out, (-(v + 1)) as u64 + 1);
        assert(out@ =~= old(out)@ + int_text(v as int));
    } else {
        push_nat(out, v as u64);
    }
}

/// Appends the decimal text of `v` with at least `width` digits.
pub(crate) fn push_padded(out: &mut Vec<u8>, v: u64, width: usize)
    requires
        width <= 9,
    ensures
        final(out)@ == old(out)@ + padded_text(v as nat, width as nat),
{
    if v < power_of_ten(width) {
        push_digits(out, v, width);
    } else {
        push_nat(out, v);
    }
}

/// The lower-case hexadecimal digit of `d`.
fn hex_of(d: u8) -> (c: u8)
    requires
        d < 16,
    ensures
        c == hex_digit(d as int),
{
    if d < 10 {
        48 + d
    } else {
        87 + d
    }
}

/// Appends what stands for `b` inside a quoted string.
fn push_escaped_byte(out: &mut Vec<u8>, b: u8)
    ensures
        final(out)@ == old(out)@ + escape_byte(b),
{
    if b == 34 || b == 92 {
        out.push(92);
        out.push(b);
    } else if b == 8 || b == 12 || b == 10 || b == 13 || b == 9 {
        out.push(92);
        out.push(
            if b == 8 {
                98
            } else if b == 12 {
                102
            } else if b == 10 {
                110
            } else if b == 13 {
                114
            } else {
                116
            },
        );
    } else if b < 32 {
        out.push(92);
        out.push(117);
        out.push(48);
        out.push(48);
        out.push(hex_of(b / 16));
        out.push(hex_of(b % 16));
    } else {
        out.push(b);
    }
    assert(out@ =~= old(out)@ + escape_byte(b));
}

/// Appends the bytes of `buf` from `start` up to `end` as a quoted JSON
/// string.
pub fn push_quoted(out: &mut Vec<u8>, buf: &[u8], start: usize, end: usize)
    requires
        start <= end <= buf@.len(),
    ensures
        final(out)@ == old(out)@ + quoted(buf@.subrange(start as int, end as int)),
{
    out.push(34);
    let ghost opened = out@;
    let mut i: usize = start;
    assert(buf@.subrange(start as int, start as int) =~= Seq::empty());
    assert(out@ =~= opened + escaped(buf@.subrange(start as int, i as int)));
    while i < end
        invariant
            start <= i <= end <= buf@.len(),
            out@ == opened + escaped(buf@.subrange(start as int, i as int)),
        decreases end - i,
    {
        push_escaped_byte(out, buf[i]);
        proof {
            let next = buf@.subrange(start as int, i + 1);
            assert(next.drop_last() =~= buf@.subrange(start as int, i as int));
            assert(next.last() == buf@[i as int]);
            assert(out@ =~= opened + escaped(next));
        }
        i = i + 1;
    }
    out.push(34);
    assert(out@ =~= old(out)@ + quoted(buf@.subrange(start as int, end as int)));
}

/// The character of the base-64 alphabet for `v`.
fn base64_of(v: u8) -> (c: u8)
    requires
        v < 64,
    ensures
        c == base64_char(v as int),
{
    if v < 26 {
        65 + v
    } else if v < 52 {
        71 + v
    } else if v < 62 {
        v - 4
    } else if v == 62 {
        43
    } else {
        47
    }
}

/// Appends the base-64 text of the bytes of `buf` from `start` up to `end`.
pub fn push_base64(out: &mut Vec<u8>, buf: &[u8], start: usize, end: usize)
    requires
        start <= end <= buf@.len(),
    ensures
        final(out)@ == base64_from(buf@, start as int, end as int, old(out)@),
{
    let mut pos: usize = start;
    while end - pos >= 3
        invariant
            start <= pos <= end <= buf@.len(),
            base64_from(buf@, start as int, end as int, old(out)@) == base64_from(
                buf@,
                pos as int,
                end as int,
                out@,
            ),
        decreases end - pos,
    {
        let ghost before = out@;
        let b0: u8 = buf[pos];
        let b1: u8 = buf[pos + 1];
        let b2: u8 = buf[pos + 2];
        out.push(base64_of(b0 / 4));
        out.push(base64_of((b0 % 4) * 16 + b1 / 16));
        out.push(base64_of((b1 % 16) * 4 + b2 / 64));
        out.push(base64_of(b2 % 64));
        assert(out@ =~= before + seq![
            base64_char(b0 as int / 4),
            base64_char((b0 as int % 4) * 16 + b1 as int / 16),
            base64_char((b1 as int % 16) * 4 + b2 as int / 64),
            base64_char(b2 as int % 64),
        ]);
        pos = pos + 3;
    }
    let ghost before = out@;
    if end - pos == 1 {
        let b0: u8 = buf[pos];
        out.push(base64_of(b0 / 4));
        out.push(base64_of((b0 % 4) * 16));
        out.push(61);
        out.push(61);
        assert(out@ =~= before + seq![
            base64_char(b0 as int / 4),
            base64_char((b0 as int % 4) * 16),
            61u8,
            61u8,
        ]);
    } else if end - pos == 2 {
        let b0: u8 = buf[pos];
        let b1: u8 = buf[pos + 1];
        out.push(base64_of(b0 / 4));
        out.push(base64_of((b0 % 4) * 16 + b1 / 16));
        out.push(base64_of((b1 % 16) * 4));
        out.push(61);
        assert(out@ =~= before + seq![
            base64_char(b0 as int / 4),
            base64_char((b0 as int % 4) * 16 + b1 as int / 16),
            base64_char((b1 as int % 16) * 4),
            61u8,
        ]);
    }
}

/// Appends the bytes of `literal`.
pub fn push_bytes(out: &mut Vec<u8>, literal: &[u8])
    ensures
        final(out)@ == old(out)@ + literal@,
{
    let mut i: usize = 0;
    while i < literal.len()
        invariant
            i <= literal@.len(),
            out@ == old(out)@ + literal@.subrange(0, i as int),
        decreases literal@.len() - i,
    {
        out.push(literal[i]);
        i = i + 1;
        assert(out@ =~= old(out)@ + literal@.subrange(0, i as int));
    }
    assert(literal@.subrange(0, i as int) =~= literal@);
}

/// The text of a date.
pub open spec fn date_text(year: nat, month: nat, day: nat) -> Seq<u8> {
    padded_text(year, 4) + seq![45u8] + digits(month, 2) + seq![45u8] + digits(day, 2)
}

/// The text of a time of day with six digits for the fraction of a second.
pub open spec fn clock_text(hours: nat, minutes: nat, seconds: nat, micros: nat) -> Seq<u8> {
    padded_text(hours, 2) + seq![58u8] + digits(minutes, 2) + seq![58u8] + digits(seconds, 2)
        + seq![46u8] + digits(micros, 6)
}

/// Appends the text of a date.
pub fn push_date(out: &mut Vec<u8>, year: u16, month: u8, day: u8)
    ensures
        final(out)@ == old(out)@ + date_text(year as nat, month as nat, day as nat),
{
    push_padded(out, year as u64, 4);
    out.push(45);
    push_digits(out, month as u64, 2);
    out.push(45);
    push_digits(out, day as u64, 2);
    assert(out@ =~= old(out)@ + date_text(year as nat, month as nat, day as nat));
}

/// Appends the text of a time of day.
pub fn push_clock(out: &mut Vec<u8>, hours: u64, minutes: u64, seconds: u64, micros: u64)
    ensures
        final(out)@ == old(out)@ + clock_text(
            hours as nat,
            minutes as nat,
            seconds as nat,
            micros as nat,
        ),
{
    push_padded(out, hours, 2);
    out.push(58);
    push_digits(out, minutes, 2);
    out.push(58);
    push_digits(out, seconds, 2);
    out.push(46);
    push_digits(out, micros, 6);
    assert(out@ =~= old(out)@ + clock_text(
        hours as nat,
        minutes as nat,
        seconds as nat,
        micros as nat,
    ));
}

} // verus!
