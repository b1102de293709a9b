//! Fixed-point numbers in their packed form, decoded to decimal text.

use vstd::prelude::*;
use crate::bytes::{be_at, fits, in_bounds, read_be};

verus! {

/// `10` to the power `n`.
pub open spec fn pow10(n: nat) -> nat
    decreases n,
{
    if n == 0 {
        1
    } else {
        10 * pow10((n - 1) as nat)
    }
}

/// The `width` lowest decimal digits of `v` as ASCII, highest first.
pub open spec fn digits(v: nat, width: nat) -> Seq<u8>
    decreases width,
{
    if width == 0 {
        Seq::empty()
    } else {
        digits(v / 10, (width - 1) as nat).push((48 + v % 10) as u8)
    }
}

/// Number of bytes that hold `d` decimal digits, for `d` below 9.
pub open spec fn digit_bytes(d: int) -> int {
    if d <= 0 {
        0
    } else if d <= 2 {
        1
    } else if d <= 4 {
        2
    } else if d <= 6 {
        3
    } else {
        4
    }
}

/// Number of bytes of a packed decimal: 4 bytes for every 9 digits on either
/// side of the point, and fewer for the digits that are left over.
pub open spec fn decimal_size(precision: int, scale: int) -> int {
    ((precision - scale) / 9) * 4 + digit_bytes((precision - scale) % 9) + (scale / 9) * 4
        + digit_bytes(scale % 9)
}

/// Byte `i` of a packed decimal with its sign taken out. The highest bit of
/// the first byte is set for a number that is not negative; a negative
/// number has all its bits inverted.
pub open spec fn plain_byte(s: Seq<u8>, pos: int, i: int) -> u8 {
    if s[pos] >= 128 {
        if i == 0 {
            (s[pos] - 128) as u8
        } else {
            s[pos + i]
        }
    } else {
        if i == 0 {
            (127 - s[pos]) as u8
        } else {
            (255 - s[pos + i]) as u8
        }
    }
}

/// The `size` bytes of the packed decimal at `pos` with the sign taken out.
pub open spec fn plain_bytes(s: Seq<u8>, pos: int, size: int) -> Seq<u8> {
    Seq::new(size as nat, |i: int| plain_byte(s, pos, i))
}

/// Appends to `acc` the digits of `groups` groups of 9 digits, 4 bytes each,
/// from `off` on. `None` when a group holds more than 9 digits.
pub open spec fn groups_text(plain: Seq<u8>, off: int, groups: int, acc: Seq<u8>) -> Option<
    Seq<u8>,
>
    decreases groups,
{
    if groups <= 0 {
        Some(acc)
    } else if be_at(plain, off, 4) >= 1000000000 {
        None
    } else {
        groups_text(plain, off + 4, groups - 1, acc + digits(be_at(plain, off, 4), 9))
    }
}

/// Appends to `acc` the `d` digits of a group of fewer than 9 digits.
pub open spec fn partial_text(plain: Seq<u8>, off: int, d: int, acc: Seq<u8>) -> Option<Seq<u8>> {
    if be_at(plain, off, digit_bytes(d) as nat) >= pow10(d as nat) {
        None
    } else {
        Some(acc + digits(be_at(plain, off, digit_bytes(d) as nat), d as nat))
    }
}

/// Index of the first byte of `t` from `i` on that is not the digit zero.
pub open spec fn first_nonzero(t: Seq<u8>, i: int) -> int
    decreases t.len() - i,
{
    if 0 <= i < t.len() && t[i] == 48 {
        first_nonzero(t, i + 1)
    } else {
        i
    }
}

/// The digits before the point: `t` without its leading zeros, and a single
/// zero where nothing else is left.
pub open spec fn integer_text(t: Seq<u8>) -> Seq<u8> {
    if first_nonzero(t, 0) >= t.len() {
        seq![48u8]
    } else {
        t.skip(first_nonzero(t, 0))
    }
}

/// The digits before the point of a packed decimal whose plain bytes are
/// `plain`: the group of leftover digits, then the full groups.
pub open spec fn integer_digits(plain: Seq<u8>, precision: int, scale: int) -> Option<Seq<u8>> {
    let intg = precision - scale;
    match partial_text(plain, 0, intg % 9, Seq::empty()) {
        None => None,
        Some(lead) => groups_text(plain, digit_bytes(intg % 9), intg / 9, lead),
    }
}

/// The digits behind the point: the full groups, then the leftover digits.
pub open spec fn fraction_digits(plain: Seq<u8>, precision: int, scale: int) -> Option<Seq<u8>> {
    let intg = precision - scale;
    let off = (intg / 9) * 4 + digit_bytes(intg % 9);
    match groups_text(plain, off, scale / 9, Seq::empty()) {
        None => None,
        Some(full) => partial_text(plain, off + (scale / 9) * 4, scale % 9, full),
    }
}

/// The text of the packed decimal at `pos`, and the position behind it: a
/// minus sign for a negative number, the digits before the point without
/// leading zeros, and, where `scale` is not zero, a point and `scale` digits.
/// `None` when `scale` exceeds `precision`, `precision` is zero, bytes are
/// missing, or a group of digits holds more than it has room for.
#[verifier::opaque]
pub open spec fn decimal_at(s: Seq<u8>, pos: int, precision: int, scale: int) -> Option<
    (Seq<u8>, int),
> {
    let size = decimal_size(precision, scale);
    if precision <= 0 || scale < 0 || scale > precision || !in_bounds(s, pos, size) {
        None
    } else {
        let plain = plain_bytes(s, pos, size);
        let sign = if s[pos] >= 128 {
            Seq::<u8>::empty()
        } else {
            seq![45u8]
        };
        match (integer_digits(plain, precision, scale), fraction_digits(plain, precision, scale)) {
            (Some(i), Some(f)) => Some(
                (
                    if scale == 0 {
                        sign + integer_text(i)
                    } else {
                        sign + integer_text(i) + seq![46u8] + f
                    },
                    pos + size,
                ),
            ),
            _ => None,
        }
    }
}

/// Number of bytes that hold `d` decimal digits.
fn digit_bytes_of(d: usize) -> (n: usize)
    ensures
        n == digit_bytes(d as int),
{
    if d == 0 {
        0
    } else if d <= 2 {
        1
    } else if d <= 4 {
        2
    } else if d <= 6 {
        3
    } else {
        4
    }
}

/// Computes `10` to the power `n`.
pub(crate) fn power_of_ten(n: usize) -> (p: u64)
    requires
        n <= 9,
    ensures
        p == pow10(n as nat),
{
    let mut p: u64 = 1;
    let mut i: usize = 0;
    while i < n
        invariant
            i <= n <= 9,
            p == pow10(i as nat),
            p <= 1000000000,
            i < 9 ==> p <= 100000000,
        decreases n - i,
    {
        proof {
            reveal_with_fuel(pow10, 11);
        }
        p = p * 10;
        i = i + 1;
    }
    p
}

/// Appends the `width` lowest decimal digits of `v`.
pub fn push_digits(out: &mut Vec<u8>, v: u64, width: usize)
    ensures
        final(out)@ == old(out)@ + digits(v as nat, width as nat),
    decreases width,
{
    if width > 0 {
        push_digits(out, v / 10, width - 1);
        out.push(48 + (v % 10) as u8);
        assert(out@ =~= old(out)@ + digits(v as nat, width as nat));
    } else {
        assert(out@ =~= old(out)@ + digits(v as nat, width as nat));
    }
}

/// Appends the digits of `groups` full groups; `false` for a group that
/// holds too much.
fn push_groups(plain: &[u8], off: usize, groups: usize, out: &mut Vec<u8>) -> (ok: bool)
    requires
        in_bounds(plain@, off as int, 4 * groups),
    ensures
        groups_text(plain@, off as int, groups as int, old(out)@) == if ok {
            Some(final(out)@)
        } else {
            None
        },
{
    let total: usize = plain.len();
    let mut i: usize = 0;
    let mut at: usize = off;
    while i < groups
        invariant
            i <= groups,
            at == off + 4 * i,
            total == plain@.len(),
            in_bounds(plain@, off as int, 4 * groups),
            groups_text(plain@, off as int, groups as int, old(out)@) == groups_text(
                plain@,
                at as int,
                groups - i,
                out@,
            ),
        decreases groups - i,
    {
        let v: u64 = read_be(plain, at, 4);
        if v >= 1000000000 {
            return false;
        }
        push_digits(out, v, 9);
        at = at + 4;
        i = i + 1;
    }
    true
}

/// Appends the `d` digits of a group of leftover digits; `false` where it
/// holds too much.
fn push_partial(plain: &[u8], off: usize, d: usize, out: &mut Vec<u8>) -> (ok: bool)
    requires
        d < 9,
        in_bounds(plain@, off as int, digit_bytes(d as int)),
    ensures
        partial_text(plain@, off as int, d as int, old(out)@) == if ok {
            Some(final(out)@)
        } else {
            None
        },
{
    let v: u64 = read_be(plain, off, digit_bytes_of(d));
    if v >= power_of_ten(d) {
        return false;
    }
    push_digits(out, v, d);
    true
}

/// Copies a packed decimal and takes its sign out.
fn plain_copy(buf: &[u8], pos: usize, size: usize) -> (plain: Vec<u8>)
    requires
        size > 0,
        in_bounds(buf@, pos as int, size as int),
    ensures
        plain@ == plain_bytes(buf@, pos as int, size as int),
{
    let total: usize = buf.len();
    let positive: bool = buf[pos] >= 128;
    let mut plain: Vec<u8> = Vec::new();
    let mut i: usize = 0;
    while i < size
        invariant
            i <= size,
            size > 0,
            pos + size <= total == buf@.len(),
            positive == (buf@[pos as int] >= 128),
            plain@ == plain_bytes(buf@, pos as int, i as int),
        decreases size - i,
    {
        let b: u8 = buf[pos + i];
        let p: u8 = if positive {
            if i == 0 {
                b - 128
            } else {
                b
            }
        } else {
            if i == 0 {
                127 - b
            } else {
                255 - b
            }
        };
        plain.push(p);
        i = i + 1;
        assert(plain@ =~= plain_bytes(buf@, pos as int, i as int));
    }
    plain
}

/// Appends digits without their leading zeros, or a single zero.
fn push_stripped(digits: &Vec<u8>, out: &mut Vec<u8>)
    ensures
        final(out)@ == old(out)@ + integer_text(digits@),
{
    let n: usize = digits.len();
    let mut i: usize = 0;
    while i < n && digits[i] == 48
        invariant
            i <= n == digits@.len(),
            first_nonzero(digits@, 0) == first_nonzero(digits@, i as int),
        decreases n - i,
    {
        i = i + 1;
    }
    if i >= n {
        out.push(48);
        assert(out@ =~= old(out)@ + integer_text(digits@));
    } else {
        let ghost before = out@;
        let mut j: usize = i;
        while j < n
            invariant
                i <= j <= n == digits@.len(),
                out@ == before + digits@.subrange(i as int, j as int),
            decreases n - j,
        {
            out.push(digits[j]);
            j = j + 1;
            assert(out@ =~= before + digits@.subrange(i as int, j as int));
        }
        assert(digits@.subrange(i as int, n as int) =~= digits@.skip(i as int));
    }
}

/// Decodes the packed decimal at `pos` into its text. Returns the text and
/// the position behind the decimal, or `None` when it is malformed.
#[verifier::rlimit(40)]
pub fn read_decimal(buf: &[u8], pos: usize, precision: u8, scale: u8) -> (r: Option<
    (Vec<u8>, usize),
>)
    ensures
        match decimal_at(buf@, pos as int, precision as int, scale as int) {
            Some((text, next)) => r matches Some((t, n)) && t@ == text && n == next,
            None => r is None,
        },
{
    proof {
        reveal(decimal_at);
    }
    if precision == 0 || scale > precision {
        return None;
    }
    let intg: usize = (precision - scale) as usize;
    let frac: usize = scale as usize;
    let lead: usize = digit_bytes_of(intg % 9);
    let frac_off: usize = (intg / 9) * 4 + lead;
    let tail_off: usize = frac_off + (frac / 9) * 4;
    let size: usize = tail_off + digit_bytes_of(frac % 9);
    if !fits(buf, pos, size) {
        return None;
    }
    let plain: Vec<u8> = plain_copy(buf, pos, size);
    let mut whole: Vec<u8> = Vec::new();
    if !push_partial(plain.as_slice(), 0, intg % 9, &mut whole) {
        return None;
    }
    if !push_groups(plain.as_slice(), lead, intg / 9, &mut whole) {
        return None;
    }
    let mut part: Vec<u8> = Vec::new();
    if !push_groups(plain.as_slice(), frac_off, frac / 9, &mut part) {
        return None;
    }
    if !push_partial(plain.as_slice(), tail_off, frac % 9, &mut part) {
        return None;
    }
    let mut text: Vec<u8> = Vec::new();
    if buf[pos] < 128 {
        text.push(45);
    }
    push_stripped(&whole, &mut text);
    if scale > 0 {
        text.push(46);
        let ghost before = text@;
        let mut k: usize = 0;
        while k < part.len()
            invariant
                k <= part@.len(),
                text@ == before + part@.subrange(0, k as int),
            decreases part@.len() - k,
        {
            text.push(part[k]);
            k = k + 1;
            assert(text@ =~= before + part@.subrange(0, k as int));
        }
        assert(part@.subrange(0, k as int) =~= part@);
    }
    proof {
        let sign = if buf@[pos as int] >= 128 {
            Seq::<u8>::empty()
        } else {
            seq![45u8]
        };
        if scale == 0 {
            assert(text@ =~= sign + integer_text(whole@));
        } else {
            assert(text@ =~= sign + integer_text(whole@) + seq![46u8] + part@);
        }
    }
    Some((text, pos + size))
}

} // verus!
