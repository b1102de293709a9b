//! How the server packs fixed-point numbers, and the proof that a number
//! that is packed is decoded to its text.

use vstd::prelude::*;
use crate::bytes::{be_at, be_bytes, byte_of, lemma_be_bytes_read_back, lemma_pow256_values, pow256};
use crate::column::{column_at, ColumnValueView, TYPE_NEWDECIMAL};
use crate::decimal::{
    decimal_at, decimal_size, digit_bytes, digits, fraction_digits, groups_text, integer_digits,
    integer_text, partial_text, plain_byte, plain_bytes, pow10,
};

verus! {

/// Whether every byte of `ds` is a decimal digit.
pub open spec fn all_digits(ds: Seq<u8>) -> bool {
    forall|i: int| 0 <= i < ds.len() ==> 48 <= #[trigger] ds[i] <= 57
}

/// The number that the decimal digits `ds` spell.
pub open spec fn digits_value(ds: Seq<u8>) -> nat
    decreases ds.len(),
{
    if ds.len() == 0 {
        0
    } else {
        10 * digits_value(ds.drop_last()) + (ds.last() - 48) as nat
    }
}

/// The bytes of `groups` groups of 9 digits, from digit `at` of `ds` on:
/// each group as a big-endian number of 4 bytes.
pub open spec fn packed_groups(ds: Seq<u8>, at: int, groups: int) -> Seq<u8>
    decreases groups,
{
    if groups <= 0 {
        Seq::empty()
    } else {
        be_bytes(digits_value(ds.subrange(at, at + 9)) as int, 4) + packed_groups(
            ds,
            at + 9,
            groups - 1,
        )
    }
}

/// The bytes of the `d` digits from digit `at` of `ds` on, fewer than 9.
pub open spec fn packed_partial(ds: Seq<u8>, at: int, d: int) -> Seq<u8> {
    be_bytes(digits_value(ds.subrange(at, at + d)) as int, digit_bytes(d) as nat)
}

/// The bytes of a number with the digits `whole` before the point and
/// `frac` behind it, without its sign: the leftover digits before the
/// point, the groups of 9 before it, the groups of 9 behind it, and the
/// leftover digits behind it.
pub open spec fn packed_plain(whole: Seq<u8>, frac: Seq<u8>) -> Seq<u8> {
    packed_partial(whole, 0, whole.len() as int % 9) + packed_groups(
        whole,
        whole.len() as int % 9,
        whole.len() as int / 9,
    ) + packed_groups(frac, 0, frac.len() as int / 9) + packed_partial(
        frac,
        (frac.len() as int / 9) * 9,
        frac.len() as int % 9,
    )
}

/// The bytes `plain` with a sign: the highest bit of the first byte is
/// set for a number that is not negative; a negative number has all its
/// bits inverted.
pub open spec fn with_sign(plain: Seq<u8>, negative: bool) -> Seq<u8> {
    Seq::new(
        plain.len(),
        |i: int|
            if negative {
                if i == 0 {
                    (127 - plain[i]) as u8
                } else {
                    (255 - plain[i]) as u8
                }
            } else {
                if i == 0 {
                    (plain[i] + 128) as u8
                } else {
                    plain[i]
                }
            },
    )
}

/// The bytes that the server writes for a number with the digits `whole`
/// before the point and `frac` behind it, in a column of as many digits.
pub open spec fn packed_decimal(negative: bool, whole: Seq<u8>, frac: Seq<u8>) -> Seq<u8> {
    with_sign(packed_plain(whole, frac), negative)
}

/// The text of a number with the digits `whole` before the point and
/// `frac` behind it: a minus sign where it is negative, the digits before
/// the point without leading zeros, and, where there are digits behind
/// the point, the point and those digits.
pub open spec fn decimal_text(negative: bool, whole: Seq<u8>, frac: Seq<u8>) -> Seq<u8> {
    (if negative {
        seq![45u8]
    } else {
        Seq::<u8>::empty()
    }) + integer_text(whole) + (if frac.len() == 0 {
        Seq::<u8>::empty()
    } else {
        seq![46u8] + frac
    })
}

/// The digits of the number that digits spell are those digits, and the
/// number is below the power of ten of their count.
pub proof fn lemma_digits_of_value(ds: Seq<u8>)
    requires
        all_digits(ds),
    ensures
        digits(digits_value(ds), ds.len()) == ds,
        digits_value(ds) < pow10(ds.len()),
    decreases ds.len(),
{
    if ds.len() > 0 {
        let head = ds.drop_last();
        assert(all_digits(head)) by {
            assert forall|i: int| 0 <= i < head.len() implies 48 <= #[trigger] head[i] <= 57 by {
                assert(head[i] == ds[i]);
            }
        }
        lemma_digits_of_value(head);
        let v = digits_value(ds);
        assert(48 <= ds[ds.len() - 1] <= 57);
        assert(v / 10 == digits_value(head));
        assert(v % 10 == ds.last() - 48);
        assert(digits(v, ds.len()) =~= ds);
    } else {
        assert(digits(digits_value(ds), ds.len()) =~= ds);
    }
}

/// A part of digits is digits.
pub proof fn lemma_part_of_digits(ds: Seq<u8>, from: int, to: int)
    requires
        all_digits(ds),
        0 <= from <= to <= ds.len(),
    ensures
        all_digits(ds.subrange(from, to)),
{
    let part = ds.subrange(from, to);
    assert forall|i: int| 0 <= i < part.len() implies 48 <= #[trigger] part[i] <= 57 by {
        assert(part[i] == ds[from + i]);
    }
}

/// The powers of ten up to the ninth, and the bytes that hold so many
/// digits.
pub proof fn lemma_digit_capacity(d: int)
    requires
        0 <= d <= 9,
    ensures
        pow10(d as nat) <= pow256(
            if d == 9 {
                4nat
            } else {
                digit_bytes(d) as nat
            },
        ),
        d > 0 ==> pow10(d as nat) * 2 <= pow256(
            if d == 9 {
                4nat
            } else {
                digit_bytes(d) as nat
            },
        ),
        pow10(9) == 1000000000,
        d < 9 ==> 0 <= digit_bytes(d) <= 4,
{
    reveal_with_fuel(pow10, 11);
    lemma_pow256_values();
    assert(pow10(0) == 1);
    assert(pow10(1) == 10);
    assert(pow10(2) == 100);
    assert(pow10(3) == 1000);
    assert(pow10(4) == 10000);
    assert(pow10(5) == 100000);
    assert(pow10(6) == 1000000);
    assert(pow10(7) == 10000000);
    assert(pow10(8) == 100000000);
    assert(pow10(9) == 1000000000);
}

/// A group that is written between other bytes is read back.
pub proof fn lemma_group_is_read_back(a: Seq<u8>, v: int, n: nat, b: Seq<u8>)
    requires
        0 <= v < pow256(n),
    ensures
        be_at(a + be_bytes(v, n) + b, a.len() as int, n) == v,
{
    lemma_be_bytes_read_back(v, n, a, b);
    vstd::arithmetic::div_mod::lemma_small_mod(v as nat, pow256(n));
}

/// As many groups as are written, so many times 4 bytes.
pub proof fn lemma_packed_groups_length(ds: Seq<u8>, at: int, groups: int)
    requires
        0 <= groups,
    ensures
        packed_groups(ds, at, groups).len() == 4 * groups,
    decreases groups,
{
    if groups > 0 {
        lemma_packed_groups_length(ds, at + 9, groups - 1);
    }
}

/// Groups of 9 digits that are written between other bytes are read
/// back as their digits.
#[verifier::rlimit(40)]
pub proof fn lemma_groups_are_read_back(
    a: Seq<u8>,
    ds: Seq<u8>,
    at: int,
    groups: int,
    b: Seq<u8>,
    acc: Seq<u8>,
)
    requires
        all_digits(ds),
        0 <= at,
        0 <= groups,
        at + 9 * groups <= ds.len(),
    ensures
        groups_text(a + packed_groups(ds, at, groups) + b, a.len() as int, groups, acc) == Some(
            acc + ds.subrange(at, at + 9 * groups),
        ),
    decreases groups,
{
    let plain = a + packed_groups(ds, at, groups) + b;
    if groups > 0 {
        let group = ds.subrange(at, at + 9);
        let v = digits_value(group) as int;
        let rest = packed_groups(ds, at + 9, groups - 1);
        lemma_part_of_digits(ds, at, at + 9);
        lemma_digits_of_value(group);
        lemma_digit_capacity(9);
        assert(plain =~= a + be_bytes(v, 4) + (rest + b));
        lemma_group_is_read_back(a, v, 4, rest + b);
        assert(be_at(plain, a.len() as int, 4) == v);
        assert(plain =~= (a + be_bytes(v, 4)) + rest + b);
        lemma_groups_are_read_back(a + be_bytes(v, 4), ds, at + 9, groups - 1, b, acc + group);
        assert(acc + group + ds.subrange(at + 9, at + 9 + 9 * (groups - 1)) =~= acc + ds.subrange(
            at,
            at + 9 * groups,
        ));
    } else {
        assert(acc + ds.subrange(at, at + 9 * groups) =~= acc);
    }
}

/// Leftover digits that are written between other bytes are read back.
pub proof fn lemma_partial_is_read_back(
    a: Seq<u8>,
    ds: Seq<u8>,
    at: int,
    d: int,
    b: Seq<u8>,
    acc: Seq<u8>,
)
    requires
        all_digits(ds),
        0 <= at,
        0 <= d < 9,
        at + d <= ds.len(),
    ensures
        partial_text(a + packed_partial(ds, at, d) + b, a.len() as int, d, acc) == Some(
            acc + ds.subrange(at, at + d),
        ),
{
    let part = ds.subrange(at, at + d);
    let v = digits_value(part) as int;
    lemma_part_of_digits(ds, at, at + d);
    lemma_digits_of_value(part);
    lemma_digit_capacity(d);
    lemma_group_is_read_back(a, v, digit_bytes(d) as nat, b);
}

/// The first byte of a group that fills no more than half of what its
/// bytes hold leaves its highest bit free.
pub proof fn lemma_first_byte(v: int, n: nat)
    requires
        1 <= n <= 4,
        0 <= v,
        2 * v < pow256(n),
    ensures
        be_bytes(v, n).len() == n,
        be_bytes(v, n)[0] < 128,
{
    lemma_pow256_values();
    assert(be_bytes(v, n)[0] == byte_of(v, (n - 1) as nat));
    if n == 1 {
        assert(v / 1 < 128);
    } else if n == 2 {
        assert(v / 256 < 128);
    } else if n == 3 {
        assert(v / 65536 < 128);
    } else {
        assert(v / 16777216 < 128);
    }
}

/// The first byte of a packed number leaves its highest bit free, and
/// the number has as many bytes as its digits ask for.
#[verifier::rlimit(40)]
pub proof fn lemma_packed_plain(whole: Seq<u8>, frac: Seq<u8>)
    requires
        all_digits(whole),
        all_digits(frac),
        whole.len() + frac.len() >= 1,
    ensures
        packed_plain(whole, frac).len() == decimal_size(
            (whole.len() + frac.len()) as int,
            frac.len() as int,
        ),
        packed_plain(whole, frac).len() >= 1,
        packed_plain(whole, frac)[0] < 128,
{
    let intg = whole.len() as int;
    let scale = frac.len() as int;
    let p1 = packed_partial(whole, 0, intg % 9);
    let p2 = packed_groups(whole, intg % 9, intg / 9);
    let p3 = packed_groups(frac, 0, scale / 9);
    let p4 = packed_partial(frac, (scale / 9) * 9, scale % 9);
    lemma_packed_groups_length(whole, intg % 9, intg / 9);
    lemma_packed_groups_length(frac, 0, scale / 9);
    lemma_digit_capacity(intg % 9);
    lemma_digit_capacity(scale % 9);
    lemma_digit_capacity(9);
    let plain = packed_plain(whole, frac);
    assert(plain =~= p1 + p2 + p3 + p4);
    if intg % 9 > 0 {
        let part = whole.subrange(0, intg % 9);
        lemma_part_of_digits(whole, 0, intg % 9);
        lemma_digits_of_value(part);
        lemma_first_byte(digits_value(part) as int, digit_bytes(intg % 9) as nat);
        assert(plain[0] == p1[0]);
    } else if intg / 9 > 0 {
        let part = whole.subrange(0, 9);
        lemma_part_of_digits(whole, 0, 9);
        lemma_digits_of_value(part);
        lemma_first_byte(digits_value(part) as int, 4);
        assert(p2 =~= be_bytes(digits_value(part) as int, 4) + packed_groups(
            whole,
            9,
            intg / 9 - 1,
        ));
        assert(plain[0] == p2[0]);
    } else if scale / 9 > 0 {
        let part = frac.subrange(0, 9);
        lemma_part_of_digits(frac, 0, 9);
        lemma_digits_of_value(part);
        lemma_first_byte(digits_value(part) as int, 4);
        assert(p3 =~= be_bytes(digits_value(part) as int, 4) + packed_groups(
            frac,
            9,
            scale / 9 - 1,
        ));
        assert(plain[0] == p3[0]);
    } else {
        let part = frac.subrange(0, scale % 9);
        lemma_part_of_digits(frac, 0, scale % 9);
        lemma_digits_of_value(part);
        lemma_first_byte(digits_value(part) as int, digit_bytes(scale % 9) as nat);
        assert(plain[0] == p4[0]);
    }
}

/// Taking the sign out of bytes that got a sign gives the bytes.
pub proof fn lemma_sign_is_taken_out(
    plain: Seq<u8>,
    negative: bool,
    before: Seq<u8>,
    after: Seq<u8>,
)
    requires
        plain.len() >= 1,
        plain[0] < 128,
    ensures
        plain_bytes(
            before + with_sign(plain, negative) + after,
            before.len() as int,
            plain.len() as int,
        ) == plain,
        (before + with_sign(plain, negative) + after)[before.len() as int] >= 128 <==> !negative,
{
    let s = before + with_sign(plain, negative) + after;
    let pos = before.len() as int;
    assert(s[pos] == with_sign(plain, negative)[0]);
    assert forall|i: int| 0 <= i < plain.len() implies plain_byte(s, pos, i) == plain[i] by {
        assert(s[pos + i] == with_sign(plain, negative)[i]);
    }
    assert(plain_bytes(s, pos, plain.len() as int) =~= plain);
}

/// A fixed-point number that is packed is decoded to its text: for every
/// number with the digits `whole` before the point and `frac` behind it,
/// decoding its bytes, wherever they stand, in a column of as many
/// digits, gives the number's text and the position behind the bytes.
#[verifier::rlimit(40)]
pub proof fn lemma_decimal_round_trip(
    negative: bool,
    whole: Seq<u8>,
    frac: Seq<u8>,
    before: Seq<u8>,
    after: Seq<u8>,
)
    requires
        all_digits(whole),
        all_digits(frac),
        whole.len() + frac.len() >= 1,
    ensures
        decimal_at(
            before + packed_decimal(negative, whole, frac) + after,
            before.len() as int,
            (whole.len() + frac.len()) as int,
            frac.len() as int,
        ) == Some(
            (
                decimal_text(negative, whole, frac),
                (before.len() + packed_decimal(negative, whole, frac).len()) as int,
            ),
        ),
{
    let plain = packed_plain(whole, frac);
    lemma_packed_plain(whole, frac);
    lemma_sign_is_taken_out(plain, negative, before, after);
    lemma_digits_are_read_back(whole, frac);
    let empty = Seq::<u8>::empty();
    if frac.len() == 0 {
        assert(decimal_text(negative, whole, frac) =~= (if negative {
            seq![45u8]
        } else {
            empty
        }) + integer_text(whole));
    } else {
        assert(decimal_text(negative, whole, frac) =~= (if negative {
            seq![45u8]
        } else {
            empty
        }) + integer_text(whole) + seq![46u8] + frac);
    }
    assert(with_sign(plain, negative).len() == plain.len());
    reveal(decimal_at);
}

/// The digits of a packed number are read back from its bytes.
#[verifier::rlimit(40)]
pub proof fn lemma_digits_are_read_back(whole: Seq<u8>, frac: Seq<u8>)
    requires
        all_digits(whole),
        all_digits(frac),
    ensures
        integer_digits(
            packed_plain(whole, frac),
            (whole.len() + frac.len()) as int,
            frac.len() as int,
        ) == Some(whole),
        fraction_digits(
            packed_plain(whole, frac),
            (whole.len() + frac.len()) as int,
            frac.len() as int,
        ) == Some(frac),
{
    let intg = whole.len() as int;
    let scale = frac.len() as int;
    let precision = intg + scale;
    let plain = packed_plain(whole, frac);
    let p1 = packed_partial(whole, 0, intg % 9);
    let p2 = packed_groups(whole, intg % 9, intg / 9);
    let p3 = packed_groups(frac, 0, scale / 9);
    let p4 = packed_partial(frac, (scale / 9) * 9, scale % 9);
    lemma_packed_groups_length(whole, intg % 9, intg / 9);
    lemma_packed_groups_length(frac, 0, scale / 9);
    lemma_digit_capacity(intg % 9);
    lemma_digit_capacity(scale % 9);
    let empty = Seq::<u8>::empty();
    assert(p1.len() == digit_bytes(intg % 9));
    assert(plain =~= empty + p1 + (p2 + p3 + p4));
    lemma_partial_is_read_back(empty, whole, 0, intg % 9, p2 + p3 + p4, empty);
    let lead = whole.subrange(0, intg % 9);
    assert(empty + lead =~= lead);
    assert(plain =~= p1 + p2 + (p3 + p4));
    lemma_groups_are_read_back(p1, whole, intg % 9, intg / 9, p3 + p4, lead);
    assert(lead + whole.subrange(intg % 9, intg % 9 + 9 * (intg / 9)) =~= whole);
    assert(integer_digits(plain, precision, scale) == Some(whole));
    assert(plain =~= (p1 + p2) + p3 + p4);
    lemma_groups_are_read_back(p1 + p2, frac, 0, scale / 9, p4, empty);
    let full = frac.subrange(0, 9 * (scale / 9));
    assert(empty + full =~= full);
    assert(plain =~= (p1 + p2 + p3) + p4 + empty);
    lemma_partial_is_read_back(p1 + p2 + p3, frac, (scale / 9) * 9, scale % 9, empty, full);
    assert(full + frac.subrange((scale / 9) * 9, (scale / 9) * 9 + scale % 9) =~= frac);
}

/// The metadata of a fixed-point column: the number of digits beside the
/// number of digits behind the point.
pub open spec fn decimal_meta(precision: int, scale: int) -> u16 {
    (precision + 256 * scale) as u16
}

/// A fixed-point number that is packed into a column is decoded to its
/// text.
#[verifier::rlimit(40)]
pub proof fn lemma_decimal_column_round_trip(
    negative: bool,
    whole: Seq<u8>,
    frac: Seq<u8>,
    before: Seq<u8>,
    after: Seq<u8>,
)
    requires
        all_digits(whole),
        all_digits(frac),
        1 <= whole.len() + frac.len() <= 255,
    ensures
        column_at(
            before + packed_decimal(negative, whole, frac) + after,
            before.len() as int,
            TYPE_NEWDECIMAL,
            decimal_meta((whole.len() + frac.len()) as int, frac.len() as int),
        ) == Some(
            (
                ColumnValueView::Decimal(decimal_text(negative, whole, frac)),
                (before.len() + packed_decimal(negative, whole, frac).len()) as int,
            ),
        ),
{
    lemma_decimal_round_trip(negative, whole, frac, before, after);
    let meta = decimal_meta((whole.len() + frac.len()) as int, frac.len() as int);
    assert(meta % 256 == whole.len() + frac.len());
    assert(meta / 256 == frac.len());
    assert(column_at(
        before + packed_decimal(negative, whole, frac) + after,
        before.len() as int,
        TYPE_NEWDECIMAL,
        meta,
    ) == Some(
        (
            ColumnValueView::Decimal(decimal_text(negative, whole, frac)),
            (before.len() + packed_decimal(negative, whole, frac).len()) as int,
        ),
    )) by {
        reveal(column_at);
    }
}

} // verus!
