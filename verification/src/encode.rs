//! How the server writes column values, and the proof that what is written
//! is decoded to itself.

use vstd::prelude::*;
use crate::bytes::{
    be_at, be_bytes, in_bounds, le_at, le_bytes, lemma_be_bytes_read_back, lemma_le_bytes_read_back,
    lemma_pow256_values, pow256,
};
use crate::column::{
    column_at, int_bytes, lemma_column_by_type, lemma_float_bits_are_decoded_to_themselves,
    lemma_int_bytes_are_read_back, lemma_integer_is_decoded_to_itself, lemma_prefixed_is_read_back,
    length_prefix, string_max_length, string_real_type, ColumnValueView, TYPE_BIT, TYPE_BLOB,
    TYPE_DATE, TYPE_DATETIME, TYPE_DATETIME2, TYPE_DOUBLE, TYPE_ENUM, TYPE_FLOAT, TYPE_GEOMETRY,
    TYPE_INT24, TYPE_JSON, TYPE_LONG, TYPE_LONGLONG, TYPE_LONG_BLOB, TYPE_MEDIUM_BLOB,
    TYPE_NEWDECIMAL, TYPE_SET, TYPE_SHORT, TYPE_STRING, TYPE_TIME, TYPE_TIME2, TYPE_TIMESTAMP,
    TYPE_TIMESTAMP2, TYPE_TINY, TYPE_TINY_BLOB, TYPE_VARCHAR, TYPE_VAR_STRING, TYPE_YEAR,
};
use crate::decimal_encode::{
    all_digits, decimal_meta, decimal_text, lemma_decimal_column_round_trip, packed_decimal,
};
use crate::temporal::{
    date_of, datetime_of_decimal, datetime_of_packed, fraction_bytes, fraction_unit,
    time_of_decimal, time_of_packed, DateTimeValue, DateValue, TimeValue,
};

verus! {

/// The bytes of a year in a `YEAR` column: zero for the year zero, and
/// otherwise the years since 1900, which one byte holds up to 2155.
pub open spec fn encoded_year(year: u16) -> Option<Seq<u8>> {
    if year == 0 {
        Some(seq![0u8])
    } else if 1901 <= year <= 2155 {
        Some(seq![(year - 1900) as u8])
    } else {
        None
    }
}

/// The bytes of a date in a `DATE` column.
pub open spec fn encoded_date(d: DateValue) -> Option<Seq<u8>> {
    if d.year < 32768 && d.month < 16 && d.day < 32 {
        Some(le_bytes(d.year * 512 + d.month * 32 + d.day, 3))
    } else {
        None
    }
}

/// The bytes of a time in a `TIME` column of the format without
/// fractions: the digits `hhmmss` as a signed number of 3 bytes.
pub open spec fn encoded_time(t: TimeValue) -> Option<Seq<u8>> {
    let digits = t.hours * 10000 + t.minutes * 100 + t.seconds;
    if t.micros != 0 || t.minutes >= 100 || t.seconds >= 100 {
        None
    } else if t.negative {
        if 0 < digits <= 0x80_0000 {
            Some(int_bytes(-digits, 3))
        } else {
            None
        }
    } else if digits < 0x80_0000 {
        Some(int_bytes(digits, 3))
    } else {
        None
    }
}

/// The bytes of a date and time in a `DATETIME` column of the format
/// without fractions: the digits `yyyymmddhhmmss` as a number of 8 bytes.
pub open spec fn encoded_datetime(d: DateTimeValue) -> Option<Seq<u8>> {
    if d.micros != 0 || d.month >= 100 || d.day >= 100 || d.hour >= 100 || d.minute >= 100
        || d.second >= 100 {
        None
    } else {
        Some(
            le_bytes(
                ((((d.year * 100 + d.month) * 100 + d.day) * 100 + d.hour) * 100 + d.minute) * 100
                    + d.second,
                8,
            ),
        )
    }
}

/// Whether `micros` microseconds can be stored at precision `fsp`: below
/// a second, and a whole number of the units that the precision keeps.
pub open spec fn storable_fraction(micros: int, fsp: int) -> bool {
    &&& 0 <= fsp <= 6
    &&& 0 <= micros < 1000000
    &&& micros % fraction_unit(fraction_bytes(fsp)) == 0
    &&& fsp == 0 ==> micros == 0
}

/// The bytes of a fraction of a second at precision `fsp`.
pub open spec fn encoded_fraction(micros: int, fsp: int) -> Seq<u8> {
    be_bytes(micros / fraction_unit(fraction_bytes(fsp)), fraction_bytes(fsp) as nat)
}

/// The bytes of a point in time, in microseconds since the epoch, in a
/// `TIMESTAMP` column with fractions at precision `fsp`.
pub open spec fn encoded_timestamp2(micros: i64, fsp: int) -> Option<Seq<u8>> {
    if micros < 0 || micros / 1000000 > u32::MAX || !storable_fraction(
        micros as int % 1000000,
        fsp,
    ) {
        None
    } else {
        Some(be_bytes(micros as int / 1000000, 4) + encoded_fraction(micros as int % 1000000, fsp))
    }
}

/// The bytes of a date and time in a `DATETIME` column with fractions at
/// precision `fsp`.
pub open spec fn encoded_datetime2(d: DateTimeValue, fsp: int) -> Option<Seq<u8>> {
    if d.year * 13 + d.month >= 131072 || d.month >= 13 || d.day >= 32 || d.hour >= 32 || d.minute
        >= 64 || d.second >= 64 || !storable_fraction(d.micros as int, fsp) {
        None
    } else {
        Some(
            be_bytes(
                0x80_0000_0000 + ((((d.year * 13 + d.month) * 32 + d.day) * 32 + d.hour) * 64
                    + d.minute) * 64 + d.second,
                5,
            ) + encoded_fraction(d.micros as int, fsp),
        )
    }
}

/// The bytes of a time in a `TIME` column with fractions at precision
/// `fsp`.
pub open spec fn encoded_time2(t: TimeValue, fsp: int) -> Option<Seq<u8>> {
    let n = fraction_bytes(fsp);
    let a = ((t.hours * 64 + t.minutes) * 64 + t.seconds) * pow256(n as nat) + t.micros as int
        / fraction_unit(n);
    if t.hours >= 1024 || t.minutes >= 64 || t.seconds >= 64 || !storable_fraction(
        t.micros as int,
        fsp,
    ) || (t.negative && a == 0) {
        None
    } else {
        Some(
            be_bytes(
                if t.negative {
                    pow256((3 + n) as nat) / 2 - a
                } else {
                    pow256((3 + n) as nat) / 2 + a
                },
                (3 + n) as nat,
            ),
        )
    }
}

/// A year that is written is decoded to itself.
pub proof fn lemma_year_round_trip(year: u16, meta: u16, before: Seq<u8>, after: Seq<u8>)
    requires
        encoded_year(year) is Some,
    ensures
        column_at(
            before + encoded_year(year).unwrap() + after,
            before.len() as int,
            TYPE_YEAR,
            meta,
        ) == Some((ColumnValueView::Year(year), before.len() as int + 1)),
{
    reveal(column_at);
    let s = before + encoded_year(year).unwrap() + after;
    assert(s[before.len() as int] == encoded_year(year).unwrap()[0]);
}

/// A date that is written is decoded to itself.
#[verifier::rlimit(40)]
pub proof fn lemma_date_round_trip(d: DateValue, meta: u16, before: Seq<u8>, after: Seq<u8>)
    requires
        encoded_date(d) is Some,
    ensures
        column_at(
            before + encoded_date(d).unwrap() + after,
            before.len() as int,
            TYPE_DATE,
            meta,
        ) == Some((ColumnValueView::Date(d), before.len() as int + 3)),
{
    let v = d.year * 512 + d.month * 32 + d.day;
    lemma_pow256_values();
    lemma_le_bytes_read_back(v, 3, before, after);
    let s = before + encoded_date(d).unwrap() + after;
    assert(le_at(s, before.len() as int, 3) == v);
    assert(date_of(v as nat) == d);
    lemma_column_by_type(s, before.len() as int, TYPE_DATE, meta);
}

/// A time without fractions that is written is decoded to itself.
#[verifier::rlimit(40)]
pub proof fn lemma_time_round_trip(t: TimeValue, meta: u16, before: Seq<u8>, after: Seq<u8>)
    requires
        encoded_time(t) is Some,
    ensures
        column_at(
            before + encoded_time(t).unwrap() + after,
            before.len() as int,
            TYPE_TIME,
            meta,
        ) == Some((ColumnValueView::Time(t), before.len() as int + 3)),
{
    let digits = t.hours * 10000 + t.minutes * 100 + t.seconds;
    let v = if t.negative {
        -digits
    } else {
        digits
    };
    lemma_pow256_values();
    lemma_int_bytes_are_read_back(v, 3, before, after);
    let s = before + encoded_time(t).unwrap() + after;
    assert(time_of_decimal(t.negative, digits as nat) == t);
    crate::bytes::lemma_le_at_bound(s, before.len() as int, 3);
    assert(!t.negative ==> le_at(s, before.len() as int, 3) == digits);
    lemma_column_by_type(s, before.len() as int, TYPE_TIME, meta);
}

/// The digits of a date and time can be told apart again.
#[verifier::rlimit(40)]
proof fn lemma_decimal_digits(year: int, month: int, day: int, hour: int, minute: int, second: int)
    requires
        0 <= year,
        0 <= month < 100,
        0 <= day < 100,
        0 <= hour < 100,
        0 <= minute < 100,
        0 <= second < 100,
    ensures
        ({
            let v = ((((year * 100 + month) * 100 + day) * 100 + hour) * 100 + minute) * 100
                + second;
            &&& v % 100 == second
            &&& (v / 100) % 100 == minute
            &&& (v / 10000) % 100 == hour
            &&& (v / 1000000) % 100 == day
            &&& (v / 100000000) % 100 == month
            &&& v / 10000000000 == year
        }),
{
    let v5 = year * 100 + month;
    let v4 = v5 * 100 + day;
    let v3 = v4 * 100 + hour;
    let v2 = v3 * 100 + minute;
    let v = v2 * 100 + second;
    assert(v / 100 == v2);
    assert(v2 / 100 == v3);
    assert(v3 / 100 == v4);
    assert(v4 / 100 == v5);
    assert(v5 / 100 == year);
    assert(v / 10000 == v3) by {
        vstd::arithmetic::div_mod::lemma_div_denominator(v, 100, 100);
    }
    assert(v / 1000000 == v4) by {
        vstd::arithmetic::div_mod::lemma_div_denominator(v, 10000, 100);
    }
    assert(v / 100000000 == v5) by {
        vstd::arithmetic::div_mod::lemma_div_denominator(v, 1000000, 100);
    }
    assert(v / 10000000000 == year) by {
        vstd::arithmetic::div_mod::lemma_div_denominator(v, 100000000, 100);
    }
}

/// The fields of a packed date and time can be told apart again.
#[verifier::rlimit(40)]
proof fn lemma_packed_fields(year: int, month: int, day: int, hour: int, minute: int, second: int)
    requires
        0 <= year,
        0 <= month < 13,
        year * 13 + month < 131072,
        0 <= day < 32,
        0 <= hour < 32,
        0 <= minute < 64,
        0 <= second < 64,
    ensures
        ({
            let x = 0x80_0000_0000 + ((((year * 13 + month) * 32 + day) * 32 + hour) * 64
                + minute) * 64 + second;
            &&& 0 <= x < 0x100_0000_0000
            &&& x % 64 == second
            &&& (x / 64) % 64 == minute
            &&& (x / 4096) % 32 == hour
            &&& (x / 131072) % 32 == day
            &&& (x / 4194304) % 131072 == year * 13 + month
            &&& (year * 13 + month) / 13 == year
            &&& (year * 13 + month) % 13 == month
        }),
{
    let ym = year * 13 + month;
    let x4 = 131072 + ym;
    let x3 = x4 * 32 + day;
    let x2 = x3 * 32 + hour;
    let x1 = x2 * 64 + minute;
    let x = x1 * 64 + second;
    assert(x == 0x80_0000_0000 + ((((year * 13 + month) * 32 + day) * 32 + hour) * 64 + minute)
        * 64 + second);
    assert(x / 64 == x1);
    assert(x1 / 64 == x2);
    assert(x2 / 32 == x3);
    assert(x3 / 32 == x4);
    assert(x / 4096 == x2) by {
        vstd::arithmetic::div_mod::lemma_div_denominator(x, 64, 64);
    }
    assert(x / 131072 == x3) by {
        vstd::arithmetic::div_mod::lemma_div_denominator(x, 4096, 32);
    }
    assert(x / 4194304 == x4) by {
        vstd::arithmetic::div_mod::lemma_div_denominator(x, 131072, 32);
    }
}

/// A date and time without fractions that is written is decoded to
/// itself.
#[verifier::rlimit(40)]
pub proof fn lemma_datetime_round_trip(
    d: DateTimeValue,
    meta: u16,
    before: Seq<u8>,
    after: Seq<u8>,
)
    requires
        encoded_datetime(d) is Some,
    ensures
        column_at(
            before + encoded_datetime(d).unwrap() + after,
            before.len() as int,
            TYPE_DATETIME,
            meta,
        ) == Some((ColumnValueView::DateTime(d), before.len() as int + 8)),
{
    let v = ((((d.year * 100 + d.month) * 100 + d.day) * 100 + d.hour) * 100 + d.minute) * 100
        + d.second;
    lemma_pow256_values();
    lemma_le_bytes_read_back(v, 8, before, after);
    let s = before + encoded_datetime(d).unwrap() + after;
    assert(le_at(s, before.len() as int, 8) == v);
    lemma_decimal_digits(
        d.year as int,
        d.month as int,
        d.day as int,
        d.hour as int,
        d.minute as int,
        d.second as int,
    );
    assert(datetime_of_decimal(v as nat) == d);
    lemma_column_by_type(s, before.len() as int, TYPE_DATETIME, meta);
}

/// A point in time without fractions that is written is decoded to
/// itself.
pub proof fn lemma_timestamp_round_trip(micros: i64, meta: u16, before: Seq<u8>, after: Seq<u8>)
    requires
        0 <= micros,
        micros % 1000000 == 0,
        micros / 1000000 <= u32::MAX,
    ensures
        column_at(
            before + le_bytes(micros / 1000000, 4) + after,
            before.len() as int,
            TYPE_TIMESTAMP,
            meta,
        ) == Some((ColumnValueView::Timestamp(micros), before.len() as int + 4)),
{
    lemma_pow256_values();
    lemma_le_bytes_read_back(micros / 1000000, 4, before, after);
    let s = before + le_bytes(micros / 1000000, 4) + after;
    assert(le_at(s, before.len() as int, 4) == micros / 1000000);
    assert(column_at(s, before.len() as int, TYPE_TIMESTAMP, meta) == Some(
        (ColumnValueView::Timestamp(micros), before.len() as int + 4),
    )) by {
        reveal(column_at);
    }
}

/// A fraction of a second that is written behind `head` is read back.
pub proof fn lemma_fraction_is_read_back(
    micros: int,
    fsp: int,
    before: Seq<u8>,
    head: Seq<u8>,
    after: Seq<u8>,
)
    requires
        storable_fraction(micros, fsp),
    ensures
        be_at(
            before + (head + encoded_fraction(micros, fsp)) + after,
            (before.len() + head.len()) as int,
            fraction_bytes(fsp) as nat,
        ) * fraction_unit(fraction_bytes(fsp)) == micros,
        in_bounds(
            before + (head + encoded_fraction(micros, fsp)) + after,
            before.len() as int,
            head.len() + fraction_bytes(fsp),
        ),
{
    let n = fraction_bytes(fsp) as nat;
    let s = before + (head + encoded_fraction(micros, fsp)) + after;
    assert(s =~= (before + head) + encoded_fraction(micros, fsp) + after);
    lemma_pow256_values();
    let stored = micros / fraction_unit(fraction_bytes(fsp));
    lemma_be_bytes_read_back(stored, n, before + head, after);
    assert(0 <= stored < pow256(n));
    vstd::arithmetic::div_mod::lemma_small_mod(stored as nat, pow256(n));
}

/// The first `n` bytes of what is written are read back behind `before`,
/// whatever follows them.
pub proof fn lemma_head_is_read_back(
    v: int,
    n: nat,
    before: Seq<u8>,
    tail: Seq<u8>,
    after: Seq<u8>,
)
    requires
        0 <= v < pow256(n),
    ensures
        be_at(before + (be_bytes(v, n) + tail) + after, before.len() as int, n) == v,
{
    let s = before + (be_bytes(v, n) + tail) + after;
    assert(s =~= before + be_bytes(v, n) + (tail + after));
    lemma_be_bytes_read_back(v, n, before, tail + after);
    vstd::arithmetic::div_mod::lemma_small_mod(v as nat, pow256(n));
}

/// A point in time with fractions that is written is decoded to itself.
pub proof fn lemma_timestamp2_round_trip(micros: i64, fsp: u16, before: Seq<u8>, after: Seq<u8>)
    requires
        encoded_timestamp2(micros, fsp as int) is Some,
    ensures
        column_at(
            before + encoded_timestamp2(micros, fsp as int).unwrap() + after,
            before.len() as int,
            TYPE_TIMESTAMP2,
            fsp,
        ) == Some(
            (ColumnValueView::Timestamp(micros), before.len() + 4 + fraction_bytes(fsp as int)),
        ),
{
    let head = be_bytes(micros as int / 1000000, 4);
    let tail = encoded_fraction(micros as int % 1000000, fsp as int);
    lemma_pow256_values();
    lemma_head_is_read_back(micros as int / 1000000, 4, before, tail, after);
    lemma_fraction_is_read_back(micros as int % 1000000, fsp as int, before, head, after);
    let s = before + (head + tail) + after;
    lemma_column_by_type(s, before.len() as int, TYPE_TIMESTAMP2, fsp);
}

/// A date and time with fractions that is written is decoded to itself.
#[verifier::rlimit(40)]
pub proof fn lemma_datetime2_round_trip(
    d: DateTimeValue,
    fsp: u16,
    before: Seq<u8>,
    after: Seq<u8>,
)
    requires
        encoded_datetime2(d, fsp as int) is Some,
    ensures
        column_at(
            before + encoded_datetime2(d, fsp as int).unwrap() + after,
            before.len() as int,
            TYPE_DATETIME2,
            fsp,
        ) == Some((ColumnValueView::DateTime(d), before.len() + 5 + fraction_bytes(fsp as int))),
{
    let x = 0x80_0000_0000 + ((((d.year * 13 + d.month) * 32 + d.day) * 32 + d.hour) * 64
        + d.minute) * 64 + d.second;
    let head = be_bytes(x, 5);
    let tail = encoded_fraction(d.micros as int, fsp as int);
    lemma_pow256_values();
    lemma_head_is_read_back(x, 5, before, tail, after);
    lemma_fraction_is_read_back(d.micros as int, fsp as int, before, head, after);
    let s = before + (head + tail) + after;
    lemma_packed_fields(
        d.year as int,
        d.month as int,
        d.day as int,
        d.hour as int,
        d.minute as int,
        d.second as int,
    );
    assert(datetime_of_packed(x as nat, d.micros as nat) == d);
    lemma_column_by_type(s, before.len() as int, TYPE_DATETIME2, fsp);
}

/// The fields of a packed time can be told apart again.
#[verifier::rlimit(40)]
proof fn lemma_time2_fields(t: TimeValue, n: int)
    requires
        0 <= n <= 3,
        t.hours < 1024,
        t.minutes < 64,
        t.seconds < 64,
        t.micros < 1000000,
        t.micros as int % fraction_unit(n) == 0,
        n == 0 ==> t.micros == 0,
        t.negative ==> ((t.hours * 64 + t.minutes) * 64 + t.seconds) * pow256(n as nat)
            + t.micros as int / fraction_unit(n) != 0,
    ensures
        ({
            let a = ((t.hours * 64 + t.minutes) * 64 + t.seconds) * pow256(n as nat)
                + t.micros as int / fraction_unit(n);
            let offset = pow256((3 + n) as nat) / 2;
            let x = if t.negative {
                offset - a
            } else {
                offset + a
            };
            0 <= x < pow256((3 + n) as nat) && time_of_packed(x as nat, n) == t
        }),
{
    lemma_pow256_values();
    let hms = (t.hours * 64 + t.minutes) * 64 + t.seconds;
    let p = pow256(n as nat) as int;
    let stored = t.micros as int / fraction_unit(n);
    let a = hms * p + stored;
    let offset = pow256((3 + n) as nat) as int / 2;
    let x = if t.negative {
        offset - a
    } else {
        offset + a
    };
    assert(0 <= stored < p);
    assert(0 <= hms < 0x40_0000);
    assert(offset == 0x80_0000 * p);
    assert(0 <= a < offset) by (nonlinear_arith)
        requires
            a == hms * p + stored,
            0 <= stored < p,
            0 <= hms < 0x40_0000,
            offset == 0x80_0000 * p,
    ;
    vstd::arithmetic::div_mod::lemma_fundamental_div_mod_converse(a, p, hms, stored);
    assert(stored * fraction_unit(n) == t.micros) by {
        if n == 1 {
            assert((t.micros as int / 10000) * 10000 == t.micros);
        } else if n == 2 {
            assert((t.micros as int / 100) * 100 == t.micros);
        } else {
            assert(t.micros as int / 1 == t.micros);
        }
    }
    let back = if x >= offset {
        x - offset
    } else {
        offset - x
    };
    assert(back == a);
    assert((hms / 4096) % 1024 == t.hours);
    assert((hms / 64) % 64 == t.minutes);
    assert(hms % 64 == t.seconds);
}

/// A time with fractions that is written is decoded to itself.
#[verifier::rlimit(40)]
pub proof fn lemma_time2_round_trip(t: TimeValue, fsp: u16, before: Seq<u8>, after: Seq<u8>)
    requires
        encoded_time2(t, fsp as int) is Some,
    ensures
        column_at(
            before + encoded_time2(t, fsp as int).unwrap() + after,
            before.len() as int,
            TYPE_TIME2,
            fsp,
        ) == Some((ColumnValueView::Time(t), before.len() + 3 + fraction_bytes(fsp as int))),
{
    let n = fraction_bytes(fsp as int);
    let hms = (t.hours * 64 + t.minutes) * 64 + t.seconds;
    let a = hms * pow256(n as nat) + t.micros as int / fraction_unit(n);
    let offset = pow256((3 + n) as nat) / 2;
    let x = if t.negative {
        offset - a
    } else {
        offset + a
    };
    lemma_pow256_values();
    lemma_time2_fields(t, n);
    lemma_be_bytes_read_back(x, (3 + n) as nat, before, after);
    vstd::arithmetic::div_mod::lemma_small_mod(x as nat, pow256((3 + n) as nat));
    let s = before + be_bytes(x, (3 + n) as nat) + after;
    assert(be_at(s, before.len() as int, (3 + n) as nat) == x);
    lemma_column_by_type(s, before.len() as int, TYPE_TIME2, fsp);
}

/// Whether columns of type `ty` hold bytes behind a length of as many
/// bytes as their metadata says.
pub open spec fn is_blob_type(ty: u8) -> bool {
    ty == TYPE_TINY_BLOB || ty == TYPE_MEDIUM_BLOB || ty == TYPE_LONG_BLOB || ty == TYPE_BLOB || ty
        == TYPE_GEOMETRY
}

/// The bytes of `bytes` behind their length in `prefix` bytes.
pub open spec fn encoded_bytes(bytes: Seq<u8>, prefix: int) -> Option<Seq<u8>> {
    if 1 <= prefix <= 4 && bytes.len() < pow256(prefix as nat) {
        Some(le_bytes(bytes.len() as int, prefix as nat) + bytes)
    } else {
        None
    }
}

/// The `size` little-endian bytes of the number `v`.
pub open spec fn encoded_number(v: int, size: int, most: int) -> Option<Seq<u8>> {
    if 1 <= size <= most && 0 <= v < pow256(size as nat) {
        Some(le_bytes(v, size as nat))
    } else {
        None
    }
}

/// Number of bytes of a `BIT` column with metadata `meta`.
pub open spec fn bit_bytes(meta: u16) -> int {
    ((meta / 256) * 8 + meta % 256 + 7) / 8
}

/// Whether `text` is the text of the number with the digits `whole`
/// before the point and `frac` behind it, and a fixed-point column with
/// metadata `meta` holds numbers of so many digits.
pub open spec fn is_decimal_of(
    meta: u16,
    text: Seq<u8>,
    negative: bool,
    whole: Seq<u8>,
    frac: Seq<u8>,
) -> bool {
    &&& all_digits(whole)
    &&& all_digits(frac)
    &&& whole.len() + frac.len() >= 1
    &&& whole.len() + frac.len() == meta % 256
    &&& frac.len() == meta / 256
    &&& decimal_text(negative, whole, frac) == text
}

/// The bytes that hold `value` in a column of type `ty` with metadata
/// `meta`, as the server writes them. `None` where the column cannot hold
/// the value. A fixed-point number is packed from the digits of which
/// the value is the text.
pub open spec fn encoded_column(ty: u8, meta: u16, value: ColumnValueView) -> Option<Seq<u8>> {
    match value {
        ColumnValueView::Tiny(v) => if ty == TYPE_TINY {
            Some(int_bytes(v as int, 1))
        } else {
            None
        },
        ColumnValueView::Short(v) => if ty == TYPE_SHORT {
            Some(int_bytes(v as int, 2))
        } else {
            None
        },
        ColumnValueView::Long(v) => if ty == TYPE_LONG {
            Some(int_bytes(v as int, 4))
        } else if ty == TYPE_INT24 && -0x80_0000 <= v < 0x80_0000 {
            Some(int_bytes(v as int, 3))
        } else {
            None
        },
        ColumnValueView::LongLong(v) => if ty == TYPE_LONGLONG {
            Some(int_bytes(v as int, 8))
        } else {
            None
        },
        ColumnValueView::Float(bits) => if ty == TYPE_FLOAT {
            Some(le_bytes(bits as int, 4))
        } else {
            None
        },
        ColumnValueView::Double(bits) => if ty == TYPE_DOUBLE {
            Some(le_bytes(bits as int, 8))
        } else {
            None
        },
        ColumnValueView::Year(year) => if ty == TYPE_YEAR {
            encoded_year(year)
        } else {
            None
        },
        ColumnValueView::Date(d) => if ty == TYPE_DATE {
            encoded_date(d)
        } else {
            None
        },
        ColumnValueView::Time(t) => if ty == TYPE_TIME {
            encoded_time(t)
        } else if ty == TYPE_TIME2 {
            encoded_time2(t, meta as int)
        } else {
            None
        },
        ColumnValueView::DateTime(d) => if ty == TYPE_DATETIME {
            encoded_datetime(d)
        } else if ty == TYPE_DATETIME2 {
            encoded_datetime2(d, meta as int)
        } else {
            None
        },
        ColumnValueView::Timestamp(micros) => if ty == TYPE_TIMESTAMP {
            if 0 <= micros && micros % 1000000 == 0 && micros / 1000000 <= u32::MAX {
                Some(le_bytes(micros as int / 1000000, 4))
            } else {
                None
            }
        } else if ty == TYPE_TIMESTAMP2 {
            encoded_timestamp2(micros, meta as int)
        } else {
            None
        },
        ColumnValueView::String(bytes) => if ty == TYPE_VARCHAR || ty == TYPE_VAR_STRING {
            encoded_bytes(bytes, length_prefix(meta as int))
        } else if ty == TYPE_STRING && string_real_type(meta) != TYPE_ENUM && string_real_type(
            meta,
        ) != TYPE_SET {
            encoded_bytes(bytes, length_prefix(string_max_length(meta)))
        } else {
            None
        },
        ColumnValueView::Blob(bytes) => if is_blob_type(ty) {
            encoded_bytes(bytes, meta as int)
        } else {
            None
        },
        ColumnValueView::Json(bytes) => if ty == TYPE_JSON {
            encoded_bytes(bytes, meta as int)
        } else {
            None
        },
        ColumnValueView::Enum(v) => if ty == TYPE_ENUM || (ty == TYPE_STRING && string_real_type(
            meta,
        ) == TYPE_ENUM) {
            encoded_number(v as int, (meta % 256) as int, 2)
        } else {
            None
        },
        ColumnValueView::SetMembers(v) => if ty == TYPE_SET || (ty == TYPE_STRING
            && string_real_type(meta) == TYPE_SET) {
            encoded_number(v as int, (meta % 256) as int, 8)
        } else {
            None
        },
        ColumnValueView::Bit(v) => if ty == TYPE_BIT && bit_bytes(meta) <= 8 && v < pow256(
            bit_bytes(meta) as nat,
        ) {
            Some(be_bytes(v as int, bit_bytes(meta) as nat))
        } else {
            None
        },
        ColumnValueView::Decimal(text) => if ty == TYPE_NEWDECIMAL && exists|
            negative: bool,
            whole: Seq<u8>,
            frac: Seq<u8>,
        | is_decimal_of(meta, text, negative, whole, frac) {
            let (negative, whole, frac) = choose|negative: bool, whole: Seq<u8>, frac: Seq<u8>|
                is_decimal_of(meta, text, negative, whole, frac);
            Some(packed_decimal(negative, whole, frac))
        } else {
            None
        },
        ColumnValueView::Null => None,
    }
}

/// Bytes behind their length that are written are decoded to themselves.
#[verifier::rlimit(40)]
pub proof fn lemma_bytes_round_trip(
    ty: u8,
    meta: u16,
    value: ColumnValueView,
    before: Seq<u8>,
    after: Seq<u8>,
)
    requires
        value is String || value is Blob || value is Json,
        encoded_column(ty, meta, value) is Some,
    ensures
        column_at(
            before + encoded_column(ty, meta, value).unwrap() + after,
            before.len() as int,
            ty,
            meta,
        ) == Some((value, (before.len() + encoded_column(ty, meta, value).unwrap().len()) as int)),
{
    let (bytes, prefix) = match value {
        ColumnValueView::String(bytes) => (
            bytes,
            if ty == TYPE_STRING {
                length_prefix(string_max_length(meta))
            } else {
                length_prefix(meta as int)
            },
        ),
        ColumnValueView::Blob(bytes) => (bytes, meta as int),
        ColumnValueView::Json(bytes) => (bytes, meta as int),
        _ => (Seq::empty(), 1),
    };
    lemma_prefixed_is_read_back(bytes, prefix as nat, before, after);
    let s = before + (le_bytes(bytes.len() as int, prefix as nat) + bytes) + after;
    assert(s =~= before + le_bytes(bytes.len() as int, prefix as nat) + bytes + after);
    if ty == TYPE_STRING {
        lemma_column_by_type(s, before.len() as int, ty, meta);
    } else {
        assert(column_at(s, before.len() as int, ty, meta) == Some(
            (value, before.len() + prefix + bytes.len()),
        )) by {
            reveal(column_at);
        }
    }
}

/// A member of an enumeration, a set or a string of bits that is written
/// is decoded to itself.
#[verifier::rlimit(40)]
pub proof fn lemma_number_round_trip(
    ty: u8,
    meta: u16,
    value: ColumnValueView,
    before: Seq<u8>,
    after: Seq<u8>,
)
    requires
        value is Enum || value is SetMembers || value is Bit,
        encoded_column(ty, meta, value) is Some,
    ensures
        column_at(
            before + encoded_column(ty, meta, value).unwrap() + after,
            before.len() as int,
            ty,
            meta,
        ) == Some((value, (before.len() + encoded_column(ty, meta, value).unwrap().len()) as int)),
{
    let s = before + encoded_column(ty, meta, value).unwrap() + after;
    lemma_pow256_values();
    lemma_column_by_type(s, before.len() as int, ty, meta);
    match value {
        ColumnValueView::Bit(v) => {
            let n = bit_bytes(meta) as nat;
            lemma_be_bytes_read_back(v as int, n, before, after);
            vstd::arithmetic::div_mod::lemma_small_mod(v as nat, pow256(n));
        },
        ColumnValueView::Enum(v) => {
            let n = (meta % 256) as nat;
            lemma_le_bytes_read_back(v as int, n, before, after);
            vstd::arithmetic::div_mod::lemma_small_mod(v as nat, pow256(n));
        },
        ColumnValueView::SetMembers(v) => {
            let n = (meta % 256) as nat;
            lemma_le_bytes_read_back(v as int, n, before, after);
            vstd::arithmetic::div_mod::lemma_small_mod(v as nat, pow256(n));
        },
        _ => {},
    }
}

/// What is written is decoded to itself: for every type of column and
/// every value that a column of the type can hold, decoding the bytes that
/// hold the value, wherever they stand, gives the value and the position
/// behind the bytes.
#[verifier::rlimit(40)]
pub proof fn lemma_column_round_trip(
    ty: u8,
    meta: u16,
    value: ColumnValueView,
    before: Seq<u8>,
    after: Seq<u8>,
)
    requires
        encoded_column(ty, meta, value) is Some,
    ensures
        column_at(
            before + encoded_column(ty, meta, value).unwrap() + after,
            before.len() as int,
            ty,
            meta,
        ) == Some((value, (before.len() + encoded_column(ty, meta, value).unwrap().len()) as int)),
{
    lemma_pow256_values();
    match value {
        ColumnValueView::Tiny(v) => {
            lemma_integer_is_decoded_to_itself(ty, v as int, before, after);
            assert(column_at(before + int_bytes(v as int, 1) + after, before.len() as int, ty, meta)
                == column_at(before + int_bytes(v as int, 1) + after, before.len() as int, ty, 0))
                by {
                reveal(column_at);
            }
        },
        ColumnValueView::Short(v) => {
            lemma_integer_is_decoded_to_itself(ty, v as int, before, after);
            assert(column_at(before + int_bytes(v as int, 2) + after, before.len() as int, ty, meta)
                == column_at(before + int_bytes(v as int, 2) + after, before.len() as int, ty, 0))
                by {
                reveal(column_at);
            }
        },
        ColumnValueView::Long(v) => {
            lemma_integer_is_decoded_to_itself(ty, v as int, before, after);
            let n: nat = if ty == TYPE_LONG {
                4
            } else {
                3
            };
            assert(column_at(before + int_bytes(v as int, n) + after, before.len() as int, ty, meta)
                == column_at(before + int_bytes(v as int, n) + after, before.len() as int, ty, 0))
                by {
                reveal(column_at);
            }
        },
        ColumnValueView::LongLong(v) => {
            lemma_integer_is_decoded_to_itself(ty, v as int, before, after);
            assert(column_at(before + int_bytes(v as int, 8) + after, before.len() as int, ty, meta)
                == column_at(before + int_bytes(v as int, 8) + after, before.len() as int, ty, 0))
                by {
                reveal(column_at);
            }
        },
        ColumnValueView::Float(bits) => {
            lemma_float_bits_are_decoded_to_themselves(bits as u64, false, meta, before, after);
        },
        ColumnValueView::Double(bits) => {
            lemma_float_bits_are_decoded_to_themselves(bits, true, meta, before, after);
        },
        ColumnValueView::Year(year) => {
            lemma_year_round_trip(year, meta, before, after);
        },
        ColumnValueView::Date(d) => {
            lemma_date_round_trip(d, meta, before, after);
        },
        ColumnValueView::Time(t) => {
            if ty == TYPE_TIME {
                lemma_time_round_trip(t, meta, before, after);
            } else {
                lemma_time2_round_trip(t, meta, before, after);
            }
        },
        ColumnValueView::DateTime(d) => {
            if ty == TYPE_DATETIME {
                lemma_datetime_round_trip(d, meta, before, after);
            } else {
                lemma_datetime2_round_trip(d, meta, before, after);
            }
        },
        ColumnValueView::Timestamp(micros) => {
            if ty == TYPE_TIMESTAMP {
                lemma_timestamp_round_trip(micros, meta, before, after);
            } else {
                lemma_timestamp2_round_trip(micros, meta, before, after);
            }
        },
        ColumnValueView::String(_) => {
            lemma_bytes_round_trip(ty, meta, value, before, after);
        },
        ColumnValueView::Blob(_) => {
            lemma_bytes_round_trip(ty, meta, value, before, after);
        },
        ColumnValueView::Json(_) => {
            lemma_bytes_round_trip(ty, meta, value, before, after);
        },
        ColumnValueView::Enum(_) => {
            lemma_number_round_trip(ty, meta, value, before, after);
        },
        ColumnValueView::SetMembers(_) => {
            lemma_number_round_trip(ty, meta, value, before, after);
        },
        ColumnValueView::Bit(_) => {
            lemma_number_round_trip(ty, meta, value, before, after);
        },
        ColumnValueView::Decimal(text) => {
            let (negative, whole, frac) = choose|negative: bool, whole: Seq<u8>, frac: Seq<u8>|
                is_decimal_of(meta, text, negative, whole, frac);
            lemma_decimal_column_round_trip(negative, whole, frac, before, after);
            assert(meta == decimal_meta((whole.len() + frac.len()) as int, frac.len() as int));
        },
        ColumnValueView::Null => {},
    }
}

} // verus!
