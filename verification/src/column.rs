//! The value of one column: its model for every column type, and the
//! decoder proved against it.

use vstd::prelude::*;
use crate::bytes::{
    be_at, copy_range, fits, in_bounds, le_at, le_bytes, lemma_be_at_bound, lemma_le_at_bound,
    lemma_pow256_values, pow256, read_be, read_le, signed,
};
use crate::decimal::{decimal_at, read_decimal};
use crate::error::BinlogError;
use crate::temporal::{
    date_of, datetime_from_packed, datetime_of_decimal, datetime_of_packed, fraction_bytes,
    fraction_unit, read_fraction, time_from_packed, time_of_decimal, time_of_packed, DateTimeValue,
    DateValue, TimeValue,
};

verus! {

/// Code of the column type `TINYINT`.
pub const TYPE_TINY: u8 = 1;

/// Code of the column type `SMALLINT`.
pub const TYPE_SHORT: u8 = 2;

/// Code of the column type `INT`.
pub const TYPE_LONG: u8 = 3;

/// Code of the column type `FLOAT`.
pub const TYPE_FLOAT: u8 = 4;

/// Code of the column type `DOUBLE`.
pub const TYPE_DOUBLE: u8 = 5;

/// Code of the column type `TIMESTAMP` in the format without fractions of a second.
pub const TYPE_TIMESTAMP: u8 = 7;

/// Code of the column type `BIGINT`.
pub const TYPE_LONGLONG: u8 = 8;

/// Code of the column type `MEDIUMINT`.
pub const TYPE_INT24: u8 = 9;

/// Code of the column type `DATE`.
pub const TYPE_DATE: u8 = 10;

/// Code of the column type `TIME` in the format without fractions of a second.
pub const TYPE_TIME: u8 = 11;

/// Code of the column type `DATETIME` in the format without fractions of a second.
pub const TYPE_DATETIME: u8 = 12;

/// Code of the column type `YEAR`.
pub const TYPE_YEAR: u8 = 13;

/// Code of the column type `VARCHAR`.
pub const TYPE_VARCHAR: u8 = 15;

/// Code of the column type `BIT`.
pub const TYPE_BIT: u8 = 16;

/// Code of the column type `TIMESTAMP` with fractions of a second.
pub const TYPE_TIMESTAMP2: u8 = 17;

/// Code of the column type `DATETIME` with fractions of a second.
pub const TYPE_DATETIME2: u8 = 18;

/// Code of the column type `TIME` with fractions of a second.
pub const TYPE_TIME2: u8 = 19;

/// Code of the column type `JSON`.
pub const TYPE_JSON: u8 = 245;

/// Code of the column type `DECIMAL`.
pub const TYPE_NEWDECIMAL: u8 = 246;

/// Code of the column type `ENUM`.
pub const TYPE_ENUM: u8 = 247;

/// Code of the column type `SET`.
pub const TYPE_SET: u8 = 248;

/// Code of the column type `TINYBLOB`.
pub const TYPE_TINY_BLOB: u8 = 249;

/// Code of the column type `MEDIUMBLOB`.
pub const TYPE_MEDIUM_BLOB: u8 = 250;

/// Code of the column type `LONGBLOB`.
pub const TYPE_LONG_BLOB: u8 = 251;

/// Code of the column type `BLOB`.
pub const TYPE_BLOB: u8 = 252;

/// Code of the column type `VARCHAR` of older tables.
pub const TYPE_VAR_STRING: u8 = 253;

/// Code of the column type `CHAR`.
pub const TYPE_STRING: u8 = 254;

/// Code of the column type `GEOMETRY`.
pub const TYPE_GEOMETRY: u8 = 255;

/// The value of one column of a row.
#[derive(Debug, Clone, PartialEq, Eq)]
pub enum ColumnValue {
    /// SQL `NULL`, or a column that the row image leaves out.
    Null,
    Tiny(i8),
    Short(i16),
    /// A 32-bit integer, or a 24-bit one widened.
    Long(i32),
    LongLong(i64),
    /// The IEEE 754 bit pattern of a single-precision number.
    Float(u32),
    /// The IEEE 754 bit pattern of a double-precision number.
    Double(u64),
    /// A fixed-point number as decimal text.
    Decimal(Vec<u8>),
    Time(TimeValue),
    Date(DateValue),
    DateTime(DateTimeValue),
    /// Microseconds since the epoch.
    Timestamp(i64),
    Year(u16),
    /// The bytes of a character column, in the column's character set.
    String(Vec<u8>),
    Blob(Vec<u8>),
    Bit(u64),
    /// The members of a set, one bit each.
    SetMembers(u64),
    /// The index of an enumeration's member.
    Enum(u32),
    /// A document in the binary JSON encoding, not decoded.
    Json(Vec<u8>),
}

/// The mathematical value of a [`ColumnValue`].
pub enum ColumnValueView {
    Null,
    Tiny(i8),
    Short(i16),
    Long(i32),
    LongLong(i64),
    Float(u32),
    Double(u64),
    Decimal(Seq<u8>),
    Time(TimeValue),
    Date(DateValue),
    DateTime(DateTimeValue),
    Timestamp(i64),
    Year(u16),
    String(Seq<u8>),
    Blob(Seq<u8>),
    Bit(u64),
    SetMembers(u64),
    Enum(u32),
    Json(Seq<u8>),
}

impl View for ColumnValue {
    type V = ColumnValueView;

    open spec fn view(&self) -> ColumnValueView {
        match *self {
            ColumnValue::Null => ColumnValueView::Null,
            ColumnValue::Tiny(v) => ColumnValueView::Tiny(v),
            ColumnValue::Short(v) => ColumnValueView::Short(v),
            ColumnValue::Long(v) => ColumnValueView::Long(v),
            ColumnValue::LongLong(v) => ColumnValueView::LongLong(v),
            ColumnValue::Float(v) => ColumnValueView::Float(v),
            ColumnValue::Double(v) => ColumnValueView::Double(v),
            ColumnValue::Decimal(v) => ColumnValueView::Decimal(v@),
            ColumnValue::Time(v) => ColumnValueView::Time(v),
            ColumnValue::Date(v) => ColumnValueView::Date(v),
            ColumnValue::DateTime(v) => ColumnValueView::DateTime(v),
            ColumnValue::Timestamp(v) => ColumnValueView::Timestamp(v),
            ColumnValue::Year(v) => ColumnValueView::Year(v),
            ColumnValue::String(v) => ColumnValueView::String(v@),
            ColumnValue::Blob(v) => ColumnValueView::Blob(v@),
            ColumnValue::Bit(v) => ColumnValueView::Bit(v),
            ColumnValue::SetMembers(v) => ColumnValueView::SetMembers(v),
            ColumnValue::Enum(v) => ColumnValueView::Enum(v),
            ColumnValue::Json(v) => ColumnValueView::Json(v@),
        }
    }
}

/// `value` with the position behind its `n` bytes, where `n` bytes stand at
/// `pos`.
pub open spec fn fixed(s: Seq<u8>, pos: int, n: int, value: ColumnValueView) -> Option<
    (ColumnValueView, int),
> {
    if in_bounds(s, pos, n) {
        Some((value, pos + n))
    } else {
        None
    }
}

/// The bytes behind a little-endian length of `prefix` bytes at `pos`, and
/// the position behind them.
pub open spec fn prefixed_at(s: Seq<u8>, pos: int, prefix: int) -> Option<(Seq<u8>, int)> {
    if !in_bounds(s, pos, prefix) {
        None
    } else if !in_bounds(s, pos + prefix, le_at(s, pos, prefix as nat) as int) {
        None
    } else {
        Some(
            (
                s.subrange(pos + prefix, pos + prefix + le_at(s, pos, prefix as nat)),
                pos + prefix + le_at(s, pos, prefix as nat),
            ),
        )
    }
}

/// Number of bytes of the length in front of a character value whose column
/// holds at most `max` bytes.
pub open spec fn length_prefix(max: int) -> int {
    if max < 256 {
        1
    } else {
        2
    }
}

/// The type that a `STRING` column really has. Its metadata holds the type
/// in the first byte and the length in the second; where the length needs
/// more than 8 bits, its two highest bits stand inverted in bits 4 and 5 of
/// the first byte.
pub open spec fn string_real_type(meta: u16) -> int {
    if meta < 256 {
        TYPE_STRING as int
    } else {
        meta / 256 + (3 - (meta / 4096) % 4) * 16
    }
}

/// The greatest length in bytes of a `STRING` column's values.
pub open spec fn string_max_length(meta: u16) -> int {
    if meta < 256 {
        meta as int
    } else {
        meta % 256 + (3 - (meta / 4096) % 4) * 256
    }
}

/// A member of an enumeration stored in `size` bytes.
pub open spec fn enum_at(s: Seq<u8>, pos: int, size: int) -> Option<(ColumnValueView, int)> {
    if size == 1 || size == 2 {
        fixed(s, pos, size, ColumnValueView::Enum(le_at(s, pos, size as nat) as u32))
    } else {
        None
    }
}

/// A set stored in `size` bytes.
pub open spec fn set_at(s: Seq<u8>, pos: int, size: int) -> Option<(ColumnValueView, int)> {
    if 1 <= size <= 8 {
        fixed(s, pos, size, ColumnValueView::SetMembers(le_at(s, pos, size as nat) as u64))
    } else {
        None
    }
}

/// A value of the family of character columns with a length in front.
pub open spec fn string_at(s: Seq<u8>, pos: int, max: int) -> Option<(ColumnValueView, int)> {
    match prefixed_at(s, pos, length_prefix(max)) {
        Some((bytes, next)) => Some((ColumnValueView::String(bytes), next)),
        None => None,
    }
}

/// The value of a `DATE` column at `pos`: 3 bytes.
pub open spec fn date_at(s: Seq<u8>, pos: int) -> Option<(ColumnValueView, int)> {
    fixed(s, pos, 3, ColumnValueView::Date(date_of(le_at(s, pos, 3))))
}

/// The value at `pos` of a `TIME` column without fractions: 3 bytes that
/// hold the digits `hhmmss` as a signed number.
pub open spec fn plain_time_at(s: Seq<u8>, pos: int) -> Option<(ColumnValueView, int)> {
    fixed(
        s,
        pos,
        3,
        ColumnValueView::Time(
            if signed(le_at(s, pos, 3), 3) < 0 {
                time_of_decimal(true, (-signed(le_at(s, pos, 3), 3)) as nat)
            } else {
                time_of_decimal(false, le_at(s, pos, 3))
            },
        ),
    )
}

/// The value at `pos` of a `DATETIME` column without fractions: 8 bytes
/// that hold the digits `yyyymmddhhmmss` as a number. `None` for a year
/// above 65535.
pub open spec fn plain_datetime_at(s: Seq<u8>, pos: int) -> Option<(ColumnValueView, int)> {
    if in_bounds(s, pos, 8) && le_at(s, pos, 8) / 10000000000 > 0xffff {
        None
    } else {
        fixed(s, pos, 8, ColumnValueView::DateTime(datetime_of_decimal(le_at(s, pos, 8))))
    }
}

/// The value at `pos` of a `TIMESTAMP` column with fractions at precision
/// `fsp`: the seconds in 4 big-endian bytes, then the fraction.
pub open spec fn timestamp2_at(s: Seq<u8>, pos: int, fsp: u16) -> Option<(ColumnValueView, int)> {
    if fsp > 6 {
        None
    } else {
        fixed(
            s,
            pos,
            4 + fraction_bytes(fsp as int),
            ColumnValueView::Timestamp(
                (be_at(s, pos, 4) * 1000000 + be_at(s, pos + 4, fraction_bytes(fsp as int) as nat)
                    * fraction_unit(fraction_bytes(fsp as int))) as i64,
            ),
        )
    }
}

/// The value at `pos` of a `DATETIME` column with fractions at precision
/// `fsp`: the packed date and time in 5 big-endian bytes, then the
/// fraction.
pub open spec fn datetime2_at(s: Seq<u8>, pos: int, fsp: u16) -> Option<(ColumnValueView, int)> {
    if fsp > 6 {
        None
    } else {
        fixed(
            s,
            pos,
            5 + fraction_bytes(fsp as int),
            ColumnValueView::DateTime(
                datetime_of_packed(
                    be_at(s, pos, 5),
                    (be_at(s, pos + 5, fraction_bytes(fsp as int) as nat) * fraction_unit(
                        fraction_bytes(fsp as int),
                    )) as nat,
                ),
            ),
        )
    }
}

/// The value at `pos` of a `TIME` column with fractions at precision
/// `fsp`: one big-endian number of 3 bytes and the bytes of the fraction.
pub open spec fn time2_at(s: Seq<u8>, pos: int, fsp: u16) -> Option<(ColumnValueView, int)> {
    if fsp > 6 {
        None
    } else {
        fixed(
            s,
            pos,
            3 + fraction_bytes(fsp as int),
            ColumnValueView::Time(
                time_of_packed(
                    be_at(s, pos, (3 + fraction_bytes(fsp as int)) as nat),
                    fraction_bytes(fsp as int),
                ),
            ),
        )
    }
}

/// The value at `pos` of a `BIT` column whose metadata holds the number
/// of whole bytes above the number of bits beside them: a big-endian
/// number of as many bytes as hold the bits.
pub open spec fn bit_column_at(s: Seq<u8>, pos: int, meta: u16) -> Option<(ColumnValueView, int)> {
    if ((meta / 256) * 8 + meta % 256 + 7) / 8 > 8 {
        None
    } else {
        fixed(
            s,
            pos,
            ((meta / 256) * 8 + meta % 256 + 7) / 8,
            ColumnValueView::Bit(
                be_at(s, pos, (((meta / 256) * 8 + meta % 256 + 7) / 8) as nat) as u64,
            ),
        )
    }
}

/// The value of a column of type `ty` with metadata `meta` whose bytes start
/// at `pos`, and the position behind it. `None` when bytes are missing, the
/// metadata does not fit the type, or the type is not known.
#[verifier::opaque]
pub open spec fn column_at(s: Seq<u8>, pos: int, ty: u8, meta: u16) -> Option<
    (ColumnValueView, int),
> {
    if ty == TYPE_TINY {
        fixed(s, pos, 1, ColumnValueView::Tiny(signed(le_at(s, pos, 1), 1) as i8))
    } else if ty == TYPE_SHORT {
        fixed(s, pos, 2, ColumnValueView::Short(signed(le_at(s, pos, 2), 2) as i16))
    } else if ty == TYPE_INT24 {
        fixed(s, pos, 3, ColumnValueView::Long(signed(le_at(s, pos, 3), 3) as i32))
    } else if ty == TYPE_LONG {
        fixed(s, pos, 4, ColumnValueView::Long(signed(le_at(s, pos, 4), 4) as i32))
    } else if ty == TYPE_LONGLONG {
        fixed(s, pos, 8, ColumnValueView::LongLong(signed(le_at(s, pos, 8), 8) as i64))
    } else if ty == TYPE_FLOAT {
        fixed(s, pos, 4, ColumnValueView::Float(le_at(s, pos, 4) as u32))
    } else if ty == TYPE_DOUBLE {
        fixed(s, pos, 8, ColumnValueView::Double(le_at(s, pos, 8) as u64))
    } else if ty == TYPE_YEAR {
        fixed(
            s,
            pos,
            1,
            ColumnValueView::Year(
                if s[pos] == 0 {
                    0u16
                } else {
                    (1900 + s[pos]) as u16
                },
            ),
        )
    } else if ty == TYPE_DATE {
        date_at(s, pos)
    } else if ty == TYPE_TIME {
        plain_time_at(s, pos)
    } else if ty == TYPE_DATETIME {
        plain_datetime_at(s, pos)
    } else if ty == TYPE_TIMESTAMP {
        fixed(s, pos, 4, ColumnValueView::Timestamp((le_at(s, pos, 4) * 1000000) as i64))
    } else if ty == TYPE_TIMESTAMP2 {
        timestamp2_at(s, pos, meta)
    } else if ty == TYPE_DATETIME2 {
        datetime2_at(s, pos, meta)
    } else if ty == TYPE_TIME2 {
        time2_at(s, pos, meta)
    } else if ty == TYPE_VARCHAR || ty == TYPE_VAR_STRING {
        string_at(s, pos, meta as int)
    } else if ty == TYPE_STRING {
        if string_real_type(meta) == TYPE_ENUM {
            enum_at(s, pos, (meta % 256) as int)
        } else if string_real_type(meta) == TYPE_SET {
            set_at(s, pos, (meta % 256) as int)
        } else {
            string_at(s, pos, string_max_length(meta))
        }
    } else if ty == TYPE_ENUM {
        enum_at(s, pos, (meta % 256) as int)
    } else if ty == TYPE_SET {
        set_at(s, pos, (meta % 256) as int)
    } else if ty == TYPE_BIT {
        bit_column_at(s, pos, meta)
    } else if ty == TYPE_TINY_BLOB || ty == TYPE_MEDIUM_BLOB || ty == TYPE_LONG_BLOB || ty
        == TYPE_BLOB || ty == TYPE_GEOMETRY {
        if 1 <= meta <= 4 {
            match prefixed_at(s, pos, meta as int) {
                Some((bytes, next)) => Some((ColumnValueView::Blob(bytes), next)),
                None => None,
            }
        } else {
            None
        }
    } else if ty == TYPE_JSON {
        if 1 <= meta <= 4 {
            match prefixed_at(s, pos, meta as int) {
                Some((bytes, next)) => Some((ColumnValueView::Json(bytes), next)),
                None => None,
            }
        } else {
            None
        }
    } else if ty == TYPE_NEWDECIMAL {
        match decimal_at(s, pos, (meta % 256) as int, (meta / 256) as int) {
            Some((text, next)) => Some((ColumnValueView::Decimal(text), next)),
            None => None,
        }
    } else {
        None
    }
}

/// What `column_at` is for the types whose values have a model of their
/// own.
#[verifier::rlimit(40)]
pub proof fn lemma_column_by_type(s: Seq<u8>, pos: int, ty: u8, meta: u16)
    ensures
        ty == TYPE_DATE ==> column_at(s, pos, ty, meta) == date_at(s, pos),
        ty == TYPE_TIME ==> column_at(s, pos, ty, meta) == plain_time_at(s, pos),
        ty == TYPE_DATETIME ==> column_at(s, pos, ty, meta) == plain_datetime_at(s, pos),
        ty == TYPE_TIMESTAMP2 ==> column_at(s, pos, ty, meta) == timestamp2_at(s, pos, meta),
        ty == TYPE_DATETIME2 ==> column_at(s, pos, ty, meta) == datetime2_at(s, pos, meta),
        ty == TYPE_TIME2 ==> column_at(s, pos, ty, meta) == time2_at(s, pos, meta),
        ty == TYPE_BIT ==> column_at(s, pos, ty, meta) == bit_column_at(s, pos, meta),
        ty == TYPE_ENUM ==> column_at(s, pos, ty, meta) == enum_at(s, pos, (meta % 256) as int),
        ty == TYPE_SET ==> column_at(s, pos, ty, meta) == set_at(s, pos, (meta % 256) as int),
        ty == TYPE_STRING ==> column_at(s, pos, ty, meta) == if string_real_type(meta)
            == TYPE_ENUM {
            enum_at(s, pos, (meta % 256) as int)
        } else if string_real_type(meta) == TYPE_SET {
            set_at(s, pos, (meta % 256) as int)
        } else {
            string_at(s, pos, string_max_length(meta))
        },
{
    reveal(column_at);
}

/// A column's value ends inside the bytes, at or behind the place where it
/// starts.
#[verifier::rlimit(40)]
pub proof fn lemma_column_end(s: Seq<u8>, pos: int, ty: u8, meta: u16)
    requires
        0 <= pos,
    ensures
        column_at(s, pos, ty, meta) matches Some((_, next)) ==> pos <= next <= s.len(),
{
    reveal(column_at);
    reveal(decimal_at);
}

/// Reads the two's-complement integer of `n` little-endian bytes at `pos`.
pub fn read_signed(buf: &[u8], pos: usize, n: usize) -> (v: i64)
    requires
        1 <= n <= 8,
        in_bounds(buf@, pos as int, n as int),
    ensures
        v == signed(le_at(buf@, pos as int, n as nat), n as nat),
{
    let raw: u64 = read_le(buf, pos, n);
    proof {
        lemma_pow256_values();
        lemma_le_at_bound(buf@, pos as int, n as nat);
    }
    let half: u64 = if n == 1 {
        0x80
    } else if n == 2 {
        0x8000
    } else if n == 3 {
        0x80_0000
    } else if n == 4 {
        0x8000_0000
    } else if n == 5 {
        0x80_0000_0000
    } else if n == 6 {
        0x8000_0000_0000
    } else if n == 7 {
        0x80_0000_0000_0000
    } else {
        0x8000_0000_0000_0000
    };
    if raw < half {
        raw as i64
    } else {
        ((raw - half) as i64 - (half - 1) as i64) - 1
    }
}

/// Reads the bytes behind a little-endian length of `prefix` bytes.
pub(crate) fn read_prefixed(buf: &[u8], pos: usize, prefix: usize) -> (r: Option<(Vec<u8>, usize)>)
    requires
        1 <= prefix <= 4,
    ensures
        match prefixed_at(buf@, pos as int, prefix as int) {
            Some((bytes, next)) => r matches Some((b, n)) && b@ == bytes && n == next,
            None => r is None,
        },
{
    if !fits(buf, pos, prefix) {
        return None;
    }
    let len: u64 = read_le(buf, pos, prefix);
    let start: usize = pos + prefix;
    if len > (buf.len() - start) as u64 {
        return None;
    }
    let end: usize = start + len as usize;
    Some((copy_range(buf, start, end), end))
}

/// Reads a member of an enumeration stored in `size` bytes.
fn read_enum(buf: &[u8], pos: usize, size: u16) -> (r: Option<(ColumnValue, usize)>)
    ensures
        match enum_at(buf@, pos as int, size as int) {
            Some((value, next)) => r matches Some((v, n)) && v@ == value && n == next,
            None => r is None,
        },
{
    if (size == 1 || size == 2) && fits(buf, pos, size as usize) {
        proof {
            lemma_pow256_values();
            lemma_le_at_bound(buf@, pos as int, size as nat);
        }
        Some((ColumnValue::Enum(read_le(buf, pos, size as usize) as u32), pos + size as usize))
    } else {
        None
    }
}

/// Reads a set stored in `size` bytes.
fn read_set(buf: &[u8], pos: usize, size: u16) -> (r: Option<(ColumnValue, usize)>)
    ensures
        match set_at(buf@, pos as int, size as int) {
            Some((value, next)) => r matches Some((v, n)) && v@ == value && n == next,
            None => r is None,
        },
{
    if 1 <= size && size <= 8 && fits(buf, pos, size as usize) {
        Some((ColumnValue::SetMembers(read_le(buf, pos, size as usize)), pos + size as usize))
    } else {
        None
    }
}

/// Reads a character value behind its length.
fn read_string(buf: &[u8], pos: usize, max: u16) -> (r: Option<(ColumnValue, usize)>)
    ensures
        match string_at(buf@, pos as int, max as int) {
            Some((value, next)) => r matches Some((v, n)) && v@ == value && n == next,
            None => r is None,
        },
{
    let prefix: usize = if max < 256 {
        1
    } else {
        2
    };
    match read_prefixed(buf, pos, prefix) {
        Some((bytes, next)) => Some((ColumnValue::String(bytes), next)),
        None => None,
    }
}

/// Reads a value of one of the date and time types.
#[verifier::rlimit(40)]
fn read_temporal(buf: &[u8], pos: usize, ty: u8, meta: u16) -> (r: Option<(ColumnValue, usize)>)
    requires
        ty == TYPE_YEAR || ty == TYPE_DATE || ty == TYPE_TIME || ty == TYPE_DATETIME || ty
            == TYPE_TIMESTAMP || ty == TYPE_TIMESTAMP2 || ty == TYPE_DATETIME2 || ty == TYPE_TIME2,
    ensures
        match column_at(buf@, pos as int, ty, meta) {
            Some((value, next)) => r matches Some((v, n)) && v@ == value && n == next,
            None => r is None,
        },
{
    proof {
        reveal(column_at);
        lemma_pow256_values();
    }
    if ty == TYPE_YEAR {
        if !fits(buf, pos, 1) {
            return None;
        }
        let raw: u8 = buf[pos];
        let year: u16 = if raw == 0 {
            0
        } else {
            1900 + raw as u16
        };
        Some((ColumnValue::Year(year), pos + 1))
    } else if ty == TYPE_DATE {
        if !fits(buf, pos, 3) {
            return None;
        }
        let v: u64 = read_le(buf, pos, 3);
        proof {
            lemma_le_at_bound(buf@, pos as int, 3);
        }
        let date = DateValue {
            year: (v / 512) as u16,
            month: ((v / 32) % 16) as u8,
            day: (v % 32) as u8,
        };
        Some((ColumnValue::Date(date), pos + 3))
    } else if ty == TYPE_TIME {
        if !fits(buf, pos, 3) {
            return None;
        }
        let sv: i64 = read_signed(buf, pos, 3);
        proof {
            lemma_le_at_bound(buf@, pos as int, 3);
        }
        let negative: bool = sv < 0;
        let a: u64 = if negative {
            (-sv) as u64
        } else {
            sv as u64
        };
        let time = TimeValue {
            negative,
            hours: (a / 10000) as u16,
            minutes: ((a / 100) % 100) as u8,
            seconds: (a % 100) as u8,
            micros: 0,
        };
        Some((ColumnValue::Time(time), pos + 3))
    } else if ty == TYPE_DATETIME {
        if !fits(buf, pos, 8) {
            return None;
        }
        let v: u64 = read_le(buf, pos, 8);
        if v / 10000000000 > 0xffff {
            return None;
        }
        let value = DateTimeValue {
            year: (v / 10000000000) as u16,
            month: ((v / 100000000) % 100) as u8,
            day: ((v / 1000000) % 100) as u8,
            hour: ((v / 10000) % 100) as u8,
            minute: ((v / 100) % 100) as u8,
            second: (v % 100) as u8,
            micros: 0,
        };
        Some((ColumnValue::DateTime(value), pos + 8))
    } else if ty == TYPE_TIMESTAMP {
        if !fits(buf, pos, 4) {
            return None;
        }
        let v: u64 = read_le(buf, pos, 4);
        proof {
            lemma_le_at_bound(buf@, pos as int, 4);
        }
        Some((ColumnValue::Timestamp((v * 1000000) as i64), pos + 4))
    } else {
        if meta > 6 {
            return None;
        }
        let extra: usize = ((meta + 1) / 2) as usize;
        if ty == TYPE_TIMESTAMP2 {
            if !fits(buf, pos, 4 + extra) {
                return None;
            }
            let seconds: u64 = read_be(buf, pos, 4);
            let micros: u32 = read_fraction(buf, pos + 4, meta);
            proof {
                lemma_be_at_bound(buf@, pos as int, 4);
                lemma_be_at_bound(buf@, pos + 4, extra as nat);
            }
            Some(
                (
                    ColumnValue::Timestamp((seconds * 1000000 + micros as u64) as i64),
                    pos + 4 + extra,
                ),
            )
        } else if ty == TYPE_DATETIME2 {
            if !fits(buf, pos, 5 + extra) {
                return None;
            }
            let packed: u64 = read_be(buf, pos, 5);
            let micros: u32 = read_fraction(buf, pos + 5, meta);
            Some((ColumnValue::DateTime(datetime_from_packed(packed, micros)), pos + 5 + extra))
        } else {
            if !fits(buf, pos, 3 + extra) {
                return None;
            }
            let packed: u64 = read_be(buf, pos, 3 + extra);
            proof {
                lemma_be_at_bound(buf@, pos as int, (3 + extra) as nat);
            }
            Some((ColumnValue::Time(time_from_packed(packed, extra)), pos + 3 + extra))
        }
    }
}

/// Reads a value of one of the number types.
#[verifier::rlimit(40)]
fn read_number(buf: &[u8], pos: usize, ty: u8) -> (r: Option<(ColumnValue, usize)>)
    requires
        ty == TYPE_TINY || ty == TYPE_SHORT || ty == TYPE_INT24 || ty == TYPE_LONG || ty
            == TYPE_LONGLONG || ty == TYPE_FLOAT || ty == TYPE_DOUBLE,
    ensures
        match column_at(buf@, pos as int, ty, 0) {
            Some((value, next)) => r matches Some((v, n)) && v@ == value && n == next,
            None => r is None,
        },
{
    proof {
        reveal(column_at);
        lemma_pow256_values();
    }
    if ty == TYPE_TINY {
        if !fits(buf, pos, 1) {
            return None;
        }
        proof {
            lemma_le_at_bound(buf@, pos as int, 1);
        }
        Some((ColumnValue::Tiny(read_signed(buf, pos, 1) as i8), pos + 1))
    } else if ty == TYPE_SHORT {
        if !fits(buf, pos, 2) {
            return None;
        }
        proof {
            lemma_le_at_bound(buf@, pos as int, 2);
        }
        Some((ColumnValue::Short(read_signed(buf, pos, 2) as i16), pos + 2))
    } else if ty == TYPE_INT24 {
        if !fits(buf, pos, 3) {
            return None;
        }
        proof {
            lemma_le_at_bound(buf@, pos as int, 3);
        }
        Some((ColumnValue::Long(read_signed(buf, pos, 3) as i32), pos + 3))
    } else if ty == TYPE_LONG {
        if !fits(buf, pos, 4) {
            return None;
        }
        proof {
            lemma_le_at_bound(buf@, pos as int, 4);
        }
        Some((ColumnValue::Long(read_signed(buf, pos, 4) as i32), pos + 4))
    } else if ty == TYPE_LONGLONG {
        if !fits(buf, pos, 8) {
            return None;
        }
        Some((ColumnValue::LongLong(read_signed(buf, pos, 8)), pos + 8))
    } else if ty == TYPE_FLOAT {
        if !fits(buf, pos, 4) {
            return None;
        }
        proof {
            lemma_le_at_bound(buf@, pos as int, 4);
        }
        Some((ColumnValue::Float(read_le(buf, pos, 4) as u32), pos + 4))
    } else {
        if !fits(buf, pos, 8) {
            return None;
        }
        Some((ColumnValue::Double(read_le(buf, pos, 8)), pos + 8))
    }
}

/// Decodes the value of one column of type `ty` with metadata `meta` at
/// `pos`. Returns the value and the position behind it; fails with
/// `Protocol` where the model has no value.
#[verifier::rlimit(40)]
pub fn decode_column(buf: &[u8], pos: usize, ty: u8, meta: u16) -> (r: Result<
    (ColumnValue, usize),
    BinlogError,
>)
    ensures
        match column_at(buf@, pos as int, ty, meta) {
            Some((value, next)) => r matches Ok((v, n)) && v@ == value && n == next,
            None => r matches Err(e) && e == BinlogError::Protocol,
        },
{
    proof {
        reveal(column_at);
    }
    let decoded: Option<(ColumnValue, usize)> = if ty == TYPE_TINY || ty == TYPE_SHORT || ty
        == TYPE_INT24 || ty == TYPE_LONG || ty == TYPE_LONGLONG || ty == TYPE_FLOAT || ty
        == TYPE_DOUBLE {
        read_number(buf, pos, ty)
    } else if ty == TYPE_YEAR || ty == TYPE_DATE || ty == TYPE_TIME || ty == TYPE_DATETIME || ty
        == TYPE_TIMESTAMP || ty == TYPE_TIMESTAMP2 || ty == TYPE_DATETIME2 || ty == TYPE_TIME2 {
        read_temporal(buf, pos, ty, meta)
    } else if ty == TYPE_VARCHAR || ty == TYPE_VAR_STRING {
        read_string(buf, pos, meta)
    } else if ty == TYPE_STRING {
        if meta < 256 {
            read_string(buf, pos, meta)
        } else {
            let spread: u16 = 3 - (meta / 4096) % 4;
            let actual: u16 = meta / 256 + spread * 16;
            if actual == TYPE_ENUM as u16 {
                read_enum(buf, pos, meta % 256)
            } else if actual == TYPE_SET as u16 {
                read_set(buf, pos, meta % 256)
            } else {
                read_string(buf, pos, meta % 256 + spread * 256)
            }
        }
    } else if ty == TYPE_ENUM {
        read_enum(buf, pos, meta % 256)
    } else if ty == TYPE_SET {
        read_set(buf, pos, meta % 256)
    } else if ty == TYPE_BIT {
        let size: u16 = ((meta / 256) * 8 + meta % 256 + 7) / 8;
        if size > 8 || !fits(buf, pos, size as usize) {
            None
        } else {
            Some((ColumnValue::Bit(read_be(buf, pos, size as usize)), pos + size as usize))
        }
    } else if ty == TYPE_TINY_BLOB || ty == TYPE_MEDIUM_BLOB || ty == TYPE_LONG_BLOB || ty
        == TYPE_BLOB || ty == TYPE_GEOMETRY {
        if 1 <= meta && meta <= 4 {
            match read_prefixed(buf, pos, meta as usize) {
                Some((bytes, next)) => Some((ColumnValue::Blob(bytes), next)),
                None => None,
            }
        } else {
            None
        }
    } else if ty == TYPE_JSON {
        if 1 <= meta && meta <= 4 {
            match read_prefixed(buf, pos, meta as usize) {
                Some((bytes, next)) => Some((ColumnValue::Json(bytes), next)),
                None => None,
            }
        } else {
            None
        }
    } else if ty == TYPE_NEWDECIMAL {
        match read_decimal(buf, pos, (meta % 256) as u8, (meta / 256) as u8) {
            Some((text, next)) => Some((ColumnValue::Decimal(text), next)),
            None => None,
        }
    } else {
        None
    };
    match decoded {
        Some(found) => Ok(found),
        None => Err(BinlogError::Protocol),
    }
}

/// The `n` bytes that hold `v` in two's complement, lowest byte first.
pub open spec fn int_bytes(v: int, n: nat) -> Seq<u8> {
    le_bytes(
        if v < 0 {
            v + pow256(n)
        } else {
            v
        },
        n,
    )
}

/// Number of bytes of a column of the integer type `ty`.
pub open spec fn integer_width(ty: u8) -> nat {
    if ty == TYPE_TINY {
        1
    } else if ty == TYPE_SHORT {
        2
    } else if ty == TYPE_INT24 {
        3
    } else if ty == TYPE_LONG {
        4
    } else {
        8
    }
}

/// The value of a column of the integer type `ty` that holds `v`.
pub open spec fn integer_value(ty: u8, v: int) -> ColumnValueView {
    if ty == TYPE_TINY {
        ColumnValueView::Tiny(v as i8)
    } else if ty == TYPE_SHORT {
        ColumnValueView::Short(v as i16)
    } else if ty == TYPE_LONGLONG {
        ColumnValueView::LongLong(v as i64)
    } else {
        ColumnValueView::Long(v as i32)
    }
}

/// An integer that is written in two's complement is decoded to itself:
/// for each of the integer types and every number `v` that its width
/// holds, decoding the bytes of `v`, wherever they stand, gives `v` and
/// the position behind them.
#[verifier::rlimit(40)]
pub proof fn lemma_integer_is_decoded_to_itself(
    ty: u8,
    v: int,
    before: Seq<u8>,
    after: Seq<u8>,
)
    requires
        ty == TYPE_TINY || ty == TYPE_SHORT || ty == TYPE_INT24 || ty == TYPE_LONG || ty
            == TYPE_LONGLONG,
        -(pow256(integer_width(ty)) as int) <= 2 * v < pow256(integer_width(ty)),
    ensures
        column_at(
            before + int_bytes(v, integer_width(ty)) + after,
            before.len() as int,
            ty,
            0,
        ) == Some((integer_value(ty, v), before.len() as int + integer_width(ty))),
{
    let n = integer_width(ty);
    lemma_int_bytes_are_read_back(v, n, before, after);
    assert(column_at(before + int_bytes(v, n) + after, before.len() as int, ty, 0) == Some(
        (integer_value(ty, v), before.len() as int + n),
    )) by {
        reveal(column_at);
    }
}

/// Reading the two's complement of `v` back gives `v`.
pub proof fn lemma_int_bytes_are_read_back(v: int, n: nat, before: Seq<u8>, after: Seq<u8>)
    requires
        1 <= n <= 8,
        -(pow256(n) as int) <= 2 * v < pow256(n),
    ensures
        in_bounds(before + int_bytes(v, n) + after, before.len() as int, n as int),
        signed(le_at(before + int_bytes(v, n) + after, before.len() as int, n), n) == v,
{
    let u = if v < 0 {
        v + pow256(n)
    } else {
        v
    };
    crate::bytes::lemma_le_bytes_read_back(u, n, before, after);
    vstd::arithmetic::div_mod::lemma_small_mod(u as nat, pow256(n));
}

/// The bits of a floating-point number are decoded to themselves.
#[verifier::rlimit(40)]
pub proof fn lemma_float_bits_are_decoded_to_themselves(
    bits: u64,
    double: bool,
    meta: u16,
    before: Seq<u8>,
    after: Seq<u8>,
)
    requires
        double || bits <= u32::MAX,
    ensures
        column_at(
            before + le_bytes(
                bits as int,
                if double {
                    8
                } else {
                    4
                },
            ) + after,
            before.len() as int,
            if double {
                TYPE_DOUBLE
            } else {
                TYPE_FLOAT
            },
            meta,
        ) == Some(
            (
                if double {
                    ColumnValueView::Double(bits)
                } else {
                    ColumnValueView::Float(bits as u32)
                },
                before.len() + if double {
                    8int
                } else {
                    4int
                },
            ),
        ),
{
    reveal(column_at);
    lemma_pow256_values();
    crate::bytes::lemma_le_bytes_read_back(
        bits as int,
        if double {
            8
        } else {
            4
        },
        before,
        after,
    );
}

/// Bytes that are written behind their length are read back: wherever a
/// length of `prefix` bytes and then `bytes` stand, `bytes` are found
/// there.
pub proof fn lemma_prefixed_is_read_back(
    bytes: Seq<u8>,
    prefix: nat,
    before: Seq<u8>,
    after: Seq<u8>,
)
    requires
        1 <= prefix <= 4,
        bytes.len() < pow256(prefix),
    ensures
        prefixed_at(
            before + le_bytes(bytes.len() as int, prefix) + bytes + after,
            before.len() as int,
            prefix as int,
        ) == Some((bytes, before.len() as int + prefix + bytes.len())),
{
    let s = before + le_bytes(bytes.len() as int, prefix) + bytes + after;
    let pos = before.len() as int;
    assert(s =~= before + le_bytes(bytes.len() as int, prefix) + (bytes + after));
    crate::bytes::lemma_le_bytes_read_back(bytes.len() as int, prefix, before, bytes + after);
    vstd::arithmetic::div_mod::lemma_small_mod(bytes.len(), pow256(prefix));
    assert(le_at(s, pos, prefix) == bytes.len());
    assert(s.subrange(pos + prefix, pos + prefix + bytes.len()) =~= bytes);
}

} // verus!
