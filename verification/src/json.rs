//! The binary JSON encoding, rendered as JSON text.

use vstd::prelude::*;
use crate::bytes::{le_at, lemma_le_at_bound, lemma_pow256_values, read_le, signed};
use crate::column::{
    read_signed, TYPE_DATE, TYPE_DATETIME, TYPE_NEWDECIMAL, TYPE_TIME, TYPE_TIMESTAMP,
};
use crate::decimal::{decimal_at, digits, read_decimal};
use crate::error::BinlogError;
use crate::temporal::{datetime_from_packed, datetime_of_packed};
use crate::text::{
    base64_from, clock_text, date_text, int_text, nat_text, push_base64, push_bytes, push_clock,
    push_date, push_int, push_nat, push_quoted, quoted,
};

verus! {

/// Type of an object with offsets of 2 bytes.
pub const JSON_SMALL_OBJECT: u8 = 0;

/// Type of an object with offsets of 4 bytes.
pub const JSON_LARGE_OBJECT: u8 = 1;

/// Type of an array with offsets of 2 bytes.
pub const JSON_SMALL_ARRAY: u8 = 2;

/// Type of an array with offsets of 4 bytes.
pub const JSON_LARGE_ARRAY: u8 = 3;

/// Type of `null`, `true` or `false`.
pub const JSON_LITERAL: u8 = 4;

/// Type of a signed integer of 2 bytes.
pub const JSON_INT16: u8 = 5;

/// Type of an unsigned integer of 2 bytes.
pub const JSON_UINT16: u8 = 6;

/// Type of a signed integer of 4 bytes.
pub const JSON_INT32: u8 = 7;

/// Type of an unsigned integer of 4 bytes.
pub const JSON_UINT32: u8 = 8;

/// Type of a signed integer of 8 bytes.
pub const JSON_INT64: u8 = 9;

/// Type of an unsigned integer of 8 bytes.
pub const JSON_UINT64: u8 = 10;

/// Type of a double-precision number.
pub const JSON_DOUBLE: u8 = 11;

/// Type of a string.
pub const JSON_STRING: u8 = 12;

/// Type of a value of another column type, kept as its bytes.
pub const JSON_OPAQUE: u8 = 15;

/// A double-precision number of a document. It is not written into the
/// text: `offset` is the place in the text where its digits belong, and
/// `bits` is its IEEE 754 bit pattern.
#[derive(Debug, Clone, Copy, PartialEq, Eq, Structural)]
pub struct JsonDouble {
    pub offset: usize,
    pub bits: u64,
}

/// The text of a JSON document.
#[derive(Debug, Clone, PartialEq, Eq)]
pub struct JsonText {
    /// The document as compact JSON text in UTF-8, with nothing in the
    /// place of each double-precision number.
    pub text: Vec<u8>,
    /// The double-precision numbers of the document, in the order of the
    /// text.
    pub doubles: Vec<JsonDouble>,
}

/// The mathematical value of a [`JsonText`].
pub struct JsonTextView {
    pub text: Seq<u8>,
    pub doubles: Seq<JsonDouble>,
}

impl View for JsonText {
    type V = JsonTextView;

    open spec fn view(&self) -> JsonTextView {
        JsonTextView { text: self.text@, doubles: self.doubles@ }
    }
}

/// `acc` with `t` appended to its text.
pub open spec fn with_text(acc: JsonTextView, t: Seq<u8>) -> JsonTextView {
    JsonTextView { text: acc.text + t, doubles: acc.doubles }
}

/// `acc` with a double-precision number at the end of its text.
pub open spec fn with_double(acc: JsonTextView, bits: u64) -> JsonTextView {
    JsonTextView {
        text: acc.text,
        doubles: acc.doubles.push(JsonDouble { offset: acc.text.len() as usize, bits }),
    }
}

/// The rest of a variable-length integer whose first `i` bytes at `pos`
/// gave `acc`: each byte holds 7 bits, lowest first, and its highest bit
/// says that another byte follows. `None` behind 5 bytes, or at `end`.
pub open spec fn varlen_from(
    s: Seq<u8>,
    pos: int,
    end: int,
    i: int,
    weight: int,
    acc: int,
) -> Option<
    (int, int),
>
    decreases 5 - i,
{
    if i < 0 || i >= 5 || pos + i >= end {
        None
    } else if s[pos + i] < 128 {
        Some((acc + s[pos + i] * weight, pos + i + 1))
    } else {
        varlen_from(s, pos, end, i + 1, weight * 128, acc + (s[pos + i] - 128) * weight)
    }
}

/// The variable-length integer at `pos`, and the position behind it.
pub open spec fn varlen_at(s: Seq<u8>, pos: int, end: int) -> Option<(int, int)> {
    varlen_from(s, pos, end, 0, 1, 0)
}

/// The text of an opaque value that holds a date or a date with a time:
/// 8 little-endian bytes whose lowest 24 bits are microseconds and whose
/// other bits are packed as in a `DATETIME` column. `None` for a negative
/// number.
pub open spec fn opaque_datetime(s: Seq<u8>, field: u8, start: int, end: int) -> Option<Seq<u8>> {
    if end - start != 8 || le_at(s, start, 8) >= 0x8000_0000_0000_0000 {
        None
    } else {
        let d = datetime_of_packed(
            le_at(s, start, 8) / 0x100_0000,
            le_at(s, start, 8) % 0x100_0000,
        );
        if field == TYPE_DATE {
            Some(seq![34u8] + date_text(d.year as nat, d.month as nat, d.day as nat) + seq![34u8])
        } else {
            Some(
                seq![34u8] + date_text(d.year as nat, d.month as nat, d.day as nat) + seq![32u8]
                    + clock_text(d.hour as nat, d.minute as nat, d.second as nat, d.micros as nat)
                    + seq![34u8],
            )
        }
    }
}

/// The text of an opaque value that holds a time: 8 little-endian bytes
/// of a signed number whose absolute value has microseconds in its lowest
/// 24 bits, then seconds (6 bits), minutes (6) and hours (10).
pub open spec fn opaque_time(s: Seq<u8>, start: int, end: int) -> Option<Seq<u8>> {
    if end - start != 8 {
        None
    } else {
        let raw = signed(le_at(s, start, 8), 8);
        let a = if raw < 0 {
            -raw
        } else {
            raw
        };
        let hms = a / 0x100_0000;
        Some(
            seq![34u8] + (if raw < 0 {
                seq![45u8]
            } else {
                Seq::empty()
            }) + clock_text(
                ((hms / 4096) % 1024) as nat,
                ((hms / 64) % 64) as nat,
                (hms % 64) as nat,
                (a % 0x100_0000) as nat,
            ) + seq![34u8],
        )
    }
}

/// The text of an opaque value that holds a fixed-point number: its
/// precision, its scale, and the packed number.
pub open spec fn opaque_decimal(s: Seq<u8>, start: int, end: int) -> Option<Seq<u8>> {
    if end - start < 2 {
        None
    } else {
        match decimal_at(s, start + 2, s[start] as int, s[start + 1] as int) {
            Some((text, next)) => if next == end {
                Some(text)
            } else {
                None
            },
            None => None,
        }
    }
}

/// The text of any other opaque value: the quoted string `base64:type`,
/// the number of the field type, a colon, and the bytes in base 64.
pub open spec fn opaque_other(s: Seq<u8>, field: u8, start: int, end: int) -> Seq<u8> {
    base64_from(
        s,
        start,
        end,
        seq![34u8, 98u8, 97u8, 115u8, 101u8, 54u8, 52u8, 58u8, 116u8, 121u8, 112u8, 101u8]
            + nat_text(field as nat) + seq![58u8],
    ) + seq![34u8]
}

/// The text of the opaque value of field type `field` whose bytes run from
/// `start` up to `end`.
pub open spec fn opaque_text(s: Seq<u8>, field: u8, start: int, end: int) -> Option<Seq<u8>> {
    if field == TYPE_NEWDECIMAL {
        opaque_decimal(s, start, end)
    } else if field == TYPE_DATE || field == TYPE_DATETIME || field == TYPE_TIMESTAMP {
        opaque_datetime(s, field, start, end)
    } else if field == TYPE_TIME {
        opaque_time(s, start, end)
    } else {
        Some(opaque_other(s, field, start, end))
    }
}

/// Whether a value of type `ty` stands in its entry rather than behind an
/// offset.
pub open spec fn json_inline(ty: u8, large: bool) -> bool {
    ty == JSON_LITERAL || ty == JSON_INT16 || ty == JSON_UINT16 || (large && (ty == JSON_INT32
        || ty == JSON_UINT32))
}

/// The text of a literal.
pub open spec fn literal_text(b: u8) -> Option<Seq<u8>> {
    if b == 0 {
        Some(seq![110u8, 117u8, 108u8, 108u8])
    } else if b == 1 {
        Some(seq![116u8, 114u8, 117u8, 101u8])
    } else if b == 2 {
        Some(seq![102u8, 97u8, 108u8, 115u8, 101u8])
    } else {
        None
    }
}

/// `acc` with the scalar of type `ty` whose bytes start at `pos` and end
/// at or before `end`. `None` when bytes are missing or `ty` is no scalar
/// type.
#[verifier::opaque]
pub open spec fn json_scalar(s: Seq<u8>, ty: u8, pos: int, end: int, acc: JsonTextView) -> Option<
    JsonTextView,
> {
    if pos < 0 || end > s.len() {
        None
    } else if ty == JSON_LITERAL {
        if pos + 1 > end {
            None
        } else {
            match literal_text(s[pos]) {
                Some(t) => Some(with_text(acc, t)),
                None => None,
            }
        }
    } else if ty == JSON_INT16 {
        if pos + 2 > end {
            None
        } else {
            Some(with_text(acc, int_text(signed(le_at(s, pos, 2), 2))))
        }
    } else if ty == JSON_UINT16 {
        if pos + 2 > end {
            None
        } else {
            Some(with_text(acc, nat_text(le_at(s, pos, 2))))
        }
    } else if ty == JSON_INT32 {
        if pos + 4 > end {
            None
        } else {
            Some(with_text(acc, int_text(signed(le_at(s, pos, 4), 4))))
        }
    } else if ty == JSON_UINT32 {
        if pos + 4 > end {
            None
        } else {
            Some(with_text(acc, nat_text(le_at(s, pos, 4))))
        }
    } else if ty == JSON_INT64 {
        if pos + 8 > end {
            None
        } else {
            Some(with_text(acc, int_text(signed(le_at(s, pos, 8), 8))))
        }
    } else if ty == JSON_UINT64 {
        if pos + 8 > end {
            None
        } else {
            Some(with_text(acc, nat_text(le_at(s, pos, 8))))
        }
    } else if ty == JSON_DOUBLE {
        if pos + 8 > end {
            None
        } else {
            Some(with_double(acc, le_at(s, pos, 8) as u64))
        }
    } else if ty == JSON_STRING {
        match varlen_at(s, pos, end) {
            None => None,
            Some((len, at)) => if at + len > end {
                None
            } else {
                Some(with_text(acc, quoted(s.subrange(at, at + len))))
            },
        }
    } else if ty == JSON_OPAQUE {
        if pos + 1 > end {
            None
        } else {
            match varlen_at(s, pos + 1, end) {
                None => None,
                Some((len, at)) => if at + len > end {
                    None
                } else {
                    match opaque_text(s, s[pos], at, at + len) {
                        Some(t) => Some(with_text(acc, t)),
                        None => None,
                    }
                },
            }
        }
    } else {
        None
    }
}

/// Position of the entry of key `i` of an object that starts at `start`:
/// behind the number of members and the size, an offset and a length of 2
/// bytes for each key.
pub open spec fn key_entry_at(large: bool, start: int, i: int) -> int {
    if large {
        start + 8 + 6 * i
    } else {
        start + 4 + 4 * i
    }
}

/// Position of the entry of value `i` of an object or array of `count`
/// members that starts at `start`: behind the key entries, where there are
/// any, a type and an offset for each value.
pub open spec fn value_entry_at(large: bool, object: bool, start: int, count: int, i: int) -> int {
    if large {
        start + 8 + (if object {
            6 * count
        } else {
            0
        }) + 5 * i
    } else {
        start + 4 + (if object {
            4 * count
        } else {
            0
        }) + 3 * i
    }
}

/// Number of bytes of an offset, a count or a size.
pub open spec fn offset_width(large: bool) -> nat {
    if large {
        4
    } else {
        2
    }
}

/// `acc` with member `i` of the object or array that starts at `start` and
/// ends at `limit`: a comma behind an earlier member, for a member of an
/// object its quoted key and a colon, and the value. A value that does not
/// stand in its entry must start behind the entries and before `limit`.
pub open spec fn json_member(
    s: Seq<u8>,
    large: bool,
    object: bool,
    start: int,
    limit: int,
    count: int,
    i: int,
    depth: nat,
    acc: JsonTextView,
) -> Option<JsonTextView>
    decreases limit - start, 0int, 0int,
{
    let w = offset_width(large);
    let comma = if i > 0 {
        seq![44u8]
    } else {
        Seq::<u8>::empty()
    };
    let ke = key_entry_at(large, start, i);
    let ve = value_entry_at(large, object, start, count, i);
    let tables = value_entry_at(large, object, start, count, count);
    if i < 0 || i >= count || tables > limit {
        None
    } else if object && start + le_at(s, ke, w) + le_at(s, ke + w, 2) > limit {
        None
    } else {
        let keyed = with_text(
            acc,
            if object {
                comma + quoted(
                    s.subrange(
                        start + le_at(s, ke, w),
                        start + le_at(s, ke, w) + le_at(s, ke + w, 2),
                    ),
                ) + seq![58u8]
            } else {
                comma
            },
        );
        if json_inline(s[ve], large) {
            json_scalar(s, s[ve], ve + 1, ve + 1 + w, keyed)
        } else if start + le_at(s, ve + 1, w) < tables || start + le_at(s, ve + 1, w) >= limit {
            None
        } else {
            json_value(s, s[ve], start + le_at(s, ve + 1, w), limit, depth, keyed)
        }
    }
}

/// `acc` with the members from `i` on of the object or array that starts at
/// `start` and ends at `limit`, and with the closing bracket.
pub open spec fn json_members(
    s: Seq<u8>,
    large: bool,
    object: bool,
    start: int,
    limit: int,
    count: int,
    i: int,
    depth: nat,
    acc: JsonTextView,
) -> Option<JsonTextView>
    decreases limit - start, 1int, count - i,
{
    if i < 0 || i >= count {
        Some(
            with_text(
                acc,
                if object {
                    seq![125u8]
                } else {
                    seq![93u8]
                },
            ),
        )
    } else {
        match json_member(s, large, object, start, limit, count, i, depth, acc) {
            None => None,
            Some(next) => json_members(s, large, object, start, limit, count, i + 1, depth, next),
        }
    }
}

/// The greatest number of objects and arrays that may stand one inside
/// the other. The server stores no document that is nested deeper.
pub const JSON_MAX_DEPTH: usize = 100;

/// `acc` with the value of type `ty` whose bytes start at `start` and end
/// at or before `end`, inside `depth` objects and arrays. An object or an
/// array holds the number of its members and its size in bytes, then the
/// entries of its keys and values; all offsets count from `start`. `None`
/// for an object or array inside `JSON_MAX_DEPTH` others.
pub open spec fn json_value(
    s: Seq<u8>,
    ty: u8,
    start: int,
    end: int,
    depth: nat,
    acc: JsonTextView,
) -> Option<JsonTextView>
    decreases end - start, 2int, 0int,
{
    if ty <= JSON_LARGE_ARRAY && depth >= JSON_MAX_DEPTH {
        None
    } else if ty <= JSON_LARGE_ARRAY {
        let large = ty == JSON_LARGE_OBJECT || ty == JSON_LARGE_ARRAY;
        let object = ty <= JSON_LARGE_OBJECT;
        let w = offset_width(large);
        if start < 0 || start + 2 * w > end || end > s.len() {
            None
        } else if le_at(s, start + w, w) > end - start || value_entry_at(
            large,
            object,
            start,
            le_at(s, start, w) as int,
            le_at(s, start, w) as int,
        ) > start + le_at(s, start + w, w) {
            None
        } else {
            json_members(
                s,
                large,
                object,
                start,
                start + le_at(s, start + w, w),
                le_at(s, start, w) as int,
                0,
                depth + 1,
                with_text(
                    acc,
                    if object {
                        seq![123u8]
                    } else {
                        seq![91u8]
                    },
                ),
            )
        }
    } else {
        json_scalar(s, ty, start, end, acc)
    }
}

/// The text of the binary JSON document `s`: a type, then the value of
/// that type. A document without any byte is `null`. `None` when the
/// document is malformed or nested too deep.
pub open spec fn json_of(s: Seq<u8>) -> Option<JsonTextView> {
    let empty = JsonTextView { text: Seq::empty(), doubles: Seq::empty() };
    if s.len() == 0 {
        Some(with_text(empty, seq![110u8, 117u8, 108u8, 108u8]))
    } else {
        json_value(s, s[0], 1, s.len() as int, 0, empty)
    }
}

impl JsonTextView {
    /// Whether every number has a place in the text, and the numbers
    /// stand in the order of their places.
    pub open spec fn wf(self) -> bool {
        forall|i: int, j: int|
            0 <= i <= j < self.doubles.len() ==> (#[trigger] self.doubles[i]).offset <= (
            #[trigger] self.doubles[j]).offset <= self.text.len()
    }
}

/// Whether `out` is `acc` with more text and more numbers behind it: the
/// text and the numbers of `acc` stay, and, as long as the text is no
/// longer than a `usize` counts, the new numbers have their places in the
/// new text, in their order.
pub open spec fn grows(acc: JsonTextView, out: JsonTextView) -> bool {
    &&& acc.text.len() <= out.text.len()
    &&& acc.doubles.len() <= out.doubles.len()
    &&& forall|i: int| 0 <= i < acc.doubles.len() ==> #[trigger] out.doubles[i] == acc.doubles[i]
    &&& out.text.len() <= usize::MAX ==> forall|i: int, j: int|
        acc.doubles.len() <= i <= j < out.doubles.len() ==> acc.text.len() <= (
        #[trigger] out.doubles[i]).offset <= (#[trigger] out.doubles[j]).offset <= out.text.len()
}

/// What grows twice has grown.
#[verifier::rlimit(40)]
pub proof fn lemma_grows_twice(a: JsonTextView, b: JsonTextView, c: JsonTextView)
    requires
        grows(a, b),
        grows(b, c),
    ensures
        grows(a, c),
{
    assert forall|i: int| 0 <= i < a.doubles.len() implies #[trigger] c.doubles[i]
        == a.doubles[i] by {
        assert(b.doubles[i] == a.doubles[i]);
    }
    if c.text.len() <= usize::MAX {
        assert forall|i: int, j: int|
            a.doubles.len() <= i <= j < c.doubles.len() implies a.text.len()
            <= (#[trigger] c.doubles[i]).offset <= (#[trigger] c.doubles[j]).offset
            <= c.text.len() by {
            if j < b.doubles.len() {
                assert(c.doubles[i] == b.doubles[i]);
                assert(c.doubles[j] == b.doubles[j]);
                assert(b.doubles[i].offset <= b.doubles[j].offset);
            } else if i < b.doubles.len() {
                assert(c.doubles[i] == b.doubles[i]);
                assert(b.doubles[i].offset <= b.doubles[i].offset);
                assert(c.doubles[j].offset <= c.doubles[j].offset);
            } else {
                assert(c.doubles[i].offset <= c.doubles[j].offset);
            }
        }
    }
}

/// A scalar adds text or a number behind what stands already.
#[verifier::rlimit(40)]
pub proof fn lemma_scalar_grows(s: Seq<u8>, ty: u8, pos: int, end: int, acc: JsonTextView)
    ensures
        json_scalar(s, ty, pos, end, acc) matches Some(out) ==> grows(acc, out),
{
    reveal(json_scalar);
    if let Some(out) = json_scalar(s, ty, pos, end, acc) {
        if ty == JSON_DOUBLE {
            assert(out == with_double(acc, le_at(s, pos, 8) as u64));
            if out.text.len() <= usize::MAX {
                assert forall|i: int, j: int|
                    acc.doubles.len() <= i <= j < out.doubles.len() implies acc.text.len() <= (
                #[trigger] out.doubles[i]).offset <= (#[trigger] out.doubles[j]).offset
                    <= out.text.len() by {
                    assert(i == acc.doubles.len() && j == i);
                }
            }
        }
    }
}

/// A member adds text and numbers behind what stands already.
#[verifier::rlimit(40)]
pub proof fn lemma_member_grows(
    s: Seq<u8>,
    large: bool,
    object: bool,
    start: int,
    limit: int,
    count: int,
    i: int,
    depth: nat,
    acc: JsonTextView,
)
    ensures
        json_member(s, large, object, start, limit, count, i, depth, acc) matches Some(out)
            ==> grows(acc, out),
    decreases limit - start, 0int, 0int,
{
    if let Some(out) = json_member(s, large, object, start, limit, count, i, depth, acc) {
        let w = offset_width(large);
        let comma = if i > 0 {
            seq![44u8]
        } else {
            Seq::<u8>::empty()
        };
        let ke = key_entry_at(large, start, i);
        let ve = value_entry_at(large, object, start, count, i);
        let keyed = with_text(
            acc,
            if object {
                comma + quoted(
                    s.subrange(
                        start + le_at(s, ke, w),
                        start + le_at(s, ke, w) + le_at(s, ke + w, 2),
                    ),
                ) + seq![58u8]
            } else {
                comma
            },
        );
        assert(grows(acc, keyed));
        if json_inline(s[ve], large) {
            lemma_scalar_grows(s, s[ve], ve + 1, ve + 1 + w, keyed);
        } else {
            lemma_value_grows(s, s[ve], start + le_at(s, ve + 1, w), limit, depth, keyed);
        }
        lemma_grows_twice(acc, keyed, out);
    }
}

/// The members of an object or array add text and numbers behind what
/// stands already.
pub proof fn lemma_members_grow(
    s: Seq<u8>,
    large: bool,
    object: bool,
    start: int,
    limit: int,
    count: int,
    i: int,
    depth: nat,
    acc: JsonTextView,
)
    ensures
        json_members(s, large, object, start, limit, count, i, depth, acc) matches Some(out)
            ==> grows(acc, out),
    decreases limit - start, 1int, count - i,
{
    if let Some(out) = json_members(s, large, object, start, limit, count, i, depth, acc) {
        if 0 <= i < count {
            lemma_member_grows(s, large, object, start, limit, count, i, depth, acc);
            let next = json_member(s, large, object, start, limit, count, i, depth, acc).unwrap();
            lemma_members_grow(s, large, object, start, limit, count, i + 1, depth, next);
            lemma_grows_twice(acc, next, out);
        }
    }
}

/// A value adds text and numbers behind what stands already.
#[verifier::rlimit(40)]
pub proof fn lemma_value_grows(
    s: Seq<u8>,
    ty: u8,
    start: int,
    end: int,
    depth: nat,
    acc: JsonTextView,
)
    ensures
        json_value(s, ty, start, end, depth, acc) matches Some(out) ==> grows(acc, out),
    decreases end - start, 2int, 0int,
{
    if let Some(out) = json_value(s, ty, start, end, depth, acc) {
        if ty <= JSON_LARGE_ARRAY {
            let large = ty == JSON_LARGE_OBJECT || ty == JSON_LARGE_ARRAY;
            let object = ty <= JSON_LARGE_OBJECT;
            let w = offset_width(large);
            let opened = with_text(
                acc,
                if object {
                    seq![123u8]
                } else {
                    seq![91u8]
                },
            );
            assert(grows(acc, opened));
            lemma_members_grow(
                s,
                large,
                object,
                start,
                start + le_at(s, start + w, w),
                le_at(s, start, w) as int,
                0,
                depth + 1,
                opened,
            );
            lemma_grows_twice(acc, opened, out);
        } else {
            lemma_scalar_grows(s, ty, start, end, acc);
        }
    }
}

/// In the text of a document that is no longer than a `usize` counts,
/// every double-precision number has its place inside the text, and the
/// numbers are listed in the order of their places.
pub proof fn lemma_json_text_is_well_formed(s: Seq<u8>)
    ensures
        json_of(s) matches Some(t) ==> (t.text.len() <= usize::MAX ==> t.wf()),
{
    let empty = JsonTextView { text: Seq::empty(), doubles: Seq::empty() };
    if s.len() > 0 {
        lemma_value_grows(s, s[0], 1, s.len() as int, 0, empty);
    }
}

/// The text `text` with the numbers `doubles`.
pub open spec fn json_state(text: Seq<u8>, doubles: Seq<JsonDouble>) -> JsonTextView {
    JsonTextView { text, doubles }
}

/// Reads a variable-length integer that ends before `end`.
fn read_varlen(buf: &[u8], pos: usize, end: usize) -> (r: Option<(u64, usize)>)
    requires
        end <= buf@.len(),
    ensures
        match varlen_at(buf@, pos as int, end as int) {
            Some((len, at)) => r == Some((len as u64, at as usize)) && 0 <= len <= u64::MAX && pos
                < at <= end,
            None => r is None,
        },
{
    let mut i: usize = 0;
    let mut weight: u64 = 1;
    let mut acc: u64 = 0;
    while i < 5
        invariant
            i <= 5,
            end <= buf@.len(),
            weight == (if i == 0 {
                1int
            } else if i == 1 {
                128int
            } else if i == 2 {
                16384int
            } else if i == 3 {
                2097152int
            } else if i == 4 {
                268435456int
            } else {
                34359738368int
            }),
            acc < weight,
            varlen_at(buf@, pos as int, end as int) == varlen_from(
                buf@,
                pos as int,
                end as int,
                i as int,
                weight as int,
                acc as int,
            ),
        decreases 5 - i,
    {
        if pos >= end || i >= end - pos {
            return None;
        }
        let b: u8 = buf[pos + i];
        if b < 128 {
            return Some((acc + b as u64 * weight, pos + i + 1));
        }
        acc = acc + (b - 128) as u64 * weight;
        weight = weight * 128;
        i = i + 1;
    }
    None
}

/// Renders an opaque value that holds a fixed-point number.
fn read_opaque_decimal(buf: &[u8], start: usize, end: usize) -> (r: Option<Vec<u8>>)
    requires
        start <= end <= buf@.len(),
    ensures
        match opaque_decimal(buf@, start as int, end as int) {
            Some(t) => r matches Some(v) && v@ == t,
            None => r is None,
        },
{
    if end - start < 2 {
        return None;
    }
    match read_decimal(buf, start + 2, buf[start], buf[start + 1]) {
        None => None,
        Some((digits, next)) => {
            if next != end {
                None
            } else {
                Some(digits)
            }
        },
    }
}

/// Renders an opaque value that holds a date or a date with a time.
fn read_opaque_datetime(buf: &[u8], field: u8, start: usize, end: usize) -> (r: Option<Vec<u8>>)
    requires
        start <= end <= buf@.len(),
    ensures
        match opaque_datetime(buf@, field, start as int, end as int) {
            Some(t) => r matches Some(v) && v@ == t,
            None => r is None,
        },
{
    if end - start != 8 {
        return None;
    }
    let raw: u64 = read_le(buf, start, 8);
    if raw >= 0x8000_0000_0000_0000 {
        return None;
    }
    let d = datetime_from_packed(raw / 0x100_0000, (raw % 0x100_0000) as u32);
    let mut out: Vec<u8> = Vec::new();
    out.push(34);
    push_date(&mut out, d.year, d.month, d.day);
    if field != TYPE_DATE {
        out.push(32);
        push_clock(&mut out, d.hour as u64, d.minute as u64, d.second as u64, d.micros as u64);
    }
    out.push(34);
    assert(out@ =~= opaque_datetime(buf@, field, start as int, end as int).unwrap());
    Some(out)
}

/// Renders an opaque value that holds a time.
fn read_opaque_time(buf: &[u8], start: usize, end: usize) -> (r: Option<Vec<u8>>)
    requires
        start <= end <= buf@.len(),
    ensures
        match opaque_time(buf@, start as int, end as int) {
            Some(t) => r matches Some(v) && v@ == t,
            None => r is None,
        },
{
    if end - start != 8 {
        return None;
    }
    proof {
        lemma_pow256_values();
    }
    let raw: i64 = read_signed(buf, start, 8);
    let a: u64 = if raw < 0 {
        (-(raw + 1)) as u64 + 1
    } else {
        raw as u64
    };
    let hms: u64 = a / 0x100_0000;
    let mut out: Vec<u8> = Vec::new();
    out.push(34);
    if raw < 0 {
        out.push(45);
    }
    push_clock(&mut out, (hms / 4096) % 1024, (hms / 64) % 64, hms % 64, a % 0x100_0000);
    out.push(34);
    assert(out@ =~= opaque_time(buf@, start as int, end as int).unwrap());
    Some(out)
}

/// Renders an opaque value of any other type in base 64.
fn read_opaque_other(buf: &[u8], field: u8, start: usize, end: usize) -> (out: Vec<u8>)
    requires
        start <= end <= buf@.len(),
    ensures
        out@ == opaque_other(buf@, field, start as int, end as int),
{
    let mut out: Vec<u8> = Vec::new();
    out.push(34);
    out.push(98);
    out.push(97);
    out.push(115);
    out.push(101);
    out.push(54);
    out.push(52);
    out.push(58);
    out.push(116);
    out.push(121);
    out.push(112);
    out.push(101);
    push_nat(&mut out, field as u64);
    out.push(58);
    assert(out@ =~= seq![
        34u8,
        98u8,
        97u8,
        115u8,
        101u8,
        54u8,
        52u8,
        58u8,
        116u8,
        121u8,
        112u8,
        101u8,
    ] + nat_text(field as nat) + seq![58u8]);
    push_base64(&mut out, buf, start, end);
    out.push(34);
    out
}

/// Renders an opaque value by its field type.
fn read_opaque(buf: &[u8], field: u8, start: usize, end: usize) -> (r: Option<Vec<u8>>)
    requires
        start <= end <= buf@.len(),
    ensures
        match opaque_text(buf@, field, start as int, end as int) {
            Some(t) => r matches Some(v) && v@ == t,
            None => r is None,
        },
{
    if field == TYPE_NEWDECIMAL {
        read_opaque_decimal(buf, start, end)
    } else if field == TYPE_DATE || field == TYPE_DATETIME || field == TYPE_TIMESTAMP {
        read_opaque_datetime(buf, field, start, end)
    } else if field == TYPE_TIME {
        read_opaque_time(buf, start, end)
    } else {
        Some(read_opaque_other(buf, field, start, end))
    }
}

/// Appends a scalar; `false` where the model has none.
#[verifier::rlimit(40)]
fn render_scalar(
    buf: &[u8],
    ty: u8,
    pos: usize,
    end: usize,
    text: &mut Vec<u8>,
    doubles: &mut Vec<JsonDouble>,
) -> (ok: bool)
    requires
        end <= buf@.len(),
    ensures
        json_scalar(buf@, ty, pos as int, end as int, json_state(old(text)@, old(doubles)@))
            == if ok {
            Some(json_state(final(text)@, final(doubles)@))
        } else {
            None
        },
{
    let ghost before = json_state(text@, doubles@);
    proof {
        reveal(json_scalar);
        lemma_pow256_values();
    }
    let room: usize = if pos <= end {
        end - pos
    } else {
        0
    };
    if ty == JSON_LITERAL {
        if room < 1 {
            return false;
        }
        let b: u8 = buf[pos];
        if b == 0 {
            text.push(110);
            text.push(117);
            text.push(108);
            text.push(108);
        } else if b == 1 {
            text.push(116);
            text.push(114);
            text.push(117);
            text.push(101);
        } else if b == 2 {
            text.push(102);
            text.push(97);
            text.push(108);
            text.push(115);
            text.push(101);
        } else {
            return false;
        }
        assert(text@ =~= before.text + literal_text(b).unwrap());
        true
    } else if ty == JSON_INT16 || ty == JSON_INT32 || ty == JSON_INT64 {
        let n: usize = if ty == JSON_INT16 {
            2
        } else if ty == JSON_INT32 {
            4
        } else {
            8
        };
        if room < n {
            return false;
        }
        push_int(text, read_signed(buf, pos, n));
        true
    } else if ty == JSON_UINT16 || ty == JSON_UINT32 || ty == JSON_UINT64 {
        let n: usize = if ty == JSON_UINT16 {
            2
        } else if ty == JSON_UINT32 {
            4
        } else {
            8
        };
        if room < n {
            return false;
        }
        push_nat(text, read_le(buf, pos, n));
        true
    } else if ty == JSON_DOUBLE {
        if room < 8 {
            return false;
        }
        doubles.push(JsonDouble { offset: text.len(), bits: read_le(buf, pos, 8) });
        true
    } else if ty == JSON_STRING {
        match read_varlen(buf, pos, end) {
            None => false,
            Some((len, at)) => {
                if len > (end - at) as u64 {
                    return false;
                }
                push_quoted(text, buf, at, at + len as usize);
                true
            },
        }
    } else if ty == JSON_OPAQUE {
        if room < 1 {
            return false;
        }
        match read_varlen(buf, pos + 1, end) {
            None => false,
            Some((len, at)) => {
                if len > (end - at) as u64 {
                    return false;
                }
                match read_opaque(buf, buf[pos], at, at + len as usize) {
                    None => false,
                    Some(rendered) => {
                        push_bytes(text, rendered.as_slice());
                        true
                    },
                }
            },
        }
    } else {
        false
    }
}

/// Appends one member of an object or array; `false` where the model has
/// none.
#[verifier::rlimit(40)]
fn render_member(
    buf: &[u8],
    large: bool,
    object: bool,
    start: usize,
    limit: usize,
    count: usize,
    i: usize,
    depth: usize,
    text: &mut Vec<u8>,
    doubles: &mut Vec<JsonDouble>,
) -> (ok: bool)
    requires
        i < count,
        start <= limit <= buf@.len(),
        value_entry_at(large, object, start as int, count as int, count as int) <= limit,
    ensures
        json_member(
            buf@,
            large,
            object,
            start as int,
            limit as int,
            count as int,
            i as int,
            depth as nat,
            json_state(old(text)@, old(doubles)@),
        ) == if ok {
            Some(json_state(final(text)@, final(doubles)@))
        } else {
            None
        },
    decreases limit - start, 0int,
{
    let ghost head = json_state(text@, doubles@);
    let ghost comma = if i > 0 {
        seq![44u8]
    } else {
        Seq::<u8>::empty()
    };
    let w: usize = if large {
        4
    } else {
        2
    };
    proof {
        lemma_pow256_values();
    }
    if i > 0 {
        text.push(44);
    }
    if object {
        let ke: usize = if large {
            start + 8 + 6 * i
        } else {
            start + 4 + 4 * i
        };
        proof {
            lemma_le_at_bound(buf@, ke as int, w as nat);
            lemma_le_at_bound(buf@, ke + w, 2);
        }
        let key_offset: u64 = read_le(buf, ke, w);
        let key_length: u64 = read_le(buf, ke + w, 2);
        if key_offset + key_length > (limit - start) as u64 {
            return false;
        }
        let key_start: usize = start + key_offset as usize;
        push_quoted(text, buf, key_start, key_start + key_length as usize);
        text.push(58);
        assert(text@ =~= head.text + (comma + quoted(
            buf@.subrange(key_start as int, key_start + key_length),
        ) + seq![58u8]));
    } else {
        assert(text@ =~= head.text + comma);
    }
    let tables: usize = if large {
        8 + (if object {
            6 * count
        } else {
            0
        }) + 5 * count
    } else {
        4 + (if object {
            4 * count
        } else {
            0
        }) + 3 * count
    };
    let ve: usize = if large {
        start + 8 + (if object {
            6 * count
        } else {
            0
        }) + 5 * i
    } else {
        start + 4 + (if object {
            4 * count
        } else {
            0
        }) + 3 * i
    };
    let member: u8 = buf[ve];
    let inline: bool = member == JSON_LITERAL || member == JSON_INT16 || member == JSON_UINT16 || (
    large && (member == JSON_INT32 || member == JSON_UINT32));
    if inline {
        render_scalar(buf, member, ve + 1, ve + 1 + w, text, doubles)
    } else {
        proof {
            lemma_le_at_bound(buf@, ve + 1, w as nat);
        }
        let offset: u64 = read_le(buf, ve + 1, w);
        if offset < tables as u64 || offset >= (limit - start) as u64 {
            return false;
        }
        render_value(buf, member, start + offset as usize, limit, depth, text, doubles)
    }
}

/// Appends a value; `false` where the model has none.
#[verifier::rlimit(40)]
fn render_value(
    buf: &[u8],
    ty: u8,
    start: usize,
    end: usize,
    depth: usize,
    text: &mut Vec<u8>,
    doubles: &mut Vec<JsonDouble>,
) -> (ok: bool)
    requires
        end <= buf@.len(),
    ensures
        json_value(
            buf@,
            ty,
            start as int,
            end as int,
            depth as nat,
            json_state(old(text)@, old(doubles)@),
        ) == if ok {
            Some(json_state(final(text)@, final(doubles)@))
        } else {
            None
        },
    decreases end - start, 1int,
{
    if ty > JSON_LARGE_ARRAY {
        return render_scalar(buf, ty, start, end, text, doubles);
    }
    if depth >= JSON_MAX_DEPTH {
        return false;
    }
    let ghost init = json_state(text@, doubles@);
    let large: bool = ty == JSON_LARGE_OBJECT || ty == JSON_LARGE_ARRAY;
    let object: bool = ty <= JSON_LARGE_OBJECT;
    let w: usize = if large {
        4
    } else {
        2
    };
    if start > end || end - start < 2 * w {
        return false;
    }
    proof {
        lemma_pow256_values();
        lemma_le_at_bound(buf@, start as int, w as nat);
        lemma_le_at_bound(buf@, start + w, w as nat);
    }
    let members: u64 = read_le(buf, start, w);
    let size: u64 = read_le(buf, start + w, w);
    let tables: u64 = if large {
        8 + (if object {
            6 * members
        } else {
            0
        }) + 5 * members
    } else {
        4 + (if object {
            4 * members
        } else {
            0
        }) + 3 * members
    };
    if size > (end - start) as u64 || tables > size {
        return false;
    }
    let limit: usize = start + size as usize;
    let count: usize = members as usize;
    text.push(
        if object {
            123
        } else {
            91
        },
    );
    assert(text@ =~= init.text + (if object {
        seq![123u8]
    } else {
        seq![91u8]
    }));
    let mut i: usize = 0;
    while i < count
        invariant
            i <= count,
            start <= limit <= end <= buf@.len(),
            value_entry_at(large, object, start as int, count as int, count as int) <= limit,
            init == json_state(old(text)@, old(doubles)@),
            depth < JSON_MAX_DEPTH,
            json_value(buf@, ty, start as int, end as int, depth as nat, init) == json_members(
                buf@,
                large,
                object,
                start as int,
                limit as int,
                count as int,
                i as int,
                (depth + 1) as nat,
                json_state(text@, doubles@),
            ),
        decreases count - i,
    {
        if !render_member(buf, large, object, start, limit, count, i, depth + 1, text, doubles) {
            return false;
        }
        i = i + 1;
    }
    let ghost last = json_state(text@, doubles@);
    text.push(
        if object {
            125
        } else {
            93
        },
    );
    assert(text@ =~= last.text + (if object {
        seq![125u8]
    } else {
        seq![93u8]
    }));
    true
}

/// The text from `pos` on with the digits of the numbers from `i` on
/// written at their places, appended to `acc`. `None` where a number has
/// its place before `pos` or outside the text.
pub open spec fn filled_from(
    t: JsonTextView,
    digits: Seq<Seq<u8>>,
    i: int,
    pos: int,
    acc: Seq<u8>,
) -> Option<Seq<u8>>
    decreases t.doubles.len() - i,
{
    if i < 0 || i >= t.doubles.len() {
        Some(acc + t.text.subrange(pos, t.text.len() as int))
    } else if t.doubles[i].offset < pos || t.doubles[i].offset > t.text.len() {
        None
    } else {
        filled_from(
            t,
            digits,
            i + 1,
            t.doubles[i].offset as int,
            acc + t.text.subrange(pos, t.doubles[i].offset as int) + digits[i],
        )
    }
}

/// The whole text of a document, given the digits of each of its
/// double-precision numbers: the text with the digits of every number
/// written at the number's place. `None` where the digits are not as many
/// as the numbers, or the numbers are not in the order of their places
/// inside the text.
pub open spec fn filled(t: JsonTextView, digits: Seq<Seq<u8>>) -> Option<Seq<u8>> {
    if digits.len() != t.doubles.len() {
        None
    } else {
        filled_from(t, digits, 0, 0, Seq::empty())
    }
}

/// The digits of `v` as mathematical values.
pub open spec fn digits_view(v: Seq<Vec<u8>>) -> Seq<Seq<u8>> {
    v.map_values(|d: Vec<u8>| d@)
}

/// A text whose numbers are in order has its whole text, whatever the
/// digits.
pub proof fn lemma_well_formed_text_is_filled(
    t: JsonTextView,
    digits: Seq<Seq<u8>>,
    i: int,
    pos: int,
    acc: Seq<u8>,
)
    requires
        t.wf(),
        0 <= i <= t.doubles.len(),
        0 <= pos <= t.text.len(),
        i < t.doubles.len() ==> pos <= t.doubles[i].offset,
    ensures
        filled_from(t, digits, i, pos, acc) is Some,
    decreases t.doubles.len() - i,
{
    if i < t.doubles.len() {
        assert(t.doubles[i].offset <= t.doubles[i].offset <= t.text.len());
        if i + 1 < t.doubles.len() {
            assert(t.doubles[i].offset <= t.doubles[i + 1].offset <= t.text.len());
        }
        lemma_well_formed_text_is_filled(
            t,
            digits,
            i + 1,
            t.doubles[i].offset as int,
            acc + t.text.subrange(pos, t.doubles[i].offset as int) + digits[i],
        );
    }
}

impl JsonText {
    /// Writes the digits of every double-precision number at the number's
    /// place in the text. `digits` holds the digits of each number, in the
    /// order of `doubles`. Returns `None` exactly when the digits are not
    /// as many as the numbers, or the numbers are not in the order of their
    /// places; a text that `parse_as_string` gave always has them so.
    pub fn complete(&self, digits: &Vec<Vec<u8>>) -> (r: Option<Vec<u8>>)
        ensures
            match filled(self@, digits_view(digits@)) {
                Some(t) => r matches Some(v) && v@ == t,
                None => r is None,
            },
            self@.wf() && digits@.len() == self.doubles@.len() ==> r is Some,
    {
        proof {
            if self@.wf() && digits@.len() == self.doubles@.len() {
                if self.doubles@.len() > 0 {
                    assert(self@.doubles[0].offset <= self@.doubles[0].offset
                        <= self@.text.len());
                }
                lemma_well_formed_text_is_filled(
                    self@,
                    digits_view(digits@),
                    0,
                    0,
                    Seq::empty(),
                );
            }
        }
        if digits.len() != self.doubles.len() {
            return None;
        }
        let total: usize = self.text.len();
        let mut out: Vec<u8> = Vec::new();
        let mut pos: usize = 0;
        let mut i: usize = 0;
        while i < self.doubles.len()
            invariant
                i <= self.doubles@.len(),
                digits@.len() == self.doubles@.len(),
                pos <= total == self.text@.len(),
                self@.wf() ==> filled(self@, digits_view(digits@)) is Some,
                filled(self@, digits_view(digits@)) == filled_from(
                    self@,
                    digits_view(digits@),
                    i as int,
                    pos as int,
                    out@,
                ),
            decreases self.doubles@.len() - i,
        {
            let place: usize = self.doubles[i].offset;
            if place < pos || place > total {
                return None;
            }
            push_bytes(&mut out, vstd::slice::slice_subrange(self.text.as_slice(), pos, place));
            push_bytes(&mut out, digits[i].as_slice());
            assert(digits_view(digits@)[i as int] == digits@[i as int]@);
            pos = place;
            i = i + 1;
        }
        push_bytes(&mut out, vstd::slice::slice_subrange(self.text.as_slice(), pos, total));
        Some(out)
    }
}

/// Decoding of MySQL's binary JSON encoding.
pub struct JsonBinary;

impl JsonBinary {
    /// Renders the binary JSON document `bytes` as compact JSON text:
    /// members and elements in their stored order, integers in decimal,
    /// strings quoted and escaped. Fails with `Format` exactly when the
    /// document is malformed or nested deeper than `JSON_MAX_DEPTH`.
    pub fn parse_as_string(bytes: &[u8]) -> (r: Result<JsonText, BinlogError>)
        ensures
            match json_of(bytes@) {
                Some(t) => r matches Ok(v) && v@ == t && t.wf(),
                None => r matches Err(e) && e == BinlogError::Format,
            },
    {
        proof {
            lemma_json_text_is_well_formed(bytes@);
        }
        let mut text: Vec<u8> = Vec::new();
        let mut doubles: Vec<JsonDouble> = Vec::new();
        if bytes.len() == 0 {
            text.push(110);
            text.push(117);
            text.push(108);
            text.push(108);
            assert(text@ =~= Seq::<u8>::empty() + seq![110u8, 117u8, 108u8, 108u8]);
            return Ok(JsonText { text, doubles });
        }
        if render_value(bytes, bytes[0], 1, bytes.len(), 0, &mut text, &mut doubles) {
            assert(text@.len() <= usize::MAX) by {
                vstd::std_specs::vec::axiom_spec_len(&text);
            }
            Ok(JsonText { text, doubles })
        } else {
            Err(BinlogError::Format)
        }
    }
}

} // verus!
