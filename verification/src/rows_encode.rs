//! How the server writes row images, and the proof that an image that is
//! written is decoded to its values.

use vstd::prelude::*;
use crate::bytes::{
    bit_at, bits_at, in_bounds, le_at, le_bytes, lemma_le_bytes_read_back, lemma_pow256_values,
    packed_at, pow256,
};
use crate::column::ColumnValueView;
use crate::encode::{encoded_column, lemma_column_round_trip};
use crate::rows::{
    included_upto, lemma_included_upto, pairs_from, row_at, row_from, rows_count_at, rows_from,
    rows_of, update_rows_of, RowsView, UpdateRowsView,
};
use crate::table_map::TableMapView;

verus! {

/// `1` for a bit that is set, `0` for one that is not or does not exist.
pub open spec fn bit_value(bits: Seq<bool>, i: int) -> int {
    if 0 <= i < bits.len() && bits[i] {
        1
    } else {
        0
    }
}

/// Byte `j` of the bitmap of `bits`: eight bits, the lowest first.
#[verifier::opaque]
pub open spec fn bitmap_byte(bits: Seq<bool>, j: int) -> u8 {
    (bit_value(bits, 8 * j) + 2 * bit_value(bits, 8 * j + 1) + 4 * bit_value(bits, 8 * j + 2) + 8
        * bit_value(bits, 8 * j + 3) + 16 * bit_value(bits, 8 * j + 4) + 32 * bit_value(
        bits,
        8 * j + 5,
    ) + 64 * bit_value(bits, 8 * j + 6) + 128 * bit_value(bits, 8 * j + 7)) as u8
}

/// The bitmap of `bits`: as many bytes as hold them.
pub open spec fn bitmap_of(bits: Seq<bool>) -> Seq<u8> {
    Seq::new(((bits.len() + 7) / 8) as nat, |j: int| bitmap_byte(bits, j))
}

/// A bit that is written is read back.
pub proof fn lemma_bit_is_read_back(bits: Seq<bool>, before: Seq<u8>, after: Seq<u8>, i: int)
    requires
        0 <= i < bits.len(),
    ensures
        bit_at(before + bitmap_of(bits) + after, before.len() as int, i) == bits[i],
{
    reveal(bitmap_byte);
    let s = before + bitmap_of(bits) + after;
    let j = i / 8;
    let k = i % 8;
    assert(s[before.len() + j] == bitmap_of(bits)[j]);
    let b0 = bit_value(bits, 8 * j);
    let b1 = bit_value(bits, 8 * j + 1);
    let b2 = bit_value(bits, 8 * j + 2);
    let b3 = bit_value(bits, 8 * j + 3);
    let b4 = bit_value(bits, 8 * j + 4);
    let b5 = bit_value(bits, 8 * j + 5);
    let b6 = bit_value(bits, 8 * j + 6);
    let b7 = bit_value(bits, 8 * j + 7);
    let byte = b0 + 2 * b1 + 4 * b2 + 8 * b3 + 16 * b4 + 32 * b5 + 64 * b6 + 128 * b7;
    assert(0 <= byte < 256);
    assert(bitmap_byte(bits, j) == byte);
    assert(bit_value(bits, 8 * j + k) == if bits[i] {
        1int
    } else {
        0int
    });
    if k == 0 {
        assert((byte / 1) % 2 == b0);
    } else if k == 1 {
        assert((byte / 2) % 2 == b1);
    } else if k == 2 {
        assert((byte / 4) % 2 == b2);
    } else if k == 3 {
        assert((byte / 8) % 2 == b3);
    } else if k == 4 {
        assert((byte / 16) % 2 == b4);
    } else if k == 5 {
        assert((byte / 32) % 2 == b5);
    } else if k == 6 {
        assert((byte / 64) % 2 == b6);
    } else {
        assert((byte / 128) % 2 == b7);
    }
}

/// Whether each of the first `n` columns that an image holds is null, in
/// the order of the columns.
pub open spec fn null_flags(included: Seq<bool>, values: Seq<ColumnValueView>, n: int) -> Seq<bool>
    decreases n,
{
    if n <= 0 {
        Seq::empty()
    } else if included[n - 1] {
        null_flags(included, values, n - 1).push(values[n - 1] is Null)
    } else {
        null_flags(included, values, n - 1)
    }
}

/// The bytes of the values of the columns from `col` on: of each column
/// that the image holds and that is not null, the bytes of its value.
pub open spec fn values_bytes(
    types: Seq<u8>,
    metas: Seq<u16>,
    included: Seq<bool>,
    values: Seq<ColumnValueView>,
    col: int,
) -> Seq<u8>
    decreases types.len() - col,
{
    if col < 0 || col >= types.len() {
        Seq::empty()
    } else if included[col] && values[col] !is Null {
        encoded_column(types[col], metas[col], values[col]).unwrap() + values_bytes(
            types,
            metas,
            included,
            values,
            col + 1,
        )
    } else {
        values_bytes(types, metas, included, values, col + 1)
    }
}

/// Whether `values` can be written as an image of a row of a table with
/// the given columns: there is a value for every column, a column that
/// the image leaves out is null, and every other value is null or one
/// that its column can hold.
pub open spec fn row_encodable(
    types: Seq<u8>,
    metas: Seq<u16>,
    included: Seq<bool>,
    values: Seq<ColumnValueView>,
) -> bool {
    &&& types.len() == metas.len()
    &&& types.len() == included.len()
    &&& types.len() == values.len()
    &&& forall|col: int|
        0 <= col < types.len() ==> if #[trigger] included[col] {
            values[col] is Null || encoded_column(types[col], metas[col], values[col]) is Some
        } else {
            values[col] is Null
        }
}

/// The bytes of a row image: the bitmap of the columns that are null,
/// among those that the image holds, then the values.
pub open spec fn encoded_row(
    types: Seq<u8>,
    metas: Seq<u16>,
    included: Seq<bool>,
    values: Seq<ColumnValueView>,
) -> Seq<u8> {
    bitmap_of(null_flags(included, values, included.len() as int)) + values_bytes(
        types,
        metas,
        included,
        values,
        0,
    )
}

/// There is a flag for each column that the image holds, and the flag of
/// a column says whether the column is null.
pub proof fn lemma_null_flags(included: Seq<bool>, values: Seq<ColumnValueView>, n: int, col: int)
    requires
        0 <= col < n <= included.len(),
        included[col],
    ensures
        null_flags(included, values, n).len() == included_upto(included, n),
        0 <= included_upto(included, col) < included_upto(included, n),
        null_flags(included, values, n)[included_upto(included, col)] == (values[col] is Null),
    decreases n,
{
    lemma_null_flags_length(included, values, n);
    lemma_null_flags_length(included, values, n - 1);
    lemma_included_upto(included, col, n);
    if col < n - 1 {
        lemma_null_flags(included, values, n - 1, col);
    }
}

/// There is a flag for each column that the image holds.
pub proof fn lemma_null_flags_length(included: Seq<bool>, values: Seq<ColumnValueView>, n: int)
    ensures
        null_flags(included, values, n).len() == included_upto(included, n),
    decreases n,
{
    if n > 0 {
        lemma_null_flags_length(included, values, n - 1);
    }
}

/// The values from column `col` on that are written behind `front` are
/// decoded behind the values before them.
#[verifier::rlimit(40)]
pub proof fn lemma_values_round_trip(
    types: Seq<u8>,
    metas: Seq<u16>,
    included: Seq<bool>,
    values: Seq<ColumnValueView>,
    before: Seq<u8>,
    middle: Seq<u8>,
    after: Seq<u8>,
    col: int,
)
    requires
        row_encodable(types, metas, included, values),
        0 <= col <= types.len(),
    ensures
        row_from(
            before + bitmap_of(null_flags(included, values, included.len() as int)) + middle
                + values_bytes(types, metas, included, values, col) + after,
            (before + bitmap_of(null_flags(included, values, included.len() as int))
                + middle).len() as int,
            before.len() as int,
            types,
            metas,
            included,
            col,
            included_upto(included, col),
            values.subrange(0, col),
        ) == Some(
            (
                values,
                (before + bitmap_of(null_flags(included, values, included.len() as int)) + middle
                    + values_bytes(types, metas, included, values, col)).len() as int,
            ),
        ),
    decreases types.len() - col,
{
    let n = types.len() as int;
    let flags = null_flags(included, values, n);
    let bitmap = bitmap_of(flags);
    let front = before + bitmap + middle;
    let rest = values_bytes(types, metas, included, values, col);
    let s = front + rest + after;
    let acc = values.subrange(0, col);
    if col >= n {
        assert(acc =~= values);
        assert(rest =~= Seq::<u8>::empty());
        assert(front + rest =~= front);
    } else {
        let more = values.subrange(0, col + 1);
        assert(included[col] || !included[col]);
        if !included[col] {
            assert(acc.push(ColumnValueView::Null) =~= more);
            lemma_values_round_trip(types, metas, included, values, before, middle, after, col + 1);
        } else {
            lemma_null_flags(included, values, n, col);
            let rank = included_upto(included, col);
            assert(s =~= before + bitmap + (middle + rest + after));
            lemma_bit_is_read_back(flags, before, middle + rest + after, rank);
            if values[col] is Null {
                assert(acc.push(ColumnValueView::Null) =~= more);
                lemma_values_round_trip(
                    types,
                    metas,
                    included,
                    values,
                    before,
                    middle,
                    after,
                    col + 1,
                );
            } else {
                let bytes = encoded_column(types[col], metas[col], values[col]).unwrap();
                let tail = values_bytes(types, metas, included, values, col + 1);
                assert(s =~= front + bytes + (tail + after));
                lemma_column_round_trip(types[col], metas[col], values[col], front, tail + after);
                assert(acc.push(values[col]) =~= more);
                assert(front + bytes =~= before + bitmap + (middle + bytes));
                assert(s =~= before + bitmap + (middle + bytes) + tail + after);
                lemma_values_round_trip(
                    types,
                    metas,
                    included,
                    values,
                    before,
                    middle + bytes,
                    after,
                    col + 1,
                );
                assert(front + rest =~= before + bitmap + (middle + bytes) + tail);
            }
        }
    }
}

/// A row image that is written is decoded to its values: for every table
/// layout, every choice of columns that the image holds, and every row of
/// values that can be written, decoding the bytes of the image, wherever
/// they stand, gives the values and the position behind the bytes.
pub proof fn lemma_row_round_trip(
    types: Seq<u8>,
    metas: Seq<u16>,
    included: Seq<bool>,
    values: Seq<ColumnValueView>,
    before: Seq<u8>,
    after: Seq<u8>,
)
    requires
        row_encodable(types, metas, included, values),
    ensures
        row_at(
            before + encoded_row(types, metas, included, values) + after,
            before.len() as int,
            types,
            metas,
            included,
        ) == Some(
            (values, (before.len() + encoded_row(types, metas, included, values).len()) as int),
        ),
{
    reveal(row_at);
    let n = included.len() as int;
    let flags = null_flags(included, values, n);
    let bitmap = bitmap_of(flags);
    let empty = Seq::<u8>::empty();
    let rest = values_bytes(types, metas, included, values, 0);
    let s = before + encoded_row(types, metas, included, values) + after;
    lemma_null_flags_length(included, values, n);
    lemma_values_round_trip(types, metas, included, values, before, empty, after, 0);
    assert(s =~= before + bitmap + empty + rest + after);
    assert(before + bitmap + empty =~= before + bitmap);
    assert(values.subrange(0, 0) =~= Seq::<ColumnValueView>::empty());
    assert(before + bitmap + empty + rest =~= before + (bitmap + rest));
}

/// The length-encoded form of `v`: the value itself below 251, and
/// otherwise the byte 252, 253 or 254 before its 2, 3 or 8 bytes.
pub open spec fn packed_int(v: nat) -> Seq<u8> {
    if v < 251 {
        seq![v as u8]
    } else if v < 0x1_0000 {
        seq![252u8] + le_bytes(v as int, 2)
    } else if v < 0x100_0000 {
        seq![253u8] + le_bytes(v as int, 3)
    } else {
        seq![254u8] + le_bytes(v as int, 8)
    }
}

/// A length-encoded integer that is written is read back.
pub proof fn lemma_packed_int_is_read_back(v: nat, before: Seq<u8>, after: Seq<u8>)
    requires
        v <= u64::MAX,
    ensures
        packed_at(before + packed_int(v) + after, before.len() as int) == Some(
            (v, (before.len() + packed_int(v).len()) as int),
        ),
{
    let s = before + packed_int(v) + after;
    let pos = before.len() as int;
    lemma_pow256_values();
    assert(s[pos] == packed_int(v)[0]);
    if v >= 251 {
        let n: nat = if v < 0x1_0000 {
            2
        } else if v < 0x100_0000 {
            3
        } else {
            8
        };
        let first = packed_int(v).subrange(0, 1);
        assert(s =~= (before + first) + le_bytes(v as int, n) + after);
        lemma_le_bytes_read_back(v as int, n, before + first, after);
        vstd::arithmetic::div_mod::lemma_small_mod(v, pow256(n));
    }
}

/// Whether every one of `rows` can be written as an image.
#[verifier::opaque]
pub open spec fn rows_encodable(
    types: Seq<u8>,
    metas: Seq<u16>,
    included: Seq<bool>,
    rows: Seq<Seq<ColumnValueView>>,
) -> bool {
    forall|i: int| 0 <= i < rows.len() ==> row_encodable(types, metas, included, #[trigger] rows[i])
}

/// Whether both rows of every pair of `rows` can be written as images.
#[verifier::opaque]
pub open spec fn pairs_encodable(
    types: Seq<u8>,
    metas: Seq<u16>,
    before: Seq<bool>,
    after: Seq<bool>,
    rows: Seq<(Seq<ColumnValueView>, Seq<ColumnValueView>)>,
) -> bool {
    forall|i: int|
        0 <= i < rows.len() ==> row_encodable(types, metas, before, (#[trigger] rows[i]).0)
            && row_encodable(types, metas, after, rows[i].1)
}

/// The bytes of the images of the rows from `k` on.
pub open spec fn rows_bytes(
    types: Seq<u8>,
    metas: Seq<u16>,
    included: Seq<bool>,
    rows: Seq<Seq<ColumnValueView>>,
    k: int,
) -> Seq<u8>
    decreases rows.len() - k,
{
    if k < 0 || k >= rows.len() {
        Seq::empty()
    } else {
        encoded_row(types, metas, included, rows[k]) + rows_bytes(
            types,
            metas,
            included,
            rows,
            k + 1,
        )
    }
}

/// Row images that are written one behind the other, up to the end of
/// the bytes, are decoded to their rows, as long as the images hold a
/// column at least.
pub proof fn lemma_rows_from_round_trip(
    types: Seq<u8>,
    metas: Seq<u16>,
    included: Seq<bool>,
    rows: Seq<Seq<ColumnValueView>>,
    front: Seq<u8>,
    k: int,
    acc: Seq<Seq<ColumnValueView>>,
)
    requires
        0 <= k <= rows.len(),
        included_upto(included, included.len() as int) >= 1,
        rows_encodable(types, metas, included, rows),
    ensures
        rows_from(
            front + rows_bytes(types, metas, included, rows, k),
            front.len() as int,
            types,
            metas,
            included,
            acc,
        ) == Some(acc + rows.subrange(k, rows.len() as int)),
    decreases rows.len() - k,
{
    reveal(rows_encodable);
    let s = front + rows_bytes(types, metas, included, rows, k);
    if k >= rows.len() {
        assert(s =~= front);
        assert(acc + rows.subrange(k, rows.len() as int) =~= acc);
    } else {
        let image = encoded_row(types, metas, included, rows[k]);
        let tail = rows_bytes(types, metas, included, rows, k + 1);
        assert(s =~= front + image + tail);
        lemma_row_round_trip(types, metas, included, rows[k], front, tail);
        lemma_null_flags_length(included, rows[k], included.len() as int);
        assert(image.len() >= 1);
        lemma_rows_from_round_trip(
            types,
            metas,
            included,
            rows,
            front + image,
            k + 1,
            acc.push(rows[k]),
        );
        assert(acc.push(rows[k]) + rows.subrange(k + 1, rows.len() as int) =~= acc + rows.subrange(
            k,
            rows.len() as int,
        ));
    }
}

/// The first fields of the body of a row event: the table's id, flags,
/// in the second version of the events an empty block of extra data, and
/// the number of columns.
pub open spec fn rows_head(table_id: u64, extended: bool, columns: nat) -> Seq<u8> {
    le_bytes(table_id as int, 6) + le_bytes(0, 2) + (if extended {
        le_bytes(2, 2)
    } else {
        Seq::<u8>::empty()
    }) + packed_int(columns)
}

/// The first fields of a row event that are written are read back.
pub proof fn lemma_rows_head_is_read_back(
    table_id: u64,
    extended: bool,
    columns: nat,
    rest: Seq<u8>,
)
    requires
        table_id < 0x1_0000_0000_0000,
        columns <= u64::MAX,
    ensures
        le_at(rows_head(table_id, extended, columns) + rest, 0, 6) == table_id,
        rows_count_at(rows_head(table_id, extended, columns) + rest, extended) matches Some(
            count_at,
        ) && packed_at(rows_head(table_id, extended, columns) + rest, count_at) == Some(
            (columns, rows_head(table_id, extended, columns).len() as int),
        ),
{
    let s = rows_head(table_id, extended, columns) + rest;
    let id = le_bytes(table_id as int, 6);
    let flags = le_bytes(0, 2);
    let extra = if extended {
        le_bytes(2, 2)
    } else {
        Seq::<u8>::empty()
    };
    let count = packed_int(columns);
    let empty = Seq::<u8>::empty();
    lemma_pow256_values();
    assert(s =~= empty + id + (flags + extra + count + rest));
    lemma_le_bytes_read_back(table_id as int, 6, empty, flags + extra + count + rest);
    vstd::arithmetic::div_mod::lemma_small_mod(table_id as nat, pow256(6));
    if extended {
        assert(s =~= (id + flags) + extra + (count + rest));
        lemma_le_bytes_read_back(2, 2, id + flags, count + rest);
        assert(le_at(s, 8, 2) == 2);
    }
    assert(rows_count_at(s, extended) == Some((id + flags + extra).len() as int));
    assert(s =~= (id + flags + extra) + count + rest);
    lemma_packed_int_is_read_back(columns, id + flags + extra, rest);
}

/// The body of an event that writes or deletes `rows` of the table
/// `table_id`: the first fields, the bitmap of the columns that the
/// images hold, and the images.
pub open spec fn encoded_rows(
    table_id: u64,
    extended: bool,
    types: Seq<u8>,
    metas: Seq<u16>,
    included: Seq<bool>,
    rows: Seq<Seq<ColumnValueView>>,
) -> Seq<u8> {
    rows_head(table_id, extended, types.len()) + bitmap_of(included) + rows_bytes(
        types,
        metas,
        included,
        rows,
        0,
    )
}

/// The bits of a bitmap that is written are read back.
pub proof fn lemma_bitmap_is_read_back(bits: Seq<bool>, before: Seq<u8>, after: Seq<u8>)
    ensures
        bits_at(before + bitmap_of(bits) + after, before.len() as int, bits.len() as int) == bits,
{
    let s = before + bitmap_of(bits) + after;
    assert forall|i: int| 0 <= i < bits.len() implies bit_at(s, before.len() as int, i)
        == bits[i] by {
        lemma_bit_is_read_back(bits, before, after, i);
    }
    assert(bits_at(s, before.len() as int, bits.len() as int) =~= bits);
}

/// What the body of a write or delete event holds, given what its parts
/// hold.
proof fn lemma_rows_assembled(
    s: Seq<u8>,
    extended: bool,
    table: TableMapView,
    table_id: u64,
    included: Seq<bool>,
    rows: Seq<Seq<ColumnValueView>>,
    count_at: int,
    at: int,
)
    requires
        le_at(s, 0, 6) == table_id,
        rows_count_at(s, extended) == Some(count_at),
        packed_at(s, count_at) == Some((table.column_types.len(), at)),
        in_bounds(s, at, (table.column_types.len() + 7) as int / 8),
        bits_at(s, at, table.column_types.len() as int) == included,
        rows_from(
            s,
            at + (table.column_types.len() + 7) as int / 8,
            table.column_types,
            table.column_metas,
            included,
            Seq::empty(),
        ) == Some(rows),
    ensures
        rows_of(s, extended, table) == Some(
            RowsView { table_id, included_columns: included, rows },
        ),
{
    reveal(rows_of);
}

/// The images of a write or delete event that are written behind `front`
/// are decoded to their rows.
proof fn lemma_images_round_trip(
    types: Seq<u8>,
    metas: Seq<u16>,
    included: Seq<bool>,
    rows: Seq<Seq<ColumnValueView>>,
    front: Seq<u8>,
)
    requires
        included_upto(included, included.len() as int) >= 1,
        rows_encodable(types, metas, included, rows),
    ensures
        rows_from(
            front + rows_bytes(types, metas, included, rows, 0),
            front.len() as int,
            types,
            metas,
            included,
            Seq::empty(),
        ) == Some(rows),
{
    lemma_rows_from_round_trip(types, metas, included, rows, front, 0, Seq::empty());
    assert(Seq::<Seq<ColumnValueView>>::empty() + rows.subrange(0, rows.len() as int) =~= rows);
}

/// Rows that are written into an event are decoded to themselves: for
/// every table layout and all rows that can be written for it, decoding
/// the body of the event that holds them gives the table's id, the
/// columns that the images hold, and the rows.
#[verifier::rlimit(40)]
pub proof fn lemma_rows_round_trip(
    table_id: u64,
    extended: bool,
    table: TableMapView,
    included: Seq<bool>,
    rows: Seq<Seq<ColumnValueView>>,
)
    requires
        table_id < 0x1_0000_0000_0000,
        table.column_types.len() <= u64::MAX,
        included.len() == table.column_types.len(),
        included_upto(included, included.len() as int) >= 1,
        rows_encodable(table.column_types, table.column_metas, included, rows),
    ensures
        rows_of(
            encoded_rows(
                table_id,
                extended,
                table.column_types,
                table.column_metas,
                included,
                rows,
            ),
            extended,
            table,
        ) == Some(RowsView { table_id, included_columns: included, rows }),
{
    let types = table.column_types;
    let metas = table.column_metas;
    let s = encoded_rows(table_id, extended, types, metas, included, rows);
    let head = rows_head(table_id, extended, types.len());
    let bitmap = bitmap_of(included);
    let images = rows_bytes(types, metas, included, rows, 0);
    lemma_rows_head_is_read_back(table_id, extended, types.len(), bitmap + images);
    lemma_bitmap_is_read_back(included, head, images);
    lemma_images_round_trip(types, metas, included, rows, head + bitmap);
    assert(s == head + bitmap + images);
    assert(s =~= head + (bitmap + images));
    assert((head + bitmap).len() == head.len() + (types.len() + 7) as int / 8);
    lemma_rows_assembled(
        s,
        extended,
        table,
        table_id,
        included,
        rows,
        rows_count_at(s, extended).unwrap(),
        head.len() as int,
    );
}

/// The bytes of the images of the pairs of rows from `k` on: of each
/// pair the image from before the update, then the image from after it.
pub open spec fn pairs_bytes(
    types: Seq<u8>,
    metas: Seq<u16>,
    before: Seq<bool>,
    after: Seq<bool>,
    rows: Seq<(Seq<ColumnValueView>, Seq<ColumnValueView>)>,
    k: int,
) -> Seq<u8>
    decreases rows.len() - k,
{
    if k < 0 || k >= rows.len() {
        Seq::empty()
    } else {
        encoded_row(types, metas, before, rows[k].0) + encoded_row(types, metas, after, rows[k].1)
            + pairs_bytes(types, metas, before, after, rows, k + 1)
    }
}

/// Pairs of row images that are written one behind the other, up to the
/// end of the bytes, are decoded to their rows, as long as a pair holds a
/// column at least.
pub proof fn lemma_pairs_from_round_trip(
    types: Seq<u8>,
    metas: Seq<u16>,
    before: Seq<bool>,
    after: Seq<bool>,
    rows: Seq<(Seq<ColumnValueView>, Seq<ColumnValueView>)>,
    front: Seq<u8>,
    k: int,
    acc: Seq<(Seq<ColumnValueView>, Seq<ColumnValueView>)>,
)
    requires
        0 <= k <= rows.len(),
        included_upto(before, before.len() as int) + included_upto(after, after.len() as int)
            >= 1,
        pairs_encodable(types, metas, before, after, rows),
    ensures
        pairs_from(
            front + pairs_bytes(types, metas, before, after, rows, k),
            front.len() as int,
            types,
            metas,
            before,
            after,
            acc,
        ) == Some(acc + rows.subrange(k, rows.len() as int)),
    decreases rows.len() - k,
{
    reveal(pairs_encodable);
    let s = front + pairs_bytes(types, metas, before, after, rows, k);
    if k >= rows.len() {
        assert(s =~= front);
        assert(acc + rows.subrange(k, rows.len() as int) =~= acc);
    } else {
        let old_image = encoded_row(types, metas, before, rows[k].0);
        let new_image = encoded_row(types, metas, after, rows[k].1);
        let tail = pairs_bytes(types, metas, before, after, rows, k + 1);
        assert(row_encodable(types, metas, before, rows[k].0));
        assert(s =~= front + old_image + (new_image + tail));
        lemma_row_round_trip(types, metas, before, rows[k].0, front, new_image + tail);
        assert(s =~= (front + old_image) + new_image + tail);
        lemma_row_round_trip(types, metas, after, rows[k].1, front + old_image, tail);
        lemma_null_flags_length(before, rows[k].0, before.len() as int);
        lemma_null_flags_length(after, rows[k].1, after.len() as int);
        lemma_included_upto(before, 0, before.len() as int);
        lemma_included_upto(after, 0, after.len() as int);
        assert(old_image.len() + new_image.len() >= 1);
        lemma_pairs_from_round_trip(
            types,
            metas,
            before,
            after,
            rows,
            front + old_image + new_image,
            k + 1,
            acc.push(rows[k]),
        );
        assert(acc.push(rows[k]) + rows.subrange(k + 1, rows.len() as int) =~= acc + rows.subrange(
            k,
            rows.len() as int,
        ));
    }
}

/// The body of an event that updates `rows` of the table `table_id`: as
/// `encoded_rows`, with a second bitmap for the columns that the images
/// from after the update hold, and two images for each row.
pub open spec fn encoded_update_rows(
    table_id: u64,
    extended: bool,
    types: Seq<u8>,
    metas: Seq<u16>,
    before: Seq<bool>,
    after: Seq<bool>,
    rows: Seq<(Seq<ColumnValueView>, Seq<ColumnValueView>)>,
) -> Seq<u8> {
    rows_head(table_id, extended, types.len()) + bitmap_of(before) + bitmap_of(after) + pairs_bytes(
        types,
        metas,
        before,
        after,
        rows,
        0,
    )
}

/// What the body of an update event holds, given what its parts hold.
proof fn lemma_update_rows_assembled(
    s: Seq<u8>,
    extended: bool,
    table: TableMapView,
    table_id: u64,
    before: Seq<bool>,
    after: Seq<bool>,
    rows: Seq<(Seq<ColumnValueView>, Seq<ColumnValueView>)>,
    count_at: int,
    at: int,
)
    requires
        le_at(s, 0, 6) == table_id,
        rows_count_at(s, extended) == Some(count_at),
        packed_at(s, count_at) == Some((table.column_types.len(), at)),
        in_bounds(s, at, 2 * ((table.column_types.len() + 7) as int / 8)),
        bits_at(s, at, table.column_types.len() as int) == before,
        bits_at(
            s,
            at + (table.column_types.len() + 7) as int / 8,
            table.column_types.len() as int,
        ) == after,
        pairs_from(
            s,
            at + 2 * ((table.column_types.len() + 7) as int / 8),
            table.column_types,
            table.column_metas,
            before,
            after,
            Seq::empty(),
        ) == Some(rows),
    ensures
        update_rows_of(s, extended, table) == Some(
            UpdateRowsView {
                table_id,
                included_columns_before: before,
                included_columns_after: after,
                rows,
            },
        ),
{
    reveal(update_rows_of);
}

/// The two bitmaps of an update event that are written are read back.
proof fn lemma_two_bitmaps_are_read_back(
    before: Seq<bool>,
    after: Seq<bool>,
    head: Seq<u8>,
    images: Seq<u8>,
)
    requires
        before.len() == after.len(),
    ensures
        in_bounds(
            head + bitmap_of(before) + bitmap_of(after) + images,
            head.len() as int,
            2 * ((before.len() + 7) as int / 8),
        ),
        bits_at(
            head + bitmap_of(before) + bitmap_of(after) + images,
            head.len() as int,
            before.len() as int,
        ) == before,
        bits_at(
            head + bitmap_of(before) + bitmap_of(after) + images,
            head.len() + (before.len() + 7) as int / 8,
            before.len() as int,
        ) == after,
{
    let first = bitmap_of(before);
    let second = bitmap_of(after);
    let s = head + first + second + images;
    assert(s =~= head + first + (second + images));
    lemma_bitmap_is_read_back(before, head, second + images);
    assert(s =~= (head + first) + second + images);
    lemma_bitmap_is_read_back(after, head + first, images);
}

/// The images of an update event that are written behind `front` are
/// decoded to their rows.
proof fn lemma_update_images_round_trip(
    types: Seq<u8>,
    metas: Seq<u16>,
    before: Seq<bool>,
    after: Seq<bool>,
    rows: Seq<(Seq<ColumnValueView>, Seq<ColumnValueView>)>,
    front: Seq<u8>,
)
    requires
        included_upto(before, before.len() as int) + included_upto(after, after.len() as int)
            >= 1,
        pairs_encodable(types, metas, before, after, rows),
    ensures
        pairs_from(
            front + pairs_bytes(types, metas, before, after, rows, 0),
            front.len() as int,
            types,
            metas,
            before,
            after,
            Seq::empty(),
        ) == Some(rows),
{
    lemma_pairs_from_round_trip(types, metas, before, after, rows, front, 0, Seq::empty());
    assert(Seq::<(Seq<ColumnValueView>, Seq<ColumnValueView>)>::empty() + rows.subrange(
        0,
        rows.len() as int,
    ) =~= rows);
}

/// The body of an update event: where its bitmaps start.
pub open spec fn update_bitmaps_at(table_id: u64, extended: bool, table: TableMapView) -> int {
    rows_head(table_id, extended, table.column_types.len()).len() as int
}

/// The first fields of an update event that is written are read back.
proof fn lemma_update_head(
    table_id: u64,
    extended: bool,
    table: TableMapView,
    before: Seq<bool>,
    after: Seq<bool>,
    rows: Seq<(Seq<ColumnValueView>, Seq<ColumnValueView>)>,
)
    requires
        table_id < 0x1_0000_0000_0000,
        table.column_types.len() <= u64::MAX,
        before.len() == table.column_types.len(),
        after.len() == table.column_types.len(),
        included_upto(before, before.len() as int) + included_upto(after, after.len() as int)
            >= 1,
        pairs_encodable(table.column_types, table.column_metas, before, after, rows),
    ensures
        le_at(encoded_update_rows(
            table_id,
            extended,
            table.column_types,
            table.column_metas,
            before,
            after,
            rows,
        ), 0, 6) == table_id,
        rows_count_at(encoded_update_rows(
            table_id,
            extended,
            table.column_types,
            table.column_metas,
            before,
            after,
            rows,
        ), extended) is Some,
        packed_at(
            encoded_update_rows(
            table_id,
            extended,
            table.column_types,
            table.column_metas,
            before,
            after,
            rows,
        ),
            rows_count_at(encoded_update_rows(
            table_id,
            extended,
            table.column_types,
            table.column_metas,
            before,
            after,
            rows,
        ), extended).unwrap(),
        ) == Some((table.column_types.len(), update_bitmaps_at(table_id, extended, table))),
{
    let types = table.column_types;
    let metas = table.column_metas;
    let s = encoded_update_rows(table_id, extended, types, metas, before, after, rows);
    let head = rows_head(table_id, extended, types.len());
    let first = bitmap_of(before);
    let second = bitmap_of(after);
    let images = pairs_bytes(types, metas, before, after, rows, 0);
    let n = types.len() as int;
    let width = (n + 7) / 8;
    let at = head.len() as int;
    assert(s =~= head + (first + second + images));
    lemma_rows_head_is_read_back(table_id, extended, types.len(), first + second + images);
}

/// The bitmaps of an update event that is written are read back.
proof fn lemma_update_bitmaps(
    table_id: u64,
    extended: bool,
    table: TableMapView,
    before: Seq<bool>,
    after: Seq<bool>,
    rows: Seq<(Seq<ColumnValueView>, Seq<ColumnValueView>)>,
)
    requires
        table_id < 0x1_0000_0000_0000,
        table.column_types.len() <= u64::MAX,
        before.len() == table.column_types.len(),
        after.len() == table.column_types.len(),
        included_upto(before, before.len() as int) + included_upto(after, after.len() as int)
            >= 1,
        pairs_encodable(table.column_types, table.column_metas, before, after, rows),
    ensures
        in_bounds(
            encoded_update_rows(
            table_id,
            extended,
            table.column_types,
            table.column_metas,
            before,
            after,
            rows,
        ),
            update_bitmaps_at(table_id, extended, table),
            2 * ((table.column_types.len() + 7) as int / 8),
        ),
        bits_at(
            encoded_update_rows(
            table_id,
            extended,
            table.column_types,
            table.column_metas,
            before,
            after,
            rows,
        ),
            update_bitmaps_at(table_id, extended, table),
            table.column_types.len() as int,
        ) == before,
        bits_at(
            encoded_update_rows(
            table_id,
            extended,
            table.column_types,
            table.column_metas,
            before,
            after,
            rows,
        ),
            update_bitmaps_at(table_id, extended, table) + (table.column_types.len() + 7) as int
                / 8,
            table.column_types.len() as int,
        ) == after,
{
    let types = table.column_types;
    let metas = table.column_metas;
    let s = encoded_update_rows(table_id, extended, types, metas, before, after, rows);
    let head = rows_head(table_id, extended, types.len());
    let first = bitmap_of(before);
    let second = bitmap_of(after);
    let images = pairs_bytes(types, metas, before, after, rows, 0);
    let n = types.len() as int;
    let width = (n + 7) / 8;
    let at = head.len() as int;
    lemma_two_bitmaps_are_read_back(before, after, head, images);
    assert(s == head + first + second + images);
}

/// The images of an update event that is written are decoded to their
/// rows.
proof fn lemma_update_images(
    table_id: u64,
    extended: bool,
    table: TableMapView,
    before: Seq<bool>,
    after: Seq<bool>,
    rows: Seq<(Seq<ColumnValueView>, Seq<ColumnValueView>)>,
)
    requires
        table_id < 0x1_0000_0000_0000,
        table.column_types.len() <= u64::MAX,
        before.len() == table.column_types.len(),
        after.len() == table.column_types.len(),
        included_upto(before, before.len() as int) + included_upto(after, after.len() as int)
            >= 1,
        pairs_encodable(table.column_types, table.column_metas, before, after, rows),
    ensures
        pairs_from(
            encoded_update_rows(
            table_id,
            extended,
            table.column_types,
            table.column_metas,
            before,
            after,
            rows,
        ),
            update_bitmaps_at(table_id, extended, table) + 2 * ((table.column_types.len() + 7)
                as int / 8),
            table.column_types,
            table.column_metas,
            before,
            after,
            Seq::empty(),
        ) == Some(rows),
{
    let types = table.column_types;
    let metas = table.column_metas;
    let s = encoded_update_rows(table_id, extended, types, metas, before, after, rows);
    let head = rows_head(table_id, extended, types.len());
    let first = bitmap_of(before);
    let second = bitmap_of(after);
    let images = pairs_bytes(types, metas, before, after, rows, 0);
    let n = types.len() as int;
    let width = (n + 7) / 8;
    let at = head.len() as int;
    lemma_update_images_round_trip(types, metas, before, after, rows, head + first + second);
    assert(first.len() == width);
    assert(second.len() == width);
    assert((head + first + second).len() == at + 2 * width);
    assert(s == (head + first + second) + images);
}

/// Updated rows that are written into an event are decoded to
/// themselves.
pub proof fn lemma_update_rows_round_trip(
    table_id: u64,
    extended: bool,
    table: TableMapView,
    before: Seq<bool>,
    after: Seq<bool>,
    rows: Seq<(Seq<ColumnValueView>, Seq<ColumnValueView>)>,
)
    requires
        table_id < 0x1_0000_0000_0000,
        table.column_types.len() <= u64::MAX,
        before.len() == table.column_types.len(),
        after.len() == table.column_types.len(),
        included_upto(before, before.len() as int) + included_upto(after, after.len() as int)
            >= 1,
        pairs_encodable(table.column_types, table.column_metas, before, after, rows),
    ensures
        update_rows_of(
            encoded_update_rows(
            table_id,
            extended,
            table.column_types,
            table.column_metas,
            before,
            after,
            rows,
        ),
            extended,
            table,
        ) == Some(
            UpdateRowsView {
                table_id,
                included_columns_before: before,
                included_columns_after: after,
                rows,
            },
        ),
{
    let s = encoded_update_rows(
        table_id,
        extended,
        table.column_types,
        table.column_metas,
        before,
        after,
        rows,
    );
    lemma_update_head(table_id, extended, table, before, after, rows);
    lemma_update_bitmaps(table_id, extended, table, before, after, rows);
    lemma_update_images(table_id, extended, table, before, after, rows);
    lemma_update_rows_assembled(
        s,
        extended,
        table,
        table_id,
        before,
        after,
        rows,
        rows_count_at(s, extended).unwrap(),
        update_bitmaps_at(table_id, extended, table),
    );
}

} // verus!
