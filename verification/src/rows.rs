//! Row images and the events that carry them.

use vstd::prelude::*;
use crate::bytes::{
    bit_at, bits_at, fits, in_bounds, le_at, lemma_le_at_bound, lemma_pow256_values, packed_at,
    read_bit, read_bits, read_le, read_packed,
};
use crate::column::{column_at, decode_column, lemma_column_end, ColumnValue, ColumnValueView};
use crate::error::BinlogError;
use crate::table_map::{TableMapEvent, TableMapView};

verus! {

/// One image of a row: a value for each column of the table, in the table's
/// order.
#[derive(Debug, Clone, PartialEq, Eq)]
pub struct RowEvent {
    pub column_values: Vec<ColumnValue>,
}

/// The values of `v` as mathematical values.
pub open spec fn values_view(v: Seq<ColumnValue>) -> Seq<ColumnValueView> {
    v.map_values(|c: ColumnValue| c@)
}

impl View for RowEvent {
    type V = Seq<ColumnValueView>;

    open spec fn view(&self) -> Seq<ColumnValueView> {
        values_view(self.column_values@)
    }
}

/// The rows of `v` as mathematical values.
pub open spec fn rows_view(v: Seq<RowEvent>) -> Seq<Seq<ColumnValueView>> {
    v.map_values(|r: RowEvent| r@)
}

/// The pairs of rows of `v` as mathematical values.
pub open spec fn pairs_view(v: Seq<(RowEvent, RowEvent)>) -> Seq<
    (Seq<ColumnValueView>, Seq<ColumnValueView>),
> {
    v.map_values(|p: (RowEvent, RowEvent)| (p.0@, p.1@))
}

/// The rows that a write or a delete event carries.
#[derive(Debug, Clone, PartialEq, Eq)]
pub struct RowsEvent {
    pub table_id: u64,
    /// Which columns of the table the images hold.
    pub included_columns: Vec<bool>,
    pub rows: Vec<RowEvent>,
}

/// The mathematical value of a [`RowsEvent`].
pub struct RowsView {
    pub table_id: u64,
    pub included_columns: Seq<bool>,
    pub rows: Seq<Seq<ColumnValueView>>,
}

impl View for RowsEvent {
    type V = RowsView;

    open spec fn view(&self) -> RowsView {
        RowsView {
            table_id: self.table_id,
            included_columns: self.included_columns@,
            rows: rows_view(self.rows@),
        }
    }
}

/// The rows that an update event carries, each as it was before and as it is
/// after the update.
#[derive(Debug, Clone, PartialEq, Eq)]
pub struct UpdateRowsEvent {
    pub table_id: u64,
    /// Which columns the images from before the update hold.
    pub included_columns_before: Vec<bool>,
    /// Which columns the images from after the update hold.
    pub included_columns_after: Vec<bool>,
    pub rows: Vec<(RowEvent, RowEvent)>,
}

/// The mathematical value of an [`UpdateRowsEvent`].
pub struct UpdateRowsView {
    pub table_id: u64,
    pub included_columns_before: Seq<bool>,
    pub included_columns_after: Seq<bool>,
    pub rows: Seq<(Seq<ColumnValueView>, Seq<ColumnValueView>)>,
}

impl View for UpdateRowsEvent {
    type V = UpdateRowsView;

    open spec fn view(&self) -> UpdateRowsView {
        UpdateRowsView {
            table_id: self.table_id,
            included_columns_before: self.included_columns_before@,
            included_columns_after: self.included_columns_after@,
            rows: pairs_view(self.rows@),
        }
    }
}

/// Number of columns among the first `i` that an image holds.
pub open spec fn included_upto(included: Seq<bool>, i: int) -> int
    decreases i,
{
    if i <= 0 {
        0
    } else if included[i - 1] {
        included_upto(included, i - 1) + 1
    } else {
        included_upto(included, i - 1)
    }
}

/// The values of the columns from `col` on, appended to `acc`, and the
/// position behind the last of them. Values are read from `pos` on. A column
/// that the image leaves out, or whose bit in the null bitmap at `nulls_at`
/// is set, is `Null` and takes no bytes; the bitmap has one bit for each
/// column that the image holds, and `rank` is the bit of column `col`.
pub open spec fn row_from(
    s: Seq<u8>,
    pos: int,
    nulls_at: int,
    types: Seq<u8>,
    metas: Seq<u16>,
    included: Seq<bool>,
    col: int,
    rank: int,
    acc: Seq<ColumnValueView>,
) -> Option<(Seq<ColumnValueView>, int)>
    decreases types.len() - col,
{
    if col < 0 || col >= types.len() {
        Some((acc, pos))
    } else if !included[col] {
        row_from(
            s,
            pos,
            nulls_at,
            types,
            metas,
            included,
            col + 1,
            rank,
            acc.push(ColumnValueView::Null),
        )
    } else if bit_at(s, nulls_at, rank) {
        row_from(
            s,
            pos,
            nulls_at,
            types,
            metas,
            included,
            col + 1,
            rank + 1,
            acc.push(ColumnValueView::Null),
        )
    } else {
        match column_at(s, pos, types[col], metas[col]) {
            None => None,
            Some((value, next)) => row_from(
                s,
                next,
                nulls_at,
                types,
                metas,
                included,
                col + 1,
                rank + 1,
                acc.push(value),
            ),
        }
    }
}

/// The row image at `pos` of a table with the given column types and
/// metadata, and the position behind it: a null bitmap with one bit for each
/// included column, then the values of the columns that are included and
/// not null. `None` when the three sequences differ in length or bytes are
/// missing.
#[verifier::opaque]
pub open spec fn row_at(
    s: Seq<u8>,
    pos: int,
    types: Seq<u8>,
    metas: Seq<u16>,
    included: Seq<bool>,
) -> Option<(Seq<ColumnValueView>, int)> {
    let bitmap = (included_upto(included, included.len() as int) + 7) / 8;
    if types.len() != metas.len() || types.len() != included.len() || !in_bounds(s, pos, bitmap) {
        None
    } else {
        row_from(s, pos + bitmap, pos, types, metas, included, 0, 0, Seq::empty())
    }
}

/// The row images from `pos` up to the end of `s`, appended to `acc`.
/// `None` when an image cannot be decoded or takes no bytes at all.
pub open spec fn rows_from(
    s: Seq<u8>,
    pos: int,
    types: Seq<u8>,
    metas: Seq<u16>,
    included: Seq<bool>,
    acc: Seq<Seq<ColumnValueView>>,
) -> Option<Seq<Seq<ColumnValueView>>>
    decreases s.len() - pos,
{
    if pos >= s.len() {
        Some(acc)
    } else {
        match row_at(s, pos, types, metas, included) {
            None => None,
            Some((row, next)) => if next <= pos || next > s.len() {
                None
            } else {
                rows_from(s, next, types, metas, included, acc.push(row))
            },
        }
    }
}

/// The pairs of row images from `pos` up to the end of `s`, appended to
/// `acc`: the image from before the update, then the image from after it.
pub open spec fn pairs_from(
    s: Seq<u8>,
    pos: int,
    types: Seq<u8>,
    metas: Seq<u16>,
    before: Seq<bool>,
    after: Seq<bool>,
    acc: Seq<(Seq<ColumnValueView>, Seq<ColumnValueView>)>,
) -> Option<Seq<(Seq<ColumnValueView>, Seq<ColumnValueView>)>>
    decreases s.len() - pos,
{
    if pos >= s.len() {
        Some(acc)
    } else {
        match row_at(s, pos, types, metas, before) {
            None => None,
            Some((old_row, middle)) => match row_at(s, middle, types, metas, after) {
                None => None,
                Some((new_row, next)) => if next <= pos || next > s.len() {
                    None
                } else {
                    pairs_from(s, next, types, metas, before, after, acc.push((old_row, new_row)))
                },
            },
        }
    }
}

/// Position of the number of columns in the body of a row event. The body
/// starts with the table id (6 bytes) and flags (2). In the second version
/// of the events there follows a block of extra data whose first 2 bytes
/// hold its length, themselves included.
pub open spec fn rows_count_at(s: Seq<u8>, extended: bool) -> Option<int> {
    if !in_bounds(s, 0, 8) {
        None
    } else if !extended {
        Some(8)
    } else if !in_bounds(s, 8, 2) || le_at(s, 8, 2) < 2 || !in_bounds(s, 8, le_at(s, 8, 2) as int) {
        None
    } else {
        Some(8 + le_at(s, 8, 2) as int)
    }
}

/// The id of the table that the row event with body `s` belongs to.
pub open spec fn rows_table_id(s: Seq<u8>) -> Option<u64> {
    if in_bounds(s, 0, 8) {
        Some(le_at(s, 0, 6) as u64)
    } else {
        None
    }
}

/// The rows that the body `s` of a write or delete event holds for a table
/// with layout `table`: behind the number of columns stands a bitmap of the
/// columns that the images hold, then the images up to the end of the body.
/// `None` when the number of columns is not the table's or anything is
/// missing.
#[verifier::opaque]
pub open spec fn rows_of(s: Seq<u8>, extended: bool, table: TableMapView) -> Option<RowsView> {
    match rows_count_at(s, extended) {
        None => None,
        Some(count_at) => match packed_at(s, count_at) {
            None => None,
            Some((count, bitmap_at)) => if count != table.column_types.len() || !in_bounds(
                s,
                bitmap_at,
                (count + 7) as int / 8,
            ) {
                None
            } else {
                match rows_from(
                    s,
                    bitmap_at + (count + 7) as int / 8,
                    table.column_types,
                    table.column_metas,
                    bits_at(s, bitmap_at, count as int),
                    Seq::empty(),
                ) {
                    None => None,
                    Some(rows) => Some(
                        RowsView {
                            table_id: le_at(s, 0, 6) as u64,
                            included_columns: bits_at(s, bitmap_at, count as int),
                            rows,
                        },
                    ),
                }
            },
        },
    }
}

/// The pairs of rows that the body `s` of an update event holds: as
/// `rows_of`, with a second bitmap for the images from after the update.
#[verifier::opaque]
pub open spec fn update_rows_of(s: Seq<u8>, extended: bool, table: TableMapView) -> Option<
    UpdateRowsView,
> {
    match rows_count_at(s, extended) {
        None => None,
        Some(count_at) => match packed_at(s, count_at) {
            None => None,
            Some((count, bitmap_at)) => if count != table.column_types.len() || !in_bounds(
                s,
                bitmap_at,
                2 * ((count + 7) as int / 8),
            ) {
                None
            } else {
                match pairs_from(
                    s,
                    bitmap_at + 2 * ((count + 7) as int / 8),
                    table.column_types,
                    table.column_metas,
                    bits_at(s, bitmap_at, count as int),
                    bits_at(s, bitmap_at + (count + 7) as int / 8, count as int),
                    Seq::empty(),
                ) {
                    None => None,
                    Some(rows) => Some(
                        UpdateRowsView {
                            table_id: le_at(s, 0, 6) as u64,
                            included_columns_before: bits_at(s, bitmap_at, count as int),
                            included_columns_after: bits_at(
                                s,
                                bitmap_at + (count + 7) as int / 8,
                                count as int,
                            ),
                            rows,
                        },
                    ),
                }
            },
        },
    }
}

/// The number of included columns does not shrink as more are counted, and
/// an included column counts.
pub proof fn lemma_included_upto(included: Seq<bool>, i: int, j: int)
    requires
        0 <= i <= j,
    ensures
        0 <= included_upto(included, i) <= included_upto(included, j),
        included_upto(included, i) <= i,
        i < j && included[i] ==> included_upto(included, i) < included_upto(included, j),
    decreases j,
{
    if i < j {
        lemma_included_upto(included, i, j - 1);
    }
    if i > 0 {
        lemma_included_upto(included, i - 1, i - 1);
    }
}

/// What `row_from` appends has one value for each column that is left.
#[verifier::rlimit(40)]
pub proof fn lemma_row_from_length(
    s: Seq<u8>,
    pos: int,
    nulls_at: int,
    types: Seq<u8>,
    metas: Seq<u16>,
    included: Seq<bool>,
    col: int,
    rank: int,
    acc: Seq<ColumnValueView>,
)
    requires
        0 <= col <= types.len(),
    ensures
        row_from(s, pos, nulls_at, types, metas, included, col, rank, acc) matches Some((row, _))
            ==> row.len() == acc.len() + types.len() - col,
    decreases types.len() - col,
{
    if col < types.len() {
        if !included[col] {
            lemma_row_from_length(
                s,
                pos,
                nulls_at,
                types,
                metas,
                included,
                col + 1,
                rank,
                acc.push(ColumnValueView::Null),
            );
        } else if bit_at(s, nulls_at, rank) {
            lemma_row_from_length(
                s,
                pos,
                nulls_at,
                types,
                metas,
                included,
                col + 1,
                rank + 1,
                acc.push(ColumnValueView::Null),
            );
        } else {
            match column_at(s, pos, types[col], metas[col]) {
                None => {},
                Some((value, next)) => {
                    lemma_row_from_length(
                        s,
                        next,
                        nulls_at,
                        types,
                        metas,
                        included,
                        col + 1,
                        rank + 1,
                        acc.push(value),
                    );
                },
            }
        }
    }
}

/// A row image that was decoded has a value for every column of the table.
pub proof fn lemma_row_length(
    s: Seq<u8>,
    pos: int,
    types: Seq<u8>,
    metas: Seq<u16>,
    included: Seq<bool>,
)
    ensures
        row_at(s, pos, types, metas, included) matches Some((row, _)) ==> row.len()
            == types.len(),
{
    reveal(row_at);
    let bitmap = (included_upto(included, included.len() as int) + 7) / 8;
    lemma_row_from_length(
        s,
        pos + bitmap,
        pos,
        types,
        metas,
        included,
        0,
        0,
        Seq::empty(),
    );
}

/// A row image ends inside the bytes, at or behind the place where it starts.
#[verifier::rlimit(40)]
pub proof fn lemma_row_from_end(
    s: Seq<u8>,
    pos: int,
    nulls_at: int,
    types: Seq<u8>,
    metas: Seq<u16>,
    included: Seq<bool>,
    col: int,
    rank: int,
    acc: Seq<ColumnValueView>,
)
    requires
        0 <= pos <= s.len(),
    ensures
        row_from(s, pos, nulls_at, types, metas, included, col, rank, acc) matches Some((_, next))
            ==> pos <= next <= s.len(),
    decreases types.len() - col,
{
    if 0 <= col < types.len() {
        if !included[col] {
            lemma_row_from_end(
                s,
                pos,
                nulls_at,
                types,
                metas,
                included,
                col + 1,
                rank,
                acc.push(ColumnValueView::Null),
            );
        } else if bit_at(s, nulls_at, rank) {
            lemma_row_from_end(
                s,
                pos,
                nulls_at,
                types,
                metas,
                included,
                col + 1,
                rank + 1,
                acc.push(ColumnValueView::Null),
            );
        } else {
            match column_at(s, pos, types[col], metas[col]) {
                None => {},
                Some((value, next)) => {
                    lemma_column_end(s, pos, types[col], metas[col]);
                    lemma_row_from_end(
                        s,
                        next,
                        nulls_at,
                        types,
                        metas,
                        included,
                        col + 1,
                        rank + 1,
                        acc.push(value),
                    );
                },
            }
        }
    }
}

/// A row image ends inside the bytes, at or behind the place where it starts.
pub proof fn lemma_row_end(
    s: Seq<u8>,
    pos: int,
    types: Seq<u8>,
    metas: Seq<u16>,
    included: Seq<bool>,
)
    ensures
        row_at(s, pos, types, metas, included) matches Some((_, next)) ==> pos <= next <= s.len(),
{
    reveal(row_at);
    let bitmap = (included_upto(included, included.len() as int) + 7) / 8;
    lemma_included_upto(included, 0, included.len() as int);
    if in_bounds(s, pos, bitmap) {
        lemma_row_from_end(
            s,
            pos + bitmap,
            pos,
            types,
            metas,
            included,
            0,
            0,
            Seq::empty(),
        );
    }
}

/// The rows that `rows_from` appends have a value for every column.
pub proof fn lemma_rows_from_are_whole(
    s: Seq<u8>,
    pos: int,
    types: Seq<u8>,
    metas: Seq<u16>,
    included: Seq<bool>,
    acc: Seq<Seq<ColumnValueView>>,
)
    requires
        forall|i: int| 0 <= i < acc.len() ==> (#[trigger] acc[i]).len() == types.len(),
    ensures
        rows_from(s, pos, types, metas, included, acc) matches Some(rows) ==> forall|i: int|
            0 <= i < rows.len() ==> (#[trigger] rows[i]).len() == types.len(),
    decreases s.len() - pos,
{
    if pos < s.len() {
        lemma_row_length(s, pos, types, metas, included);
        match row_at(s, pos, types, metas, included) {
            None => {},
            Some((row, next)) => {
                if next > pos && next <= s.len() {
                    lemma_rows_from_are_whole(s, next, types, metas, included, acc.push(row));
                }
            },
        }
    }
}

/// The pairs that `pairs_from` appends have a value for every column, in
/// both rows.
pub proof fn lemma_pairs_from_are_whole(
    s: Seq<u8>,
    pos: int,
    types: Seq<u8>,
    metas: Seq<u16>,
    before: Seq<bool>,
    after: Seq<bool>,
    acc: Seq<(Seq<ColumnValueView>, Seq<ColumnValueView>)>,
)
    requires
        forall|i: int|
            0 <= i < acc.len() ==> (#[trigger] acc[i]).0.len() == types.len() && acc[i].1.len()
                == types.len(),
    ensures
        pairs_from(s, pos, types, metas, before, after, acc) matches Some(rows) ==> forall|i: int|
            0 <= i < rows.len() ==> (#[trigger] rows[i]).0.len() == types.len() && rows[i].1.len()
                == types.len(),
    decreases s.len() - pos,
{
    if pos < s.len() {
        lemma_row_length(s, pos, types, metas, before);
        match row_at(s, pos, types, metas, before) {
            None => {},
            Some((old_row, middle)) => {
                lemma_row_length(s, middle, types, metas, after);
                match row_at(s, middle, types, metas, after) {
                    None => {},
                    Some((new_row, next)) => {
                        if next > pos && next <= s.len() {
                            lemma_pairs_from_are_whole(
                                s,
                                next,
                                types,
                                metas,
                                before,
                                after,
                                acc.push((old_row, new_row)),
                            );
                        }
                    },
                }
            },
        }
    }
}

/// Every row of a row event has exactly one value for each column that
/// the table declares, whichever columns the images hold.
pub proof fn lemma_every_row_is_whole(s: Seq<u8>, extended: bool, table: TableMapView)
    ensures
        rows_of(s, extended, table) matches Some(event) ==> forall|i: int|
            0 <= i < event.rows.len() ==> (#[trigger] event.rows[i]).len()
                == table.column_types.len(),
        update_rows_of(s, extended, table) matches Some(event) ==> forall|i: int|
            0 <= i < event.rows.len() ==> (#[trigger] event.rows[i]).0.len()
                == table.column_types.len() && event.rows[i].1.len() == table.column_types.len(),
{
    reveal(rows_of);
    reveal(update_rows_of);
    if let Some(count_at) = rows_count_at(s, extended) {
        if let Some((count, bitmap_at)) = packed_at(s, count_at) {
            let bitmap = (count + 7) as int / 8;
            lemma_rows_from_are_whole(
                s,
                bitmap_at + bitmap,
                table.column_types,
                table.column_metas,
                bits_at(s, bitmap_at, count as int),
                Seq::empty(),
            );
            lemma_pairs_from_are_whole(
                s,
                bitmap_at + 2 * bitmap,
                table.column_types,
                table.column_metas,
                bits_at(s, bitmap_at, count as int),
                bits_at(s, bitmap_at + bitmap, count as int),
                Seq::empty(),
            );
        }
    }
}

/// Number of bytes of a bitmap of `bits` bits.
fn bitmap_bytes(bits: usize) -> (n: usize)
    ensures
        n == (bits + 7) / 8,
{
    if bits % 8 == 0 {
        bits / 8
    } else {
        bits / 8 + 1
    }
}

/// Counts the columns that an image holds.
fn count_included(included: &Vec<bool>) -> (n: usize)
    ensures
        n == included_upto(included@, included@.len() as int),
{
    let mut n: usize = 0;
    let mut i: usize = 0;
    while i < included.len()
        invariant
            i <= included@.len(),
            n == included_upto(included@, i as int),
            n <= i,
        decreases included@.len() - i,
    {
        if included[i] {
            n = n + 1;
        }
        i = i + 1;
    }
    n
}

/// Decodes the row image at `pos`. Returns the image and the position
/// behind it; fails with `Protocol` where the model has no image.
#[verifier::rlimit(40)]
pub fn decode_row(
    buf: &[u8],
    pos: usize,
    types: &Vec<u8>,
    metas: &Vec<u16>,
    included: &Vec<bool>,
) -> (r: Result<(RowEvent, usize), BinlogError>)
    ensures
        match row_at(buf@, pos as int, types@, metas@, included@) {
            Some((row, next)) => r matches Ok((e, n)) && e@ == row && n == next && row.len()
                == types@.len(),
            None => r matches Err(e) && e == BinlogError::Protocol,
        },
{
    proof {
        reveal(row_at);
        lemma_row_length(buf@, pos as int, types@, metas@, included@);
    }
    if types.len() != metas.len() || types.len() != included.len() {
        return Err(BinlogError::Protocol);
    }
    let held: usize = count_included(included);
    let bitmap: usize = bitmap_bytes(held);
    if !fits(buf, pos, bitmap) {
        return Err(BinlogError::Protocol);
    }
    let mut values: Vec<ColumnValue> = Vec::new();
    let mut at: usize = pos + bitmap;
    let mut rank: usize = 0;
    let mut col: usize = 0;
    assert(values_view(values@) =~= Seq::empty());
    while col < types.len()
        invariant
            col <= types@.len(),
            types@.len() == metas@.len(),
            types@.len() == included@.len(),
            held == included_upto(included@, included@.len() as int),
            bitmap == (held + 7) / 8,
            in_bounds(buf@, pos as int, bitmap as int),
            rank == included_upto(included@, col as int),
            at <= buf@.len() <= usize::MAX,
            row_at(buf@, pos as int, types@, metas@, included@) == row_from(
                buf@,
                at as int,
                pos as int,
                types@,
                metas@,
                included@,
                col as int,
                rank as int,
                values_view(values@),
            ),
        decreases types@.len() - col,
    {
        proof {
            lemma_included_upto(included@, col as int, included@.len() as int);
        }
        let ghost before = values@;
        if !included[col] {
            values.push(ColumnValue::Null);
            assert(values_view(values@) =~= values_view(before).push(ColumnValueView::Null));
        } else if read_bit(buf, pos, rank) {
            values.push(ColumnValue::Null);
            assert(values_view(values@) =~= values_view(before).push(ColumnValueView::Null));
            rank = rank + 1;
        } else {
            let (value, next) = decode_column(buf, at, types[col], metas[col])?;
            proof {
                lemma_column_end(buf@, at as int, types@[col as int], metas@[col as int]);
            }
            values.push(value);
            assert(values_view(values@) =~= values_view(before).push(value@));
            at = next;
            rank = rank + 1;
        }
        col = col + 1;
    }
    Ok((RowEvent { column_values: values }, at))
}

/// Reads the first fields of a row event: the table's id, the number of
/// columns, and the position behind that number.
fn read_rows_start(body: &[u8], extended: bool) -> (r: Option<(u64, usize, usize)>)
    ensures
        match rows_count_at(body@, extended) {
            None => r is None,
            Some(count_at) => match packed_at(body@, count_at) {
                None => r is None,
                Some((count, bitmap_at)) => if count <= usize::MAX {
                    r == Some((le_at(body@, 0, 6) as u64, count as usize, bitmap_at as usize))
                        && bitmap_at <= body@.len() <= usize::MAX
                } else {
                    r is None
                },
            },
        },
{
    if !fits(body, 0, 8) {
        return None;
    }
    proof {
        lemma_pow256_values();
        lemma_le_at_bound(body@, 0, 6);
        lemma_le_at_bound(body@, 8, 2);
    }
    let table_id: u64 = read_le(body, 0, 6);
    let count_at: usize = if extended {
        if !fits(body, 8, 2) {
            return None;
        }
        let extra: usize = read_le(body, 8, 2) as usize;
        if extra < 2 || !fits(body, 8, extra) {
            return None;
        }
        8 + extra
    } else {
        8
    };
    match read_packed(body, count_at) {
        None => None,
        Some((count, bitmap_at)) => {
            if count > usize::MAX as u64 {
                None
            } else {
                Some((table_id, count as usize, bitmap_at))
            }
        },
    }
}

/// Reads the id of the table that a row event belongs to.
pub fn read_rows_table_id(body: &[u8]) -> (r: Option<u64>)
    ensures
        r == rows_table_id(body@),
{
    if !fits(body, 0, 8) {
        return None;
    }
    proof {
        lemma_pow256_values();
        lemma_le_at_bound(body@, 0, 6);
    }
    Some(read_le(body, 0, 6))
}

/// Decodes the body of a write or delete event for a table with layout
/// `table`. `extended` says whether the event is of the second version.
/// Fails with `Protocol` where the model has no rows.
#[verifier::rlimit(40)]
pub fn decode_rows(body: &[u8], extended: bool, table: &TableMapEvent) -> (r: Result<
    RowsEvent,
    BinlogError,
>)
    ensures
        match rows_of(body@, extended, table@) {
            Some(rows) => r matches Ok(e) && e@ == rows,
            None => r matches Err(e) && e == BinlogError::Protocol,
        },
{
    proof {
        reveal(rows_of);
        reveal(update_rows_of);
    }
    let columns: usize = table.column_types.len();
    let (table_id, count, bitmap_at) = match read_rows_start(body, extended) {
        Some(found) => found,
        None => {
            return Err(BinlogError::Protocol);
        },
    };
    let bitmap: usize = bitmap_bytes(count);
    if count != columns || !fits(body, bitmap_at, bitmap) {
        return Err(BinlogError::Protocol);
    }
    let included: Vec<bool> = read_bits(body, bitmap_at, count);
    let start: usize = bitmap_at + bitmap;
    let mut rows: Vec<RowEvent> = Vec::new();
    let mut pos: usize = start;
    assert(rows_view(rows@) =~= Seq::empty());
    while pos < body.len()
        invariant
            pos <= body@.len(),
            rows_of(body@, extended, table@) == match rows_from(
                body@,
                pos as int,
                table@.column_types,
                table@.column_metas,
                included@,
                rows_view(rows@),
            ) {
                None => None,
                Some(all) => Some(
                    RowsView { table_id, included_columns: included@, rows: all },
                ),
            },
        decreases body@.len() - pos,
    {
        let (row, next) = decode_row(
            body,
            pos,
            &table.column_types,
            &table.column_metas,
            &included,
        )?;
        proof {
            lemma_row_end(
                body@,
                pos as int,
                table@.column_types,
                table@.column_metas,
                included@,
            );
        }
        if next <= pos {
            return Err(BinlogError::Protocol);
        }
        let ghost before = rows@;
        rows.push(row);
        assert(rows_view(rows@) =~= rows_view(before).push(row@));
        pos = next;
    }
    Ok(RowsEvent { table_id, included_columns: included, rows })
}

/// Decodes the body of an update event for a table with layout `table`.
/// Fails with `Protocol` where the model has no rows.
#[verifier::rlimit(40)]
pub fn decode_update_rows(body: &[u8], extended: bool, table: &TableMapEvent) -> (r: Result<
    UpdateRowsEvent,
    BinlogError,
>)
    ensures
        match update_rows_of(body@, extended, table@) {
            Some(rows) => r matches Ok(e) && e@ == rows,
            None => r matches Err(e) && e == BinlogError::Protocol,
        },
{
    proof {
        reveal(rows_of);
        reveal(update_rows_of);
    }
    let columns: usize = table.column_types.len();
    let (table_id, count, bitmap_at) = match read_rows_start(body, extended) {
        Some(found) => found,
        None => {
            return Err(BinlogError::Protocol);
        },
    };
    let bitmap: usize = bitmap_bytes(count);
    if count != columns || bitmap > (body.len() - bitmap_at) / 2 {
        return Err(BinlogError::Protocol);
    }
    let before: Vec<bool> = read_bits(body, bitmap_at, count);
    let after: Vec<bool> = read_bits(body, bitmap_at + bitmap, count);
    let start: usize = bitmap_at + 2 * bitmap;
    let mut rows: Vec<(RowEvent, RowEvent)> = Vec::new();
    let mut pos: usize = start;
    assert(pairs_view(rows@) =~= Seq::empty());
    while pos < body.len()
        invariant
            pos <= body@.len(),
            update_rows_of(body@, extended, table@) == match pairs_from(
                body@,
                pos as int,
                table@.column_types,
                table@.column_metas,
                before@,
                after@,
                pairs_view(rows@),
            ) {
                None => None,
                Some(all) => Some(
                    UpdateRowsView {
                        table_id,
                        included_columns_before: before@,
                        included_columns_after: after@,
                        rows: all,
                    },
                ),
            },
        decreases body@.len() - pos,
    {
        let (old_row, middle) = decode_row(
            body,
            pos,
            &table.column_types,
            &table.column_metas,
            &before,
        )?;
        proof {
            lemma_row_end(body@, pos as int, table@.column_types, table@.column_metas, before@);
        }
        let (new_row, next) = decode_row(
            body,
            middle,
            &table.column_types,
            &table.column_metas,
            &after,
        )?;
        proof {
            lemma_row_end(body@, middle as int, table@.column_types, table@.column_metas, after@);
        }
        if next <= pos {
            return Err(BinlogError::Protocol);
        }
        let ghost seen = rows@;
        rows.push((old_row, new_row));
        assert(pairs_view(rows@) =~= pairs_view(seen).push((old_row@, new_row@)));
        pos = next;
    }
    Ok(
        UpdateRowsEvent {
            table_id,
            included_columns_before: before,
            included_columns_after: after,
            rows,
        },
    )
}

} // verus!
