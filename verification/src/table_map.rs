//! Table maps: the layout of a table's columns.

use vstd::prelude::*;
use crate::bytes::{
    be_at, bits_at, copy_range, fits, in_bounds, le_at, lemma_be_at_bound, lemma_le_at_bound,
    lemma_pow256_values, packed_at, read_be, read_bits, read_le, read_packed,
};
use crate::column::{
    TYPE_BIT, TYPE_BLOB, TYPE_DATETIME2, TYPE_DOUBLE, TYPE_ENUM, TYPE_FLOAT, TYPE_GEOMETRY,
    TYPE_JSON, TYPE_NEWDECIMAL, TYPE_SET, TYPE_STRING, TYPE_TIME2, TYPE_TIMESTAMP2, TYPE_VARCHAR,
};
use crate::error::BinlogError;

verus! {

/// The layout of a table's columns, as a table-map event declares it.
#[derive(Debug, Clone, PartialEq, Eq)]
pub struct TableMapEvent {
    pub table_id: u64,
    pub database_name: Vec<u8>,
    pub table_name: Vec<u8>,
    /// The type code of each column, in the table's order.
    pub column_types: Vec<u8>,
    /// The metadata of each column: a length, a precision and scale, or a
    /// number of bytes, as its type asks; `0` for a type without metadata.
    pub column_metas: Vec<u16>,
    /// Whether each column may hold `NULL`.
    pub null_bits: Vec<bool>,
}

/// The mathematical value of a [`TableMapEvent`].
pub struct TableMapView {
    pub table_id: u64,
    pub database_name: Seq<u8>,
    pub table_name: Seq<u8>,
    pub column_types: Seq<u8>,
    pub column_metas: Seq<u16>,
    pub null_bits: Seq<bool>,
}

impl View for TableMapEvent {
    type V = TableMapView;

    open spec fn view(&self) -> TableMapView {
        TableMapView {
            table_id: self.table_id,
            database_name: self.database_name@,
            table_name: self.table_name@,
            column_types: self.column_types@,
            column_metas: self.column_metas@,
            null_bits: self.null_bits@,
        }
    }
}

impl TableMapView {
    /// Every column has a type, a metadata value and a nullability bit.
    pub open spec fn wf(self) -> bool {
        self.column_metas.len() == self.column_types.len() && self.null_bits.len()
            == self.column_types.len()
    }
}

/// Number of bytes of metadata that a table map holds for a column of type
/// `ty`.
pub open spec fn meta_width(ty: u8) -> int {
    if ty == TYPE_FLOAT || ty == TYPE_DOUBLE || ty == TYPE_BLOB || ty == TYPE_JSON || ty
        == TYPE_GEOMETRY || ty == TYPE_TIME2 || ty == TYPE_DATETIME2 || ty == TYPE_TIMESTAMP2 {
        1
    } else if ty == TYPE_BIT || ty == TYPE_VARCHAR || ty == TYPE_NEWDECIMAL || ty == TYPE_STRING
        || ty == TYPE_ENUM || ty == TYPE_SET {
        2
    } else {
        0
    }
}

/// The metadata of a column of type `ty` that stands at `pos`: two bytes
/// are big-endian for `STRING`, `ENUM` and `SET` and little-endian
/// otherwise.
pub open spec fn meta_at(s: Seq<u8>, pos: int, ty: u8) -> u16 {
    if ty == TYPE_STRING || ty == TYPE_ENUM || ty == TYPE_SET {
        be_at(s, pos, 2) as u16
    } else {
        le_at(s, pos, meta_width(ty) as nat) as u16
    }
}

/// The metadata of the columns from `i` on, read from `pos` and appended to
/// `acc`. `None` when the block, which ends at `end`, is too short.
pub open spec fn metas_from(
    s: Seq<u8>,
    pos: int,
    end: int,
    types: Seq<u8>,
    i: int,
    acc: Seq<u16>,
) -> Option<Seq<u16>>
    decreases types.len() - i,
{
    if i < 0 || i >= types.len() {
        Some(acc)
    } else if pos + meta_width(types[i]) > end {
        None
    } else {
        metas_from(
            s,
            pos + meta_width(types[i]),
            end,
            types,
            i + 1,
            acc.push(meta_at(s, pos, types[i])),
        )
    }
}

/// The table map that the body `s` of a table-map event encodes: the table
/// id (6 bytes), flags (2), the schema's name behind its length (1) and
/// before a zero byte, the table's name likewise, the number of columns as a
/// length-encoded integer, one type code per column, the length of the
/// metadata block, the block, and one nullability bit per column. `None`
/// when bytes are missing.
pub open spec fn table_map_of(s: Seq<u8>) -> Option<TableMapView> {
    if !in_bounds(s, 0, 9) || !in_bounds(s, 9, s[8] + 2) {
        None
    } else {
        let table_at = 9 + s[8] + 1;
        if !in_bounds(s, table_at + 1, s[table_at] + 1) {
            None
        } else {
            match packed_at(s, table_at + 1 + s[table_at] + 1) {
                None => None,
                Some((count, types_at)) => if !in_bounds(s, types_at, count as int) {
                    None
                } else {
                    match packed_at(s, types_at + count) {
                        None => None,
                        Some((meta_len, metas_at)) => if !in_bounds(s, metas_at, meta_len as int)
                            || !in_bounds(s, metas_at + meta_len, (count + 7) as int / 8) {
                            None
                        } else {
                            match metas_from(
                                s,
                                metas_at,
                                metas_at + meta_len,
                                s.subrange(types_at, types_at + count),
                                0,
                                Seq::empty(),
                            ) {
                                None => None,
                                Some(metas) => Some(
                                    TableMapView {
                                        table_id: le_at(s, 0, 6) as u64,
                                        database_name: s.subrange(9, 9 + s[8]),
                                        table_name: s.subrange(
                                            table_at + 1,
                                            table_at + 1 + s[table_at],
                                        ),
                                        column_types: s.subrange(types_at, types_at + count),
                                        column_metas: metas,
                                        null_bits: bits_at(s, metas_at + meta_len, count as int),
                                    },
                                ),
                            }
                        },
                    }
                },
            }
        }
    }
}

/// What `metas_from` appends has one entry for each column that is left.
pub proof fn lemma_metas_length(
    s: Seq<u8>,
    pos: int,
    end: int,
    types: Seq<u8>,
    i: int,
    acc: Seq<u16>,
)
    requires
        0 <= i <= types.len(),
    ensures
        metas_from(s, pos, end, types, i, acc) matches Some(metas) ==> metas.len() == acc.len()
            + types.len() - i,
    decreases types.len() - i,
{
    if i < types.len() && pos + meta_width(types[i]) <= end {
        lemma_metas_length(
            s,
            pos + meta_width(types[i]),
            end,
            types,
            i + 1,
            acc.push(meta_at(s, pos, types[i])),
        );
    }
}

/// A table map that was decoded has one metadata value and one nullability
/// bit for each column.
pub proof fn lemma_table_map_wf(s: Seq<u8>)
    ensures
        table_map_of(s) matches Some(t) ==> t.wf(),
{
    if let Some(t) = table_map_of(s) {
        let table_at = 9 + s[8] + 1;
        let (count, types_at) = packed_at(s, table_at + 1 + s[table_at] + 1).unwrap();
        let (meta_len, metas_at) = packed_at(s, types_at + count).unwrap();
        lemma_metas_length(
            s,
            metas_at,
            metas_at + meta_len,
            s.subrange(types_at, types_at + count),
            0,
            Seq::empty(),
        );
    }
}

/// Reads the metadata of every column from the block between `start` and
/// `end`.
fn read_metas(buf: &[u8], start: usize, end: usize, types: &Vec<u8>) -> (r: Option<Vec<u16>>)
    requires
        start <= end <= buf@.len(),
    ensures
        match metas_from(buf@, start as int, end as int, types@, 0, Seq::empty()) {
            Some(metas) => r matches Some(m) && m@ == metas,
            None => r is None,
        },
{
    let mut metas: Vec<u16> = Vec::new();
    let mut pos: usize = start;
    let mut i: usize = 0;
    while i < types.len()
        invariant
            i <= types@.len(),
            start <= pos <= end <= buf@.len(),
            metas_from(buf@, start as int, end as int, types@, 0, Seq::empty()) == metas_from(
                buf@,
                pos as int,
                end as int,
                types@,
                i as int,
                metas@,
            ),
        decreases types@.len() - i,
    {
        let ty: u8 = types[i];
        let width: usize = if ty == TYPE_FLOAT || ty == TYPE_DOUBLE || ty == TYPE_BLOB || ty
            == TYPE_JSON || ty == TYPE_GEOMETRY || ty == TYPE_TIME2 || ty == TYPE_DATETIME2 || ty
            == TYPE_TIMESTAMP2 {
            1
        } else if ty == TYPE_BIT || ty == TYPE_VARCHAR || ty == TYPE_NEWDECIMAL || ty
            == TYPE_STRING || ty == TYPE_ENUM || ty == TYPE_SET {
            2
        } else {
            0
        };
        if width > end - pos {
            return None;
        }
        proof {
            lemma_pow256_values();
            lemma_le_at_bound(buf@, pos as int, width as nat);
            lemma_be_at_bound(buf@, pos as int, 2);
        }
        let meta: u16 = if ty == TYPE_STRING || ty == TYPE_ENUM || ty == TYPE_SET {
            read_be(buf, pos, 2) as u16
        } else {
            read_le(buf, pos, width) as u16
        };
        metas.push(meta);
        pos = pos + width;
        i = i + 1;
    }
    Some(metas)
}

impl TableMapEvent {
    /// Decodes the body of a table-map event. Fails with `Protocol` exactly
    /// when the body is cut short.
    pub fn parse(body: &[u8]) -> (r: Result<TableMapEvent, BinlogError>)
        ensures
            match table_map_of(body@) {
                Some(t) => r matches Ok(e) && e@ == t && t.wf(),
                None => r matches Err(e) && e == BinlogError::Protocol,
            },
    {
        proof {
            lemma_table_map_wf(body@);
            lemma_pow256_values();
            lemma_le_at_bound(body@, 0, 6);
        }
        if !fits(body, 0, 9) {
            return Err(BinlogError::Protocol);
        }
        let schema_len: usize = body[8] as usize;
        if !fits(body, 9, schema_len + 2) {
            return Err(BinlogError::Protocol);
        }
        let table_at: usize = 9 + schema_len + 1;
        let table_len: usize = body[table_at] as usize;
        if !fits(body, table_at + 1, table_len + 1) {
            return Err(BinlogError::Protocol);
        }
        let (count, types_at) = match read_packed(body, table_at + 1 + table_len + 1) {
            Some(found) => found,
            None => {
                return Err(BinlogError::Protocol);
            },
        };
        if count > (body.len() - types_at) as u64 {
            return Err(BinlogError::Protocol);
        }
        let count: usize = count as usize;
        let column_types: Vec<u8> = copy_range(body, types_at, types_at + count);
        let (meta_len, metas_at) = match read_packed(body, types_at + count) {
            Some(found) => found,
            None => {
                return Err(BinlogError::Protocol);
            },
        };
        if meta_len > (body.len() - metas_at) as u64 {
            return Err(BinlogError::Protocol);
        }
        let nulls_at: usize = metas_at + meta_len as usize;
        if !fits(body, nulls_at, (count + 7) / 8) {
            return Err(BinlogError::Protocol);
        }
        let column_metas: Vec<u16> = match read_metas(body, metas_at, nulls_at, &column_types) {
            Some(found) => found,
            None => {
                return Err(BinlogError::Protocol);
            },
        };
        Ok(
            TableMapEvent {
                table_id: read_le(body, 0, 6),
                database_name: copy_range(body, 9, 9 + schema_len),
                table_name: copy_range(body, table_at + 1, table_at + 1 + table_len),
                column_types,
                column_metas,
                null_bits: read_bits(body, nulls_at, count),
            },
        )
    }
}

} // verus!
