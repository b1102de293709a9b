//! How the server writes table maps, and the proof that a table map that
//! is written is decoded to itself.

use vstd::prelude::*;
use crate::bytes::{
    be_bytes, bits_at, in_bounds, le_at, le_bytes, lemma_be_bytes_read_back,
    lemma_le_bytes_read_back, lemma_pow256_values, packed_at, pow256,
};
use crate::column::{TYPE_ENUM, TYPE_SET, TYPE_STRING};
use crate::rows_encode::{
    bitmap_of, lemma_bitmap_is_read_back, lemma_packed_int_is_read_back, packed_int,
};
use crate::table_map::{meta_at, meta_width, metas_from, table_map_of, TableMapView};

verus! {

/// The bytes of the metadata `meta` of a column of type `ty`.
pub open spec fn encoded_meta(ty: u8, meta: u16) -> Seq<u8> {
    if ty == TYPE_STRING || ty == TYPE_ENUM || ty == TYPE_SET {
        be_bytes(meta as int, 2)
    } else {
        le_bytes(meta as int, meta_width(ty) as nat)
    }
}

/// Whether a column of type `ty` can have the metadata `meta`: as much
/// as the bytes for it hold.
pub open spec fn meta_fits(ty: u8, meta: u16) -> bool {
    meta < pow256(meta_width(ty) as nat)
}

/// The bytes of the metadata of the columns from `i` on.
pub open spec fn encoded_metas(types: Seq<u8>, metas: Seq<u16>, i: int) -> Seq<u8>
    decreases types.len() - i,
{
    if i < 0 || i >= types.len() {
        Seq::empty()
    } else {
        encoded_meta(types[i], metas[i]) + encoded_metas(types, metas, i + 1)
    }
}

/// Whether the table map `t` can be written: its columns have a type, a
/// metadata value that fits the type and a nullability bit each, its
/// names are shorter than 256 bytes, and its id has 6 bytes.
pub open spec fn table_map_encodable(t: TableMapView) -> bool {
    &&& t.wf()
    &&& t.table_id < 0x1_0000_0000_0000
    &&& t.database_name.len() < 256
    &&& t.table_name.len() < 256
    &&& t.column_types.len() <= u64::MAX
    &&& encoded_metas(t.column_types, t.column_metas, 0).len() <= u64::MAX
    &&& forall|i: int|
        0 <= i < t.column_types.len() ==> meta_fits(#[trigger] t.column_types[i], t.column_metas[i])
}

/// The fields of a table map in front of its columns: the table's id,
/// flags, and the two names, each behind its length and before a zero
/// byte.
pub open spec fn table_map_head(t: TableMapView) -> Seq<u8> {
    le_bytes(t.table_id as int, 6) + le_bytes(0, 2) + seq![t.database_name.len() as u8]
        + t.database_name + seq![0u8] + seq![t.table_name.len() as u8] + t.table_name + seq![0u8]
}

/// The body of the event that declares the table map `t`.
pub open spec fn encoded_table_map(t: TableMapView) -> Seq<u8> {
    table_map_head(t) + packed_int(t.column_types.len()) + t.column_types + packed_int(
        encoded_metas(t.column_types, t.column_metas, 0).len(),
    ) + encoded_metas(t.column_types, t.column_metas, 0) + bitmap_of(t.null_bits)
}

/// The metadata of one column that is written is read back.
pub proof fn lemma_meta_is_read_back(ty: u8, meta: u16, before: Seq<u8>, after: Seq<u8>)
    requires
        meta_fits(ty, meta),
    ensures
        encoded_meta(ty, meta).len() == meta_width(ty),
        meta_at(before + encoded_meta(ty, meta) + after, before.len() as int, ty) == meta,
{
    lemma_pow256_values();
    let n = meta_width(ty) as nat;
    if ty == TYPE_STRING || ty == TYPE_ENUM || ty == TYPE_SET {
        lemma_be_bytes_read_back(meta as int, 2, before, after);
    } else {
        lemma_le_bytes_read_back(meta as int, n, before, after);
    }
    vstd::arithmetic::div_mod::lemma_small_mod(meta as nat, pow256(n));
}

/// The metadata of the columns from `i` on that is written behind
/// `front`, up to the end of the block, is read back.
pub proof fn lemma_metas_are_read_back(
    types: Seq<u8>,
    metas: Seq<u16>,
    front: Seq<u8>,
    after: Seq<u8>,
    i: int,
)
    requires
        types.len() == metas.len(),
        0 <= i <= types.len(),
        forall|k: int| 0 <= k < types.len() ==> meta_fits(#[trigger] types[k], metas[k]),
    ensures
        metas_from(
            front + encoded_metas(types, metas, i) + after,
            front.len() as int,
            (front.len() + encoded_metas(types, metas, i).len()) as int,
            types,
            i,
            metas.subrange(0, i),
        ) == Some(metas),
    decreases types.len() - i,
{
    let rest = encoded_metas(types, metas, i);
    let s = front + rest + after;
    if i >= types.len() {
        assert(metas.subrange(0, i) =~= metas);
    } else {
        let one = encoded_meta(types[i], metas[i]);
        let tail = encoded_metas(types, metas, i + 1);
        assert(meta_fits(types[i], metas[i]));
        assert(s =~= front + one + (tail + after));
        lemma_meta_is_read_back(types[i], metas[i], front, tail + after);
        assert(metas.subrange(0, i).push(metas[i]) =~= metas.subrange(0, i + 1));
        assert(s =~= (front + one) + tail + after);
        lemma_metas_are_read_back(types, metas, front + one, after, i + 1);
    }
}

/// Number of bytes of the schema's name.
pub open spec fn schema_length(t: TableMapView) -> int {
    t.database_name.len() as int
}

/// Number of bytes of the table's name.
pub open spec fn name_length(t: TableMapView) -> int {
    t.table_name.len() as int
}

/// The fields in front of the columns of a table map that are written
/// are read back.
pub proof fn lemma_table_map_head_is_read_back(t: TableMapView, rest: Seq<u8>)
    requires
        t.table_id < 0x1_0000_0000_0000,
        t.database_name.len() < 256,
        t.table_name.len() < 256,
    ensures
        table_map_head(t).len() == 12 + schema_length(t) + name_length(t),
        le_at(table_map_head(t) + rest, 0, 6) == t.table_id,
        (table_map_head(t) + rest)[8] == schema_length(t),
        (table_map_head(t) + rest).subrange(9, 9 + schema_length(t)) == t.database_name,
        (table_map_head(t) + rest)[10 + schema_length(t)] == name_length(t),
        (table_map_head(t) + rest).subrange(
            11 + schema_length(t),
            11 + schema_length(t) + name_length(t),
        ) == t.table_name,
{
    let s = table_map_head(t) + rest;
    let id = le_bytes(t.table_id as int, 6);
    let tail = le_bytes(0, 2) + seq![schema_length(t) as u8] + t.database_name + seq![0u8]
        + seq![name_length(t) as u8] + t.table_name + seq![0u8] + rest;
    let empty = Seq::<u8>::empty();
    lemma_pow256_values();
    assert(s =~= empty + id + tail);
    lemma_le_bytes_read_back(t.table_id as int, 6, empty, tail);
    vstd::arithmetic::div_mod::lemma_small_mod(t.table_id as nat, pow256(6));
    assert(s.subrange(9, 9 + schema_length(t)) =~= t.database_name);
    assert(s.subrange(11 + schema_length(t), 11 + schema_length(t) + name_length(t))
        =~= t.table_name);
}

/// What the body of a table-map event holds, given what its parts hold.
proof fn lemma_table_map_assembled(
    s: Seq<u8>,
    t: TableMapView,
    types_at: int,
    metas_at: int,
    meta_len: nat,
)
    requires
        t.wf(),
        in_bounds(s, 0, 12 + schema_length(t) + name_length(t)),
        le_at(s, 0, 6) == t.table_id,
        s[8] == schema_length(t),
        s.subrange(9, 9 + schema_length(t)) == t.database_name,
        s[10 + schema_length(t)] == name_length(t),
        s.subrange(11 + schema_length(t), 11 + schema_length(t) + name_length(t))
            == t.table_name,
        packed_at(s, 12 + schema_length(t) + name_length(t)) == Some(
            (t.column_types.len(), types_at),
        ),
        in_bounds(s, types_at, t.column_types.len() as int),
        s.subrange(types_at, types_at + t.column_types.len() as int) == t.column_types,
        packed_at(s, types_at + t.column_types.len() as int) == Some((meta_len, metas_at)),
        in_bounds(s, metas_at, meta_len as int),
        in_bounds(s, metas_at + meta_len as int, (t.column_types.len() + 7) as int / 8),
        metas_from(s, metas_at, metas_at + meta_len as int, t.column_types, 0, Seq::empty())
            == Some(t.column_metas),
        bits_at(s, metas_at + meta_len as int, t.column_types.len() as int) == t.null_bits,
    ensures
        table_map_of(s) == Some(t),
{
}

/// A table map that is written is decoded to itself: for every table map
/// that can be written, decoding the body of the event that declares it
/// gives the table map, whatever follows it in the body.
#[verifier::rlimit(40)]
pub proof fn lemma_table_map_round_trip(t: TableMapView, more: Seq<u8>)
    requires
        table_map_encodable(t),
    ensures
        table_map_of(encoded_table_map(t) + more) == Some(t),
{
    let s = encoded_table_map(t) + more;
    let head = table_map_head(t);
    let types = t.column_types;
    let count = packed_int(types.len());
    let block = encoded_metas(types, t.column_metas, 0);
    let size = packed_int(block.len());
    let nulls = bitmap_of(t.null_bits);
    let types_at = (head + count).len() as int;
    let metas_at = (head + count + types + size).len() as int;
    assert(s =~= head + (count + types + size + block + nulls + more));
    lemma_table_map_head_is_read_back(t, count + types + size + block + nulls + more);
    assert(packed_at(s, head.len() as int) == Some((types.len(), types_at))) by {
        assert(s =~= head + count + (types + size + block + nulls + more));
        lemma_packed_int_is_read_back(types.len(), head, types + size + block + nulls + more);
    }
    assert(s.subrange(types_at, types_at + types.len() as int) =~= types);
    assert(packed_at(s, types_at + types.len() as int) == Some((block.len(), metas_at))) by {
        assert(s =~= (head + count + types) + size + (block + nulls + more));
        lemma_packed_int_is_read_back(block.len(), head + count + types, block + nulls + more);
    }
    assert(metas_from(s, metas_at, metas_at + block.len() as int, types, 0, Seq::empty()) == Some(
        t.column_metas,
    )) by {
        assert(s =~= (head + count + types + size) + block + (nulls + more));
        lemma_metas_are_read_back(
            types,
            t.column_metas,
            head + count + types + size,
            nulls + more,
            0,
        );
        assert(t.column_metas.subrange(0, 0) =~= Seq::<u16>::empty());
    }
    assert(bits_at(s, metas_at + block.len() as int, types.len() as int) == t.null_bits) by {
        assert(s =~= (head + count + types + size + block) + nulls + more);
        lemma_bitmap_is_read_back(t.null_bits, head + count + types + size + block, more);
    }
    assert(nulls.len() == (types.len() + 7) / 8);
    lemma_table_map_assembled(s, t, types_at, metas_at, block.len());
}

} // verus!
