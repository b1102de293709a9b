//! The decoder of events with the table maps that it keeps, and reading
//! events from a log held in memory.

use std::collections::HashMap;
use vstd::prelude::*;
use crate::bytes::{fits, in_bounds};
use crate::error::BinlogError;
use crate::event::{
    event_of, is_row_event, row_event_of, tables_after, EVENT_DELETE_ROWS, EVENT_DELETE_ROWS_V1,
    EVENT_GTID, EVENT_HEARTBEAT, EVENT_QUERY, EVENT_ROTATE, EVENT_TABLE_MAP, EVENT_UPDATE_ROWS,
    EVENT_UPDATE_ROWS_V1, EVENT_WRITE_ROWS, EVENT_WRITE_ROWS_V1, EVENT_XID, EventData,
    EventDataView, GtidEvent, QueryEvent, RotateEvent, XidEvent,
};
use crate::frame::{frame_body, frame_end, frame_ok, read_frame};
use crate::header::{header_at, EventHeader};
use crate::rows::{decode_rows, decode_update_rows, read_rows_table_id, rows_table_id};
use crate::table_map::{table_map_of, TableMapEvent, TableMapView};

verus! {

broadcast use vstd::std_specs::hash::group_hash_axioms;

/// The table maps of `m` as mathematical values.
pub open spec fn tables_view(m: Map<u64, TableMapEvent>) -> Map<u64, TableMapView> {
    m.map_values(|t: TableMapEvent| t@)
}

/// Bytes of a binary log held in memory, and how far they have been read.
pub struct BinlogSource {
    pub bytes: Vec<u8>,
    pub position: usize,
}

/// A decoder of binary-log events. It keeps the table maps that it has
/// seen, by table id, and decodes row events with them.
pub struct BinlogParser {
    /// Number of bytes of the checksum at the end of every event; `0`
    /// where events carry none.
    pub checksum_length: usize,
    pub table_map_event_by_table_id: HashMap<u64, TableMapEvent>,
}

/// Whether the four bytes of a binary-log file's magic stand at `pos`.
pub open spec fn has_magic(s: Seq<u8>, pos: int) -> bool {
    in_bounds(s, pos, 4) && s[pos] == 0xfe && s[pos + 1] == 0x62 && s[pos + 2] == 0x69 && s[pos
        + 3] == 0x6e
}

/// What reading one event at `pos` gives: nothing at the end of the bytes,
/// a `Protocol` error where no whole event stands, and otherwise the
/// event's header with what its body, without the checksum, holds.
pub open spec fn step_of(
    s: Seq<u8>,
    pos: int,
    checksum_length: int,
    tables: Map<u64, TableMapView>,
) -> Result<
    Option<(EventHeader, EventDataView)>,
    BinlogError,
> {
    if pos >= s.len() {
        Ok(None)
    } else if !frame_ok(s, pos, checksum_length) {
        Err(BinlogError::Protocol)
    } else {
        match event_of(
            header_at(s, pos).event_type,
            frame_body(s, pos, checksum_length),
            tables,
        ) {
            Ok(data) => Ok(Some((header_at(s, pos), data))),
            Err(e) => Err(e),
        }
    }
}

/// The table maps that are known behind the event at `pos`.
pub open spec fn tables_behind(
    s: Seq<u8>,
    pos: int,
    checksum_length: int,
    tables: Map<u64, TableMapView>,
) -> Map<u64, TableMapView> {
    tables_after(header_at(s, pos).event_type, frame_body(s, pos, checksum_length), tables)
}

impl TableMapEvent {
    /// A copy of the table map.
    pub fn duplicate(&self) -> (copy: TableMapEvent)
        ensures
            copy@ == self@,
    {
        TableMapEvent {
            table_id: self.table_id,
            database_name: vstd::slice::slice_to_vec(self.database_name.as_slice()),
            table_name: vstd::slice::slice_to_vec(self.table_name.as_slice()),
            column_types: vstd::slice::slice_to_vec(self.column_types.as_slice()),
            column_metas: vstd::slice::slice_to_vec(self.column_metas.as_slice()),
            null_bits: vstd::slice::slice_to_vec(self.null_bits.as_slice()),
        }
    }
}

impl BinlogParser {
    /// The table maps seen so far, by table id.
    pub open spec fn tables(&self) -> Map<u64, TableMapView> {
        tables_view(self.table_map_event_by_table_id@)
    }

    /// A decoder that has seen no table map.
    pub fn new(checksum_length: usize) -> (parser: BinlogParser)
        ensures
            parser.checksum_length == checksum_length,
            parser.tables() == Map::<u64, TableMapView>::empty(),
    {
        let parser = BinlogParser { checksum_length, table_map_event_by_table_id: HashMap::new() };
        assert(parser.tables() =~= Map::<u64, TableMapView>::empty());
        parser
    }

    /// Decodes the body of a row event with the table map of its table.
    fn parse_rows(&self, event_type: u8, body: &[u8]) -> (r: Result<EventData, BinlogError>)
        requires
            is_row_event(event_type),
        ensures
            match event_of(event_type, body@, self.tables()) {
                Ok(v) => r matches Ok(d) && d@ == v,
                Err(e) => r matches Err(x) && x == e,
            },
    {
        let id: u64 = match read_rows_table_id(body) {
            Some(id) => id,
            None => {
                return Err(BinlogError::Protocol);
            },
        };
        let table: &TableMapEvent = match self.table_map_event_by_table_id.get(&id) {
            Some(table) => table,
            None => {
                return Err(BinlogError::UnknownTable(id));
            },
        };
        assert(self.tables().contains_key(id) && self.tables()[id] == table@);
        let extended: bool = event_type >= EVENT_WRITE_ROWS;
        if event_type == EVENT_UPDATE_ROWS_V1 || event_type == EVENT_UPDATE_ROWS {
            Ok(EventData::UpdateRows(decode_update_rows(body, extended, table)?))
        } else if event_type == EVENT_WRITE_ROWS_V1 || event_type == EVENT_WRITE_ROWS {
            Ok(EventData::WriteRows(decode_rows(body, extended, table)?))
        } else {
            Ok(EventData::DeleteRows(decode_rows(body, extended, table)?))
        }
    }

    /// Decodes the body of the event with header `header`. `body` is the
    /// event without its header and without its checksum. A table map is
    /// kept, in place of an earlier one for the same table id, before it is
    /// returned; a row event is decoded with the table map kept for its
    /// table id, and is an `UnknownTable` error where none is kept. When
    /// decoding fails, the table maps that are kept stay as they were.
    pub fn parse(&mut self, header: &EventHeader, body: &[u8]) -> (r: Result<
        EventData,
        BinlogError,
    >)
        ensures
            match event_of(header.event_type, body@, old(self).tables()) {
                Ok(v) => r matches Ok(d) && d@ == v,
                Err(e) => r matches Err(x) && x == e,
            },
            final(self).tables() == tables_after(header.event_type, body@, old(self).tables()),
            final(self).checksum_length == old(self).checksum_length,
            r is Err ==> final(self).table_map_event_by_table_id@
                == old(self).table_map_event_by_table_id@,
            forall|id: u64|
                is_row_event(header.event_type) && rows_table_id(body@) == Some(id)
                    && !old(self).tables().contains_key(id) ==> r == Err::<EventData, BinlogError>(
                    BinlogError::UnknownTable(id),
                ),
    {
        let event_type: u8 = header.event_type;
        if event_type == EVENT_QUERY {
            Ok(EventData::Query(QueryEvent::parse(body)?))
        } else if event_type == EVENT_ROTATE {
            Ok(EventData::Rotate(RotateEvent::parse(body)?))
        } else if event_type == EVENT_XID {
            Ok(EventData::Xid(XidEvent::parse(body)?))
        } else if event_type == EVENT_GTID {
            Ok(EventData::Gtid(GtidEvent::parse(body)?))
        } else if event_type == EVENT_HEARTBEAT {
            Ok(EventData::Heartbeat)
        } else if event_type == EVENT_TABLE_MAP {
            let table: TableMapEvent = TableMapEvent::parse(body)?;
            let kept: TableMapEvent = table.duplicate();
            self.table_map_event_by_table_id.insert(table.table_id, kept);
            assert(self.tables() =~= old(self).tables().insert(table.table_id, table@));
            Ok(EventData::TableMap(table))
        } else if event_type == EVENT_WRITE_ROWS_V1 || event_type == EVENT_UPDATE_ROWS_V1
            || event_type == EVENT_DELETE_ROWS_V1 || event_type == EVENT_WRITE_ROWS || event_type
            == EVENT_UPDATE_ROWS || event_type == EVENT_DELETE_ROWS {
            self.parse_rows(event_type, body)
        } else {
            Ok(EventData::Unknown(vstd::slice::slice_to_vec(body)))
        }
    }

    /// Reads the magic of a binary-log file, the bytes `fe 62 69 6e`, at
    /// the source's position and moves behind it. Fails with `Format`,
    /// and moves nothing, exactly when other bytes or fewer stand there.
    pub fn check_magic(&self, source: &mut BinlogSource) -> (r: Result<(), BinlogError>)
        ensures
            final(source).bytes@ == old(source).bytes@,
            has_magic(old(source).bytes@, old(source).position as int) ==> r is Ok
                && final(source).position == old(source).position + 4,
            !has_magic(old(source).bytes@, old(source).position as int) ==> r == Err::<
                (),
                BinlogError,
            >(BinlogError::Format) && final(source).position == old(source).position,
    {
        let at: usize = source.position;
        if !fits(source.bytes.as_slice(), at, 4) {
            return Err(BinlogError::Format);
        }
        if source.bytes[at] != 0xfe || source.bytes[at + 1] != 0x62 || source.bytes[at + 2] != 0x69
            || source.bytes[at + 3] != 0x6e {
            return Err(BinlogError::Format);
        }
        source.position = at + 4;
        Ok(())
    }

    /// Reads the event at the source's position, decodes it, and moves
    /// behind it. Returns `None` at the end of the source. Of every event
    /// the last `checksum_length` bytes are left out of what is decoded.
    /// When reading or decoding fails, the source and the table maps that
    /// are kept stay as they were.
    pub fn next(&mut self, source: &mut BinlogSource) -> (r: Result<
        Option<(EventHeader, EventData)>,
        BinlogError,
    >)
        ensures
            final(source).bytes@ == old(source).bytes@,
            final(self).checksum_length == old(self).checksum_length,
            match step_of(
                old(source).bytes@,
                old(source).position as int,
                old(self).checksum_length as int,
                old(self).tables(),
            ) {
                Ok(None) => r matches Ok(None) && final(source).position == old(source).position
                    && final(self).tables() == old(self).tables(),
                Ok(Some((header, data))) => r matches Ok(Some((h, d))) && h == header && d@ == data
                    && final(source).position == frame_end(
                    old(source).bytes@,
                    old(source).position as int,
                ) && final(self).tables() == tables_behind(
                    old(source).bytes@,
                    old(source).position as int,
                    old(self).checksum_length as int,
                    old(self).tables(),
                ),
                Err(e) => r matches Err(x) && x == e && final(source).position
                    == old(source).position && final(self).table_map_event_by_table_id@
                    == old(self).table_map_event_by_table_id@,
            },
    {
        if source.position >= source.bytes.len() {
            return Ok(None);
        }
        let frame = read_frame(source.bytes.as_slice(), source.position, self.checksum_length)?;
        let data: EventData = self.parse(&frame.header, frame.body)?;
        let header: EventHeader = frame.header;
        source.position = frame.end;
        Ok(Some((header, data)))
    }
}

/// A row event whose table was never mapped is refused, and changes
/// nothing: where `tables` holds no table map for the table id of a row
/// event, decoding the event is an `UnknownTable` error with that id, and
/// the table maps behind the event are those before it.
pub proof fn lemma_unmapped_table_is_refused(
    event_type: u8,
    body: Seq<u8>,
    tables: Map<u64, TableMapView>,
    id: u64,
)
    requires
        is_row_event(event_type),
        rows_table_id(body) == Some(id),
        !tables.contains_key(id),
    ensures
        event_of(event_type, body, tables) == Err::<EventDataView, BinlogError>(
            BinlogError::UnknownTable(id),
        ),
        tables_after(event_type, body, tables) == tables,
{
}

/// A table becomes known only through its own table map: where `tables`
/// holds no table map for `id`, the table maps behind an event hold one
/// only if the event is a table map for `id`.
pub proof fn lemma_table_is_known_by_its_map_only(
    event_type: u8,
    body: Seq<u8>,
    tables: Map<u64, TableMapView>,
    id: u64,
)
    requires
        !tables.contains_key(id),
        tables_after(event_type, body, tables).contains_key(id),
    ensures
        event_type == EVENT_TABLE_MAP,
        table_map_of(body) matches Some(t) && t.table_id == id,
{
}

/// A table map takes the place of an earlier one: behind a table map for a
/// table id, a row event of that table is decoded with the layout that
/// this table map declares, whatever was known for the id before.
pub proof fn lemma_redefined_table_is_decoded_anew(
    map_body: Seq<u8>,
    tables: Map<u64, TableMapView>,
    event_type: u8,
    rows_body: Seq<u8>,
)
    requires
        table_map_of(map_body) is Some,
        is_row_event(event_type),
        rows_table_id(rows_body) == Some(table_map_of(map_body).unwrap().table_id),
    ensures
        event_of(event_type, rows_body, tables_after(EVENT_TABLE_MAP, map_body, tables))
            == row_event_of(event_type, rows_body, table_map_of(map_body).unwrap()),
{
}

/// Little-endian values are read alike from byte strings that agree on the
/// bytes read.
pub proof fn lemma_le_at_same(s: Seq<u8>, t: Seq<u8>, from: int, to: int, pos: int, n: nat)
    requires
        0 <= from <= pos,
        pos + n <= to,
        to <= s.len(),
        to <= t.len(),
        s.subrange(from, to) == t.subrange(from, to),
    ensures
        crate::bytes::le_at(s, pos, n) == crate::bytes::le_at(t, pos, n),
    decreases n,
{
    if n > 0 {
        assert(s[pos] == s.subrange(from, to)[pos - from]);
        assert(t[pos] == t.subrange(from, to)[pos - from]);
        lemma_le_at_same(s, t, from, to, pos + 1, (n - 1) as nat);
    }
}

/// The header is read alike from byte strings that agree on its 19 bytes.
pub proof fn lemma_header_same(s: Seq<u8>, t: Seq<u8>, pos: int)
    requires
        in_bounds(s, pos, 19),
        in_bounds(t, pos, 19),
        s.subrange(pos, pos + 19) == t.subrange(pos, pos + 19),
    ensures
        header_at(s, pos) == header_at(t, pos),
{
    lemma_le_at_same(s, t, pos, pos + 19, pos, 4);
    lemma_le_at_same(s, t, pos, pos + 19, pos + 5, 4);
    lemma_le_at_same(s, t, pos, pos + 19, pos + 9, 4);
    lemma_le_at_same(s, t, pos, pos + 19, pos + 13, 4);
    lemma_le_at_same(s, t, pos, pos + 19, pos + 17, 2);
    assert(s[pos + 4] == s.subrange(pos, pos + 19)[4]);
    assert(t[pos + 4] == t.subrange(pos, pos + 19)[4]);
}

/// The checksum is never decoded: two byte strings that differ only in
/// the last `checksum_length` bytes of the event at `pos` give the same
/// result there. Without a checksum, the body that is decoded is all of
/// the event behind its header.
pub proof fn lemma_checksum_is_left_out(
    s: Seq<u8>,
    t: Seq<u8>,
    pos: int,
    checksum_length: int,
    tables: Map<u64, TableMapView>,
)
    requires
        0 <= checksum_length,
        frame_ok(s, pos, checksum_length),
        s.len() == t.len(),
        forall|i: int|
            0 <= i < s.len() && !(frame_end(s, pos) - checksum_length <= i < frame_end(s, pos))
                ==> s[i] == t[i],
    ensures
        step_of(s, pos, checksum_length, tables) == step_of(t, pos, checksum_length, tables),
        frame_body(s, pos, checksum_length).len() == header_at(s, pos).event_length - 19
            - checksum_length,
        checksum_length == 0 ==> frame_body(s, pos, checksum_length) == s.subrange(
            pos + 19,
            frame_end(s, pos),
        ),
{
    assert(s.subrange(pos, pos + 19) =~= t.subrange(pos, pos + 19));
    lemma_header_same(s, t, pos);
    assert(frame_body(s, pos, checksum_length) =~= frame_body(t, pos, checksum_length));
}

} // verus!
