//! What events hold, and the decoding of an event's body by its type.

use vstd::prelude::*;
use crate::bytes::{
    be_at, copy_range, fits, in_bounds, le_at, lemma_le_at_bound, lemma_pow256_values, read_be,
    read_le,
};
use crate::error::BinlogError;
use crate::rows::{
    rows_of, rows_table_id, update_rows_of, RowsEvent, RowsView, UpdateRowsEvent, UpdateRowsView,
};
use crate::table_map::{table_map_of, TableMapEvent, TableMapView};

verus! {

/// Type code of the event that holds a statement.
pub const EVENT_QUERY: u8 = 2;

/// Type code of the event that holds the change to another log file.
pub const EVENT_ROTATE: u8 = 4;

/// Type code of the event that holds the commit of a transaction.
pub const EVENT_XID: u8 = 16;

/// Type code of the event that holds a table map.
pub const EVENT_TABLE_MAP: u8 = 19;

/// Type code of the event that holds written rows, in the first version.
pub const EVENT_WRITE_ROWS_V1: u8 = 23;

/// Type code of the event that holds updated rows, in the first version.
pub const EVENT_UPDATE_ROWS_V1: u8 = 24;

/// Type code of the event that holds deleted rows, in the first version.
pub const EVENT_DELETE_ROWS_V1: u8 = 25;

/// Type code of the event that holds a heartbeat.
pub const EVENT_HEARTBEAT: u8 = 27;

/// Type code of the event that holds written rows.
pub const EVENT_WRITE_ROWS: u8 = 30;

/// Type code of the event that holds updated rows.
pub const EVENT_UPDATE_ROWS: u8 = 31;

/// Type code of the event that holds deleted rows.
pub const EVENT_DELETE_ROWS: u8 = 32;

/// Type code of the event that holds a global transaction identifier.
pub const EVENT_GTID: u8 = 33;

/// A statement that the server executed.
#[derive(Debug, Clone, PartialEq, Eq)]
pub struct QueryEvent {
    pub thread_id: u32,
    /// Seconds that the statement took.
    pub exec_time: u32,
    pub error_code: u16,
    /// The default schema of the statement.
    pub schema: Vec<u8>,
    /// The text of the statement.
    pub query: Vec<u8>,
}

/// The mathematical value of a [`QueryEvent`].
pub struct QueryView {
    pub thread_id: u32,
    pub exec_time: u32,
    pub error_code: u16,
    pub schema: Seq<u8>,
    pub query: Seq<u8>,
}

impl View for QueryEvent {
    type V = QueryView;

    open spec fn view(&self) -> QueryView {
        QueryView {
            thread_id: self.thread_id,
            exec_time: self.exec_time,
            error_code: self.error_code,
            schema: self.schema@,
            query: self.query@,
        }
    }
}

/// The log goes on in another file.
#[derive(Debug, Clone, PartialEq, Eq)]
pub struct RotateEvent {
    /// Name of the file in which the log goes on.
    pub binlog_filename: Vec<u8>,
    /// Position in that file of its first event.
    pub binlog_position: u64,
}

/// The mathematical value of a [`RotateEvent`].
pub struct RotateView {
    pub binlog_filename: Seq<u8>,
    pub binlog_position: u64,
}

impl View for RotateEvent {
    type V = RotateView;

    open spec fn view(&self) -> RotateView {
        RotateView {
            binlog_filename: self.binlog_filename@,
            binlog_position: self.binlog_position,
        }
    }
}

/// A transaction was committed.
#[derive(Debug, Clone, Copy, PartialEq, Eq, Structural)]
pub struct XidEvent {
    pub xid: u64,
}

/// The global identifier of the transaction that follows.
#[derive(Debug, Clone, Copy, PartialEq, Eq, Structural)]
pub struct GtidEvent {
    pub flags: u8,
    /// The 16 bytes of the originating server's UUID, as a big-endian
    /// number.
    pub source_id: u128,
    /// The number of the transaction on that server.
    pub transaction_id: u64,
}

/// What an event holds.
#[derive(Debug, Clone, PartialEq, Eq)]
pub enum EventData {
    Query(QueryEvent),
    Rotate(RotateEvent),
    TableMap(TableMapEvent),
    WriteRows(RowsEvent),
    UpdateRows(UpdateRowsEvent),
    DeleteRows(RowsEvent),
    Xid(XidEvent),
    Gtid(GtidEvent),
    Heartbeat,
    /// An event of a type that is not decoded, with its body as it came.
    Unknown(Vec<u8>),
}

/// The mathematical value of an [`EventData`].
pub enum EventDataView {
    Query(QueryView),
    Rotate(RotateView),
    TableMap(TableMapView),
    WriteRows(RowsView),
    UpdateRows(UpdateRowsView),
    DeleteRows(RowsView),
    Xid(XidEvent),
    Gtid(GtidEvent),
    Heartbeat,
    Unknown(Seq<u8>),
}

impl View for EventData {
    type V = EventDataView;

    open spec fn view(&self) -> EventDataView {
        match *self {
            EventData::Query(e) => EventDataView::Query(e@),
            EventData::Rotate(e) => EventDataView::Rotate(e@),
            EventData::TableMap(e) => EventDataView::TableMap(e@),
            EventData::WriteRows(e) => EventDataView::WriteRows(e@),
            EventData::UpdateRows(e) => EventDataView::UpdateRows(e@),
            EventData::DeleteRows(e) => EventDataView::DeleteRows(e@),
            EventData::Xid(e) => EventDataView::Xid(e),
            EventData::Gtid(e) => EventDataView::Gtid(e),
            EventData::Heartbeat => EventDataView::Heartbeat,
            EventData::Unknown(b) => EventDataView::Unknown(b@),
        }
    }
}

/// The statement that the body `s` of a query event encodes: the thread's
/// id (4 bytes), the execution time (4), the length of the schema's name
/// (1), the error code (2), the length of the status variables (2), the
/// status variables, the schema's name, a zero byte, and the statement up
/// to the end of the body.
pub open spec fn query_of(s: Seq<u8>) -> Option<QueryView> {
    if !in_bounds(s, 0, 13) || !in_bounds(s, 13, le_at(s, 11, 2) + s[8] + 1) {
        None
    } else {
        Some(
            QueryView {
                thread_id: le_at(s, 0, 4) as u32,
                exec_time: le_at(s, 4, 4) as u32,
                error_code: le_at(s, 9, 2) as u16,
                schema: s.subrange(13 + le_at(s, 11, 2) as int, 13 + le_at(s, 11, 2) + s[8]),
                query: s.subrange(13 + le_at(s, 11, 2) + s[8] + 1, s.len() as int),
            },
        )
    }
}

/// The rotation that the body `s` of a rotate event encodes: the position
/// (8 bytes), then the file's name up to the end of the body.
pub open spec fn rotate_of(s: Seq<u8>) -> Option<RotateView> {
    if !in_bounds(s, 0, 8) {
        None
    } else {
        Some(
            RotateView {
                binlog_filename: s.subrange(8, s.len() as int),
                binlog_position: le_at(s, 0, 8) as u64,
            },
        )
    }
}

/// The commit that the body `s` of an xid event encodes.
pub open spec fn xid_of(s: Seq<u8>) -> Option<XidEvent> {
    if !in_bounds(s, 0, 8) {
        None
    } else {
        Some(XidEvent { xid: le_at(s, 0, 8) as u64 })
    }
}

/// The identifier that the body `s` of a gtid event encodes: flags (1
/// byte), the server's UUID (16), the transaction's number (8).
pub open spec fn gtid_of(s: Seq<u8>) -> Option<GtidEvent> {
    if !in_bounds(s, 0, 25) {
        None
    } else {
        Some(
            GtidEvent {
                flags: s[0],
                source_id: (be_at(s, 1, 8) * 0x1_0000_0000_0000_0000 + be_at(s, 9, 8)) as u128,
                transaction_id: le_at(s, 17, 8) as u64,
            },
        )
    }
}

/// Whether events of type `event_type` carry rows.
pub open spec fn is_row_event(event_type: u8) -> bool {
    event_type == EVENT_WRITE_ROWS_V1 || event_type == EVENT_UPDATE_ROWS_V1 || event_type
        == EVENT_DELETE_ROWS_V1 || event_type == EVENT_WRITE_ROWS || event_type
        == EVENT_UPDATE_ROWS || event_type == EVENT_DELETE_ROWS
}

/// Whether a row event of type `event_type` is of the second version, whose
/// body holds a block of extra data.
pub open spec fn is_extended(event_type: u8) -> bool {
    event_type >= EVENT_WRITE_ROWS
}

/// What the row event of type `event_type` with body `s` holds for a table
/// with layout `table`.
pub open spec fn row_event_of(event_type: u8, s: Seq<u8>, table: TableMapView) -> Result<
    EventDataView,
    BinlogError,
> {
    if event_type == EVENT_UPDATE_ROWS_V1 || event_type == EVENT_UPDATE_ROWS {
        match update_rows_of(s, is_extended(event_type), table) {
            Some(rows) => Ok(EventDataView::UpdateRows(rows)),
            None => Err(BinlogError::Protocol),
        }
    } else {
        match rows_of(s, is_extended(event_type), table) {
            Some(rows) => Ok(
                if event_type == EVENT_WRITE_ROWS_V1 || event_type == EVENT_WRITE_ROWS {
                    EventDataView::WriteRows(rows)
                } else {
                    EventDataView::DeleteRows(rows)
                },
            ),
            None => Err(BinlogError::Protocol),
        }
    }
}

/// What the event of type `event_type` with body `s` holds, where `tables`
/// are the table maps seen so far. A row event of a table that is not in
/// `tables` is an `UnknownTable` error; a body that is cut short is a
/// `Protocol` error; a type that is not decoded gives `Unknown` with the
/// body.
pub open spec fn event_of(event_type: u8, s: Seq<u8>, tables: Map<u64, TableMapView>) -> Result<
    EventDataView,
    BinlogError,
> {
    if event_type == EVENT_QUERY {
        match query_of(s) {
            Some(e) => Ok(EventDataView::Query(e)),
            None => Err(BinlogError::Protocol),
        }
    } else if event_type == EVENT_ROTATE {
        match rotate_of(s) {
            Some(e) => Ok(EventDataView::Rotate(e)),
            None => Err(BinlogError::Protocol),
        }
    } else if event_type == EVENT_XID {
        match xid_of(s) {
            Some(e) => Ok(EventDataView::Xid(e)),
            None => Err(BinlogError::Protocol),
        }
    } else if event_type == EVENT_GTID {
        match gtid_of(s) {
            Some(e) => Ok(EventDataView::Gtid(e)),
            None => Err(BinlogError::Protocol),
        }
    } else if event_type == EVENT_HEARTBEAT {
        Ok(EventDataView::Heartbeat)
    } else if event_type == EVENT_TABLE_MAP {
        match table_map_of(s) {
            Some(e) => Ok(EventDataView::TableMap(e)),
            None => Err(BinlogError::Protocol),
        }
    } else if is_row_event(event_type) {
        match rows_table_id(s) {
            None => Err(BinlogError::Protocol),
            Some(id) => if tables.contains_key(id) {
                row_event_of(event_type, s, tables[id])
            } else {
                Err(BinlogError::UnknownTable(id))
            },
        }
    } else {
        Ok(EventDataView::Unknown(s))
    }
}

/// The table maps that are known behind the event: a table map that was
/// decoded takes the place of what was known for its table id; nothing
/// else changes anything.
pub open spec fn tables_after(event_type: u8, s: Seq<u8>, tables: Map<u64, TableMapView>) -> Map<
    u64,
    TableMapView,
> {
    if event_type == EVENT_TABLE_MAP {
        match table_map_of(s) {
            Some(t) => tables.insert(t.table_id, t),
            None => tables,
        }
    } else {
        tables
    }
}

impl QueryEvent {
    /// Decodes the body of a query event. Fails with `Protocol` exactly
    /// when the body is cut short.
    pub fn parse(body: &[u8]) -> (r: Result<QueryEvent, BinlogError>)
        ensures
            match query_of(body@) {
                Some(q) => r matches Ok(e) && e@ == q,
                None => r matches Err(e) && e == BinlogError::Protocol,
            },
    {
        if !fits(body, 0, 13) {
            return Err(BinlogError::Protocol);
        }
        proof {
            lemma_pow256_values();
            lemma_le_at_bound(body@, 0, 4);
            lemma_le_at_bound(body@, 4, 4);
            lemma_le_at_bound(body@, 9, 2);
            lemma_le_at_bound(body@, 11, 2);
        }
        let schema_length: usize = body[8] as usize;
        let status_length: usize = read_le(body, 11, 2) as usize;
        if !fits(body, 13, status_length + schema_length + 1) {
            return Err(BinlogError::Protocol);
        }
        let schema_at: usize = 13 + status_length;
        Ok(
            QueryEvent {
                thread_id: read_le(body, 0, 4) as u32,
                exec_time: read_le(body, 4, 4) as u32,
                error_code: read_le(body, 9, 2) as u16,
                schema: copy_range(body, schema_at, schema_at + schema_length),
                query: copy_range(body, schema_at + schema_length + 1, body.len()),
            },
        )
    }
}

impl RotateEvent {
    /// Decodes the body of a rotate event. Fails with `Protocol` exactly
    /// when the body is cut short.
    pub fn parse(body: &[u8]) -> (r: Result<RotateEvent, BinlogError>)
        ensures
            match rotate_of(body@) {
                Some(v) => r matches Ok(e) && e@ == v,
                None => r matches Err(e) && e == BinlogError::Protocol,
            },
    {
        if !fits(body, 0, 8) {
            return Err(BinlogError::Protocol);
        }
        Ok(
            RotateEvent {
                binlog_filename: copy_range(body, 8, body.len()),
                binlog_position: read_le(body, 0, 8),
            },
        )
    }
}

impl XidEvent {
    /// Decodes the body of an xid event. Fails with `Protocol` exactly
    /// when the body is cut short.
    pub fn parse(body: &[u8]) -> (r: Result<XidEvent, BinlogError>)
        ensures
            r == match xid_of(body@) {
                Some(v) => Ok::<XidEvent, BinlogError>(v),
                None => Err(BinlogError::Protocol),
            },
    {
        if !fits(body, 0, 8) {
            return Err(BinlogError::Protocol);
        }
        Ok(XidEvent { xid: read_le(body, 0, 8) })
    }
}

impl GtidEvent {
    /// Decodes the body of a gtid event. Fails with `Protocol` exactly
    /// when the body is cut short.
    pub fn parse(body: &[u8]) -> (r: Result<GtidEvent, BinlogError>)
        ensures
            r == match gtid_of(body@) {
                Some(v) => Ok::<GtidEvent, BinlogError>(v),
                None => Err(BinlogError::Protocol),
            },
    {
        if !fits(body, 0, 25) {
            return Err(BinlogError::Protocol);
        }
        let high: u64 = read_be(body, 1, 8);
        let low: u64 = read_be(body, 9, 8);
        Ok(
            GtidEvent {
                flags: body[0],
                source_id: high as u128 * 0x1_0000_0000_0000_0000 + low as u128,
                transaction_id: read_le(body, 17, 8),
            },
        )
    }
}

} // verus!
