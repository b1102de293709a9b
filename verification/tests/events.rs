use mysql_binlog::column::ColumnValue;
use mysql_binlog::error::BinlogError;
use mysql_binlog::event::{EventData, GtidEvent, QueryEvent, RotateEvent, XidEvent};
use mysql_binlog::file::{BinlogFile, FileState};
use mysql_binlog::frame::{bytes_missing, read_frame};
use mysql_binlog::header::EventHeader;
use mysql_binlog::json::JsonBinary;
use mysql_binlog::json_columns::parse_json_columns;
use mysql_binlog::parser::{BinlogParser, BinlogSource};
use mysql_binlog::rows::{RowEvent, RowsEvent, UpdateRowsEvent};
use mysql_binlog::table_map::TableMapEvent;

fn header_of(event_type: u8) -> EventHeader {
    EventHeader {
        timestamp: 0,
        event_type,
        server_id: 1,
        event_length: 0,
        next_event_position: 0,
        event_flags: 0,
    }
}

fn row(values: Vec<ColumnValue>) -> RowEvent {
    RowEvent { column_values: values }
}

#[test]
fn header_fields_are_little_endian() {
    let bytes: Vec<u8> = vec![170u8, 187, 0, 16, 94, 95, 19, 7, 0, 0, 0, 60, 0, 0, 0, 210, 4, 0, 0, 128, 1, 1, 2, 3];
    assert_eq!(
        EventHeader::parse(&bytes, 2),
        Ok(EventHeader {
            timestamp: 0x5f5e1000,
            event_type: 19,
            server_id: 7,
            event_length: 60,
            next_event_position: 1234,
            event_flags: 0x0180,
        })
    );
}

#[test]
fn header_of_eighteen_bytes_is_refused() {
    let bytes: Vec<u8> = vec![0u8, 16, 94, 95, 19, 7, 0, 0, 0, 60, 0, 0, 0, 210, 4, 0, 0, 128];
    assert_eq!(EventHeader::parse(&bytes, 0), Err(BinlogError::Protocol));
    assert_eq!(EventHeader::parse(&bytes, 1), Err(BinlogError::Protocol));
    assert_eq!(EventHeader::parse(&bytes, 100), Err(BinlogError::Protocol));
}

#[test]
fn frame_leaves_the_checksum_out_of_the_body() {
    let bytes: Vec<u8> = vec![0u8, 0, 0, 95, 16, 1, 0, 0, 0, 31, 0, 0, 0, 35, 0, 0, 0, 0, 0, 1, 2, 3, 4, 5, 6, 7, 8, 222, 173, 190, 239];
    let frame = read_frame(&bytes, 0, 4).unwrap();
    assert_eq!(frame.header.event_type, 16);
    assert_eq!(frame.header.event_length, 31);
    assert_eq!(frame.body, &[1u8, 2, 3, 4, 5, 6, 7, 8][..]);
    assert_eq!(frame.end, 31);
}

#[test]
fn frame_without_checksum_uses_the_whole_body() {
    let bytes: Vec<u8> = vec![0u8, 0, 0, 95, 16, 1, 0, 0, 0, 31, 0, 0, 0, 35, 0, 0, 0, 0, 0, 1, 2, 3, 4, 5, 6, 7, 8, 222, 173, 190, 239];
    let frame = read_frame(&bytes, 0, 0).unwrap();
    assert_eq!(frame.body, &[1u8, 2, 3, 4, 5, 6, 7, 8, 0xde, 0xad, 0xbe, 0xef][..]);
    assert_eq!(frame.end, 31);
}

#[test]
fn frame_at_an_offset() {
    let mut bytes: Vec<u8> = vec![9u8, 9, 9];
    bytes.extend_from_slice(&[0, 0, 0, 95, 16, 1, 0, 0, 0, 31, 0, 0, 0, 35, 0, 0, 0, 0, 0, 1, 2, 3, 4, 5, 6, 7, 8, 222, 173, 190, 239]);
    bytes.push(77);
    let frame = read_frame(&bytes, 3, 4).unwrap();
    assert_eq!(frame.body, &[1u8, 2, 3, 4, 5, 6, 7, 8][..]);
    assert_eq!(frame.end, 3 + 31);
}

#[test]
fn frame_cut_short_is_refused() {
    let bytes: Vec<u8> = vec![0u8, 0, 0, 95, 16, 1, 0, 0, 0, 31, 0, 0, 0, 35, 0, 0, 0, 0, 0, 1, 2, 3, 4, 5, 6, 7, 8, 222, 173, 190];
    assert!(matches!(read_frame(&bytes, 0, 4), Err(BinlogError::Protocol)));
    assert!(matches!(read_frame(&bytes[..10], 0, 4), Err(BinlogError::Protocol)));
}

#[test]
fn frame_shorter_than_header_and_checksum_is_refused() {
    let bytes: Vec<u8> = vec![0u8, 0, 0, 0, 16, 1, 0, 0, 0, 21, 0, 0, 0, 0, 0, 0, 0, 0, 0, 1, 2];
    assert!(matches!(read_frame(&bytes, 0, 4), Err(BinlogError::Protocol)));
    assert!(read_frame(&bytes, 0, 0).is_ok());
    assert!(read_frame(&bytes, 0, 2).is_ok());
    assert!(matches!(read_frame(&bytes, 0, 3), Err(BinlogError::Protocol)));
}

#[test]
fn bytes_missing_counts_down_to_a_whole_event() {
    let bytes: Vec<u8> = vec![0u8, 0, 0, 95, 16, 1, 0, 0, 0, 31, 0, 0, 0, 35, 0, 0, 0, 0, 0, 1, 2, 3, 4, 5, 6, 7, 8, 222, 173, 190, 239];
    assert_eq!(bytes_missing(&bytes[..0], 0), 19);
    assert_eq!(bytes_missing(&bytes[..5], 0), 14);
    assert_eq!(bytes_missing(&bytes[..18], 0), 1);
    assert_eq!(bytes_missing(&bytes[..19], 0), 12);
    assert_eq!(bytes_missing(&bytes[..25], 0), 6);
    assert_eq!(bytes_missing(&bytes, 0), 0);
    assert_eq!(bytes_missing(&bytes, bytes.len()), 19);
}

#[test]
fn query_event() {
    let body: Vec<u8> = vec![77u8, 0, 0, 0, 3, 0, 0, 0, 4, 30, 4, 2, 0, 170, 187, 116, 101, 115, 116, 0, 66, 69, 71, 73, 78];
    let mut parser = BinlogParser::new(0);
    assert_eq!(
        parser.parse(&header_of(2), &body),
        Ok(EventData::Query(QueryEvent {
            thread_id: 77,
            exec_time: 3,
            error_code: 1054,
            schema: b"test".to_vec(),
            query: b"BEGIN".to_vec(),
        }))
    );
}

#[test]
fn query_event_cut_short() {
    let body: Vec<u8> = vec![77u8, 0, 0, 0, 3, 0, 0, 0, 4, 30, 4, 2, 0, 170, 187, 116, 101, 115, 116, 0, 66, 69, 71, 73, 78];
    let mut parser = BinlogParser::new(0);
    assert_eq!(parser.parse(&header_of(2), &body[..12]), Err(BinlogError::Protocol));
    assert_eq!(parser.parse(&header_of(2), &body[..19]), Err(BinlogError::Protocol));
    assert_eq!(QueryEvent::parse(&body[..20]).unwrap().query, Vec::<u8>::new());
}

#[test]
fn rotate_event() {
    let body: Vec<u8> = vec![4u8, 0, 0, 0, 0, 0, 0, 0, 109, 121, 115, 113, 108, 45, 98, 105, 110, 46, 48, 48, 48, 48, 48, 50];
    let mut parser = BinlogParser::new(0);
    assert_eq!(
        parser.parse(&header_of(4), &body),
        Ok(EventData::Rotate(RotateEvent {
            binlog_filename: b"mysql-bin.000002".to_vec(),
            binlog_position: 4,
        }))
    );
    assert_eq!(parser.parse(&header_of(4), &body[..7]), Err(BinlogError::Protocol));
}

#[test]
fn xid_event() {
    let body: Vec<u8> = vec![8u8, 7, 6, 5, 4, 3, 2, 1];
    let mut parser = BinlogParser::new(0);
    assert_eq!(
        parser.parse(&header_of(16), &body),
        Ok(EventData::Xid(XidEvent { xid: 0x0102030405060708 }))
    );
    assert_eq!(parser.parse(&header_of(16), &body[..7]), Err(BinlogError::Protocol));
}

#[test]
fn gtid_event() {
    let body: Vec<u8> = vec![1u8, 62, 17, 250, 71, 113, 202, 17, 225, 158, 51, 200, 10, 169, 66, 149, 98, 23, 0, 0, 0, 0, 0, 0, 0, 2, 0, 0];
    let mut parser = BinlogParser::new(0);
    assert_eq!(
        parser.parse(&header_of(33), &body),
        Ok(EventData::Gtid(GtidEvent {
            flags: 1,
            source_id: 0x3e11fa4771ca11e19e33c80aa9429562,
            transaction_id: 23,
        }))
    );
    assert_eq!(parser.parse(&header_of(33), &body[..24]), Err(BinlogError::Protocol));
}

#[test]
fn heartbeat_event() {
    let mut parser = BinlogParser::new(0);
    assert_eq!(parser.parse(&header_of(27), b"mysql-bin.000002"), Ok(EventData::Heartbeat));
}

#[test]
fn unknown_event_type_keeps_the_body() {
    let mut parser = BinlogParser::new(0);
    assert_eq!(
        parser.parse(&header_of(15), &[1, 2, 3]),
        Ok(EventData::Unknown(vec![1, 2, 3]))
    );
    assert_eq!(parser.parse(&header_of(200), &[]), Ok(EventData::Unknown(Vec::new())));
    assert_eq!(parser.parse(&header_of(34), &[9]), Ok(EventData::Unknown(vec![9])));
}

#[test]
fn table_map_event() {
    let body: Vec<u8> = vec![171u8, 0, 0, 0, 0, 0, 1, 0, 4, 115, 104, 111, 112, 0, 6, 111, 114, 100, 101, 114, 115, 0, 7, 3, 15, 246, 245, 254, 18, 1, 8, 80, 0, 14, 4, 4, 254, 10, 6, 46];
    assert_eq!(
        TableMapEvent::parse(&body),
        Ok(TableMapEvent {
            table_id: 0xab,
            database_name: b"shop".to_vec(),
            table_name: b"orders".to_vec(),
            column_types: vec![3, 15, 246, 245, 254, 18, 1],
            column_metas: vec![0, 80, 14 | (4 << 8), 4, (254 << 8) | 10, 6, 0],
            null_bits: vec![false, true, true, true, false, true, false],
        })
    );
}

#[test]
fn table_map_with_optional_metadata_behind_it() {
    let mut body: Vec<u8> = vec![171u8, 0, 0, 0, 0, 0, 1, 0, 4, 115, 104, 111, 112, 0, 6, 111, 114, 100, 101, 114, 115, 0, 7, 3, 15, 246, 245, 254, 18, 1, 8, 80, 0, 14, 4, 4, 254, 10, 6, 46];
    body.extend_from_slice(&[1, 1, 0x80]);
    assert_eq!(TableMapEvent::parse(&body).unwrap().column_metas.len(), 7);
}

#[test]
fn table_map_cut_short_at_every_length() {
    let body: Vec<u8> = vec![171u8, 0, 0, 0, 0, 0, 1, 0, 4, 115, 104, 111, 112, 0, 6, 111, 114, 100, 101, 114, 115, 0, 7, 3, 15, 246, 245, 254, 18, 1, 8, 80, 0, 14, 4, 4, 254, 10, 6, 46];
    for n in 0..body.len() {
        assert_eq!(TableMapEvent::parse(&body[..n]), Err(BinlogError::Protocol), "length {}", n);
    }
}

#[test]
fn table_map_with_metadata_block_too_short() {
    let body: Vec<u8> = vec![1u8, 0, 0, 0, 0, 0, 1, 0, 1, 97, 0, 1, 98, 0, 2, 15, 15, 3, 80, 0, 1, 0];
    assert_eq!(TableMapEvent::parse(&body), Err(BinlogError::Protocol));
}

#[test]
fn table_map_is_kept_by_its_id() {
    let body: Vec<u8> = vec![171u8, 0, 0, 0, 0, 0, 1, 0, 4, 115, 104, 111, 112, 0, 6, 111, 114, 100, 101, 114, 115, 0, 7, 3, 15, 246, 245, 254, 18, 1, 8, 80, 0, 14, 4, 4, 254, 10, 6, 46];
    let mut parser = BinlogParser::new(0);
    let data = parser.parse(&header_of(19), &body).unwrap();
    assert!(matches!(data, EventData::TableMap(_)));
    assert_eq!(parser.table_map_event_by_table_id.len(), 1);
    assert_eq!(parser.table_map_event_by_table_id[&0xab].table_name, b"orders".to_vec());
}

#[test]
fn table_map_that_fails_leaves_the_cache() {
    let body: Vec<u8> = vec![171u8, 0, 0, 0, 0, 0, 1, 0, 4, 115, 104, 111, 112, 0, 6, 111, 114, 100, 101, 114, 115, 0, 7, 3, 15, 246, 245, 254, 18, 1, 8, 80, 0, 14, 4, 4, 254, 10, 6, 46];
    let mut parser = BinlogParser::new(0);
    parser.parse(&header_of(19), &body).unwrap();
    assert_eq!(parser.parse(&header_of(19), &body[..20]), Err(BinlogError::Protocol));
    assert_eq!(parser.table_map_event_by_table_id.len(), 1);
}

fn items_parser() -> BinlogParser {
    let map: Vec<u8> = vec![178u8, 10, 0, 0, 0, 0, 1, 0, 4, 115, 104, 111, 112, 0, 5, 105, 116, 101, 109, 115, 0, 3, 3, 15, 245, 3, 80, 0, 4, 6];
    let mut parser = BinlogParser::new(0);
    parser.parse(&header_of(19), &map).unwrap();
    parser
}

#[test]
fn write_rows_event() {
    let body: Vec<u8> = vec![178u8, 10, 0, 0, 0, 0, 0, 0, 2, 0, 3, 7, 0, 7, 0, 0, 0, 3, 97, 98, 99, 23, 0, 0, 0, 0, 1, 0, 22, 0, 11, 0, 1, 0, 2, 12, 0, 107, 2, 0, 10, 0, 5, 1, 0, 5, 2, 0, 2, 248, 255, 255, 255, 3, 0, 0, 0, 12, 1, 115, 7];
    let mut parser = items_parser();
    assert_eq!(
        parser.parse(&header_of(30), &body),
        Ok(EventData::WriteRows(RowsEvent {
            table_id: 0xab2,
            included_columns: vec![true, true, true],
            rows: vec![
                row(vec![
                    ColumnValue::Long(7),
                    ColumnValue::String(b"abc".to_vec()),
                    ColumnValue::Json(vec![0u8, 1, 0, 22, 0, 11, 0, 1, 0, 2, 12, 0, 107, 2, 0, 10, 0, 5, 1, 0, 5, 2, 0]),
                ]),
                row(vec![ColumnValue::Long(-8), ColumnValue::Null, ColumnValue::Json(vec![12u8, 1, 115])]),
                row(vec![ColumnValue::Null, ColumnValue::Null, ColumnValue::Null]),
            ],
        }))
    );
}

#[test]
fn write_rows_event_of_the_first_version() {
    let body: Vec<u8> = vec![178u8, 10, 0, 0, 0, 0, 0, 0, 3, 7, 0, 7, 0, 0, 0, 3, 97, 98, 99, 23, 0, 0, 0, 0, 1, 0, 22, 0, 11, 0, 1, 0, 2, 12, 0, 107, 2, 0, 10, 0, 5, 1, 0, 5, 2, 0, 2, 248, 255, 255, 255, 3, 0, 0, 0, 12, 1, 115, 7];
    let mut parser = items_parser();
    let data = parser.parse(&header_of(23), &body).unwrap();
    match data {
        EventData::WriteRows(event) => assert_eq!(event.rows, vec![
                row(vec![
                    ColumnValue::Long(7),
                    ColumnValue::String(b"abc".to_vec()),
                    ColumnValue::Json(vec![0u8, 1, 0, 22, 0, 11, 0, 1, 0, 2, 12, 0, 107, 2, 0, 10, 0, 5, 1, 0, 5, 2, 0]),
                ]),
                row(vec![ColumnValue::Long(-8), ColumnValue::Null, ColumnValue::Json(vec![12u8, 1, 115])]),
                row(vec![ColumnValue::Null, ColumnValue::Null, ColumnValue::Null]),
            ]),
        other => panic!("unexpected {:?}", other),
    }
}

#[test]
fn delete_rows_event() {
    let body: Vec<u8> = vec![178u8, 10, 0, 0, 0, 0, 0, 0, 2, 0, 3, 7, 0, 7, 0, 0, 0, 3, 97, 98, 99, 23, 0, 0, 0, 0, 1, 0, 22, 0, 11, 0, 1, 0, 2, 12, 0, 107, 2, 0, 10, 0, 5, 1, 0, 5, 2, 0, 2, 248, 255, 255, 255, 3, 0, 0, 0, 12, 1, 115, 7];
    let mut parser = items_parser();
    assert!(matches!(parser.parse(&header_of(32), &body), Ok(EventData::DeleteRows(ref e)) if e.rows.len() == 3));
    let body_v1: Vec<u8> = vec![178u8, 10, 0, 0, 0, 0, 0, 0, 3, 7, 0, 7, 0, 0, 0, 3, 97, 98, 99, 23, 0, 0, 0, 0, 1, 0, 22, 0, 11, 0, 1, 0, 2, 12, 0, 107, 2, 0, 10, 0, 5, 1, 0, 5, 2, 0, 2, 248, 255, 255, 255, 3, 0, 0, 0, 12, 1, 115, 7];
    assert!(matches!(parser.parse(&header_of(25), &body_v1), Ok(EventData::DeleteRows(ref e)) if e.rows.len() == 3));
}

#[test]
fn every_row_has_a_value_for_every_column() {
    let body: Vec<u8> = vec![178u8, 10, 0, 0, 0, 0, 0, 0, 2, 0, 3, 7, 0, 7, 0, 0, 0, 3, 97, 98, 99, 23, 0, 0, 0, 0, 1, 0, 22, 0, 11, 0, 1, 0, 2, 12, 0, 107, 2, 0, 10, 0, 5, 1, 0, 5, 2, 0, 2, 248, 255, 255, 255, 3, 0, 0, 0, 12, 1, 115, 7];
    let mut parser = items_parser();
    match parser.parse(&header_of(30), &body).unwrap() {
        EventData::WriteRows(event) => {
            assert_eq!(event.rows.len(), 3);
            for r in event.rows {
                assert_eq!(r.column_values.len(), 3);
            }
        }
        other => panic!("unexpected {:?}", other),
    }
}

#[test]
fn columns_that_are_left_out_are_null() {
    let body: Vec<u8> = vec![178u8, 10, 0, 0, 0, 0, 0, 0, 2, 0, 3, 5, 0, 5, 0, 0, 0, 3, 0, 0, 0, 12, 1, 115, 2, 6, 0, 0, 0];
    let mut parser = items_parser();
    assert_eq!(
        parser.parse(&header_of(30), &body),
        Ok(EventData::WriteRows(RowsEvent {
            table_id: 0xab2,
            included_columns: vec![true, false, true],
            rows: vec![
                row(vec![ColumnValue::Long(5), ColumnValue::Null, ColumnValue::Json(vec![12u8, 1, 115])]),
                row(vec![ColumnValue::Long(6), ColumnValue::Null, ColumnValue::Null]),
            ],
        }))
    );
}

#[test]
fn update_rows_event() {
    let body: Vec<u8> = vec![178u8, 10, 0, 0, 0, 0, 0, 0, 2, 0, 3, 1, 7, 0, 1, 0, 0, 0, 0, 1, 0, 0, 0, 1, 122, 23, 0, 0, 0, 0, 1, 0, 22, 0, 11, 0, 1, 0, 2, 12, 0, 107, 2, 0, 10, 0, 5, 1, 0, 5, 2, 0, 0, 2, 0, 0, 0, 6, 2, 0, 0, 0];
    let mut parser = items_parser();
    assert_eq!(
        parser.parse(&header_of(31), &body),
        Ok(EventData::UpdateRows(UpdateRowsEvent {
            table_id: 0xab2,
            included_columns_before: vec![true, false, false],
            included_columns_after: vec![true, true, true],
            rows: vec![
                (
                    row(vec![ColumnValue::Long(1), ColumnValue::Null, ColumnValue::Null]),
                    row(vec![
                        ColumnValue::Long(1),
                        ColumnValue::String(b"z".to_vec()),
                        ColumnValue::Json(vec![0u8, 1, 0, 22, 0, 11, 0, 1, 0, 2, 12, 0, 107, 2, 0, 10, 0, 5, 1, 0, 5, 2, 0]),
                    ]),
                ),
                (
                    row(vec![ColumnValue::Long(2), ColumnValue::Null, ColumnValue::Null]),
                    row(vec![ColumnValue::Long(2), ColumnValue::Null, ColumnValue::Null]),
                ),
            ],
        }))
    );
    let body_v1: Vec<u8> = vec![178u8, 10, 0, 0, 0, 0, 0, 0, 3, 1, 7, 0, 1, 0, 0, 0, 0, 1, 0, 0, 0, 1, 122, 23, 0, 0, 0, 0, 1, 0, 22, 0, 11, 0, 1, 0, 2, 12, 0, 107, 2, 0, 10, 0, 5, 1, 0, 5, 2, 0, 0, 2, 0, 0, 0, 6, 2, 0, 0, 0];
    assert_eq!(
        parser.parse(&header_of(24), &body_v1),
        Ok(EventData::UpdateRows(UpdateRowsEvent {
            table_id: 0xab2,
            included_columns_before: vec![true, false, false],
            included_columns_after: vec![true, true, true],
            rows: vec![
                (
                    row(vec![ColumnValue::Long(1), ColumnValue::Null, ColumnValue::Null]),
                    row(vec![
                        ColumnValue::Long(1),
                        ColumnValue::String(b"z".to_vec()),
                        ColumnValue::Json(vec![0u8, 1, 0, 22, 0, 11, 0, 1, 0, 2, 12, 0, 107, 2, 0, 10, 0, 5, 1, 0, 5, 2, 0]),
                    ]),
                ),
                (
                    row(vec![ColumnValue::Long(2), ColumnValue::Null, ColumnValue::Null]),
                    row(vec![ColumnValue::Long(2), ColumnValue::Null, ColumnValue::Null]),
                ),
            ],
        }))
    );
}

#[test]
fn update_rows_with_half_a_pair_is_refused() {
    let body: Vec<u8> = vec![178u8, 10, 0, 0, 0, 0, 0, 0, 2, 0, 3, 1, 7, 0, 1, 0, 0, 0, 0, 1, 0, 0, 0, 1, 122, 23, 0, 0, 0, 0, 1, 0, 22, 0, 11, 0, 1, 0, 2, 12, 0, 107, 2, 0, 10, 0, 5, 1, 0, 5, 2, 0, 0, 2, 0, 0, 0];
    let mut parser = items_parser();
    assert_eq!(parser.parse(&header_of(31), &body), Err(BinlogError::Protocol));
}

#[test]
fn rows_cut_short_are_refused() {
    let body: Vec<u8> = vec![178u8, 10, 0, 0, 0, 0, 0, 0, 2, 0, 3, 7, 0, 7, 0, 0, 0, 3, 97, 98, 99, 23, 0, 0, 0, 0, 1, 0, 22, 0, 11, 0, 1, 0, 2, 12, 0, 107, 2, 0, 10, 0, 5, 1, 0, 5, 2, 0, 2, 248, 255, 255, 255, 3, 0, 0, 0, 12, 1, 115, 7];
    let mut parser = items_parser();
    for n in 8..body.len() {
        let result = parser.parse(&header_of(30), &body[..n]);
        if n == 12 || n == 48 || n == 60 {
            assert!(result.is_ok(), "length {}", n);
        } else {
            assert_eq!(result, Err(BinlogError::Protocol), "length {}", n);
        }
    }
}

#[test]
fn rows_with_another_number_of_columns_are_refused() {
    let body: Vec<u8> = vec![178u8, 10, 0, 0, 0, 0, 0, 0, 2, 0, 2, 3, 0, 7, 0, 0, 0, 0];
    let mut parser = items_parser();
    assert_eq!(parser.parse(&header_of(30), &body), Err(BinlogError::Protocol));
}

#[test]
fn rows_without_columns_are_refused() {
    let map: Vec<u8> = vec![5u8, 0, 0, 0, 0, 0, 1, 0, 1, 97, 0, 1, 98, 0, 0, 0];
    let body: Vec<u8> = vec![5u8, 0, 0, 0, 0, 0, 0, 0, 2, 0, 0, 0];
    let mut parser = BinlogParser::new(0);
    parser.parse(&header_of(19), &map).unwrap();
    assert_eq!(parser.parse(&header_of(30), &body), Err(BinlogError::Protocol));
    let empty: Vec<u8> = vec![5u8, 0, 0, 0, 0, 0, 0, 0, 2, 0, 0];
    assert!(matches!(parser.parse(&header_of(30), &empty), Ok(EventData::WriteRows(ref e)) if e.rows.is_empty()));
}

#[test]
fn rows_of_a_table_that_was_not_mapped() {
    let body: Vec<u8> = vec![178u8, 10, 0, 0, 0, 0, 0, 0, 2, 0, 3, 7, 0, 7, 0, 0, 0, 3, 97, 98, 99, 23, 0, 0, 0, 0, 1, 0, 22, 0, 11, 0, 1, 0, 2, 12, 0, 107, 2, 0, 10, 0, 5, 1, 0, 5, 2, 0, 2, 248, 255, 255, 255, 3, 0, 0, 0, 12, 1, 115, 7];
    let mut parser = BinlogParser::new(0);
    for event_type in [23u8, 24, 25, 30, 31, 32] {
        assert_eq!(
            parser.parse(&header_of(event_type), &body),
            Err(BinlogError::UnknownTable(0xab2))
        );
        assert!(parser.table_map_event_by_table_id.is_empty());
    }
    let mut other = items_parser();
    let foreign: Vec<u8> = vec![179u8, 10, 0, 0, 0, 0, 0, 0, 2, 0, 3, 7, 0, 7, 0, 0, 0, 3, 97, 98, 99, 23, 0, 0, 0, 0, 1, 0, 22, 0, 11, 0, 1, 0, 2, 12, 0, 107, 2, 0, 10, 0, 5, 1, 0, 5, 2, 0];
    assert_eq!(other.parse(&header_of(30), &foreign), Err(BinlogError::UnknownTable(0xab3)));
    assert_eq!(other.table_map_event_by_table_id.len(), 1);
    assert!(other.table_map_event_by_table_id.contains_key(&0xab2));
}

#[test]
fn rows_without_a_table_id_are_a_protocol_error() {
    let mut parser = BinlogParser::new(0);
    assert_eq!(parser.parse(&header_of(30), &[1, 2, 3, 4, 5, 6, 7]), Err(BinlogError::Protocol));
}

#[test]
fn a_later_table_map_replaces_the_earlier_one() {
    let old_rows: Vec<u8> = vec![178u8, 10, 0, 0, 0, 0, 0, 0, 2, 0, 3, 7, 0, 7, 0, 0, 0, 3, 97, 98, 99, 23, 0, 0, 0, 0, 1, 0, 22, 0, 11, 0, 1, 0, 2, 12, 0, 107, 2, 0, 10, 0, 5, 1, 0, 5, 2, 0, 2, 248, 255, 255, 255, 3, 0, 0, 0, 12, 1, 115, 7];
    let new_map: Vec<u8> = vec![178u8, 10, 0, 0, 0, 0, 1, 0, 4, 115, 104, 111, 112, 0, 5, 105, 116, 101, 109, 115, 0, 2, 15, 1, 2, 20, 0, 0];
    let new_rows: Vec<u8> = vec![178u8, 10, 0, 0, 0, 0, 0, 0, 2, 0, 2, 3, 0, 2, 104, 105, 254];
    let mut parser = items_parser();
    assert!(parser.parse(&header_of(30), &old_rows).is_ok());
    assert_eq!(parser.parse(&header_of(30), &new_rows), Err(BinlogError::Protocol));
    parser.parse(&header_of(19), &new_map).unwrap();
    assert_eq!(parser.table_map_event_by_table_id.len(), 1);
    assert_eq!(
        parser.parse(&header_of(30), &new_rows),
        Ok(EventData::WriteRows(RowsEvent {
            table_id: 0xab2,
            included_columns: vec![true, true],
            rows: vec![row(vec![ColumnValue::String(b"hi".to_vec()), ColumnValue::Tiny(-2)])],
        }))
    );
    assert_eq!(parser.parse(&header_of(30), &old_rows), Err(BinlogError::Protocol));
}

#[test]
fn json_columns_of_written_rows_in_order() {
    let body: Vec<u8> = vec![178u8, 10, 0, 0, 0, 0, 0, 0, 2, 0, 3, 7, 0, 7, 0, 0, 0, 3, 97, 98, 99, 23, 0, 0, 0, 0, 1, 0, 22, 0, 11, 0, 1, 0, 2, 12, 0, 107, 2, 0, 10, 0, 5, 1, 0, 5, 2, 0, 2, 248, 255, 255, 255, 3, 0, 0, 0, 12, 1, 115, 7];
    let mut parser = items_parser();
    let data = parser.parse(&header_of(30), &body).unwrap();
    let texts = parse_json_columns(&data);
    assert_eq!(texts.len(), 2);
    assert_eq!(texts[0].as_ref().unwrap().text, b"{\"k\":[1,2]}".to_vec());
    assert_eq!(texts[1].as_ref().unwrap().text, b"\"s\"".to_vec());
    assert_eq!(texts[0], JsonBinary::parse_as_string(&vec![0u8, 1, 0, 22, 0, 11, 0, 1, 0, 2, 12, 0, 107, 2, 0, 10, 0, 5, 1, 0, 5, 2, 0]));
}

#[test]
fn json_columns_of_updated_rows_before_then_after() {
    let data = EventData::UpdateRows(UpdateRowsEvent {
        table_id: 1,
        included_columns_before: vec![true, true],
        included_columns_after: vec![true, true],
        rows: vec![
            (
                row(vec![ColumnValue::Json(vec![5, 1, 0]), ColumnValue::Long(1)]),
                row(vec![ColumnValue::Json(vec![5, 2, 0]), ColumnValue::Json(vec![5, 3, 0])]),
            ),
            (
                row(vec![ColumnValue::Null, ColumnValue::Json(vec![5, 4, 0])]),
                row(vec![ColumnValue::Json(vec![13]), ColumnValue::Json(vec![5, 6, 0])]),
            ),
        ],
    });
    let texts = parse_json_columns(&data);
    let rendered: Vec<Option<Vec<u8>>> =
        texts.iter().map(|t| t.as_ref().ok().map(|x| x.text.clone())).collect();
    assert_eq!(
        rendered,
        vec![
            Some(b"1".to_vec()),
            Some(b"2".to_vec()),
            Some(b"3".to_vec()),
            Some(b"4".to_vec()),
            None,
            Some(b"6".to_vec()),
        ]
    );
    assert_eq!(texts[4], Err(BinlogError::Format));
}

#[test]
fn json_columns_of_deleted_rows_and_of_other_events() {
    let deleted = EventData::DeleteRows(RowsEvent {
        table_id: 1,
        included_columns: vec![true],
        rows: vec![row(vec![ColumnValue::Json(vec![4, 1])]), row(vec![ColumnValue::Blob(vec![4, 1])])],
    });
    let texts = parse_json_columns(&deleted);
    assert_eq!(texts.len(), 1);
    assert_eq!(texts[0].as_ref().unwrap().text, b"true".to_vec());
    assert!(parse_json_columns(&EventData::Heartbeat).is_empty());
    assert!(parse_json_columns(&EventData::Unknown(vec![4, 1])).is_empty());
    assert!(parse_json_columns(&EventData::Xid(XidEvent { xid: 1 })).is_empty());
}

fn log_file() -> Vec<u8> {
    vec![254, 98, 105, 110, 0, 0, 0, 95, 15, 1, 0, 0, 0, 43, 0, 0, 0, 47, 0, 0, 0, 0, 0, 0, 0, 0, 0, 0, 0, 0, 0, 0, 0, 0, 0, 0, 0, 0, 0, 0, 0, 0, 0, 17, 34, 51, 68, 0, 0, 0, 95, 33, 1, 0, 0, 0, 48, 0, 0, 0, 95, 0, 0, 0, 0, 0, 1, 62, 17, 250, 71, 113, 202, 17, 225, 158, 51, 200, 10, 169, 66, 149, 98, 23, 0, 0, 0, 0, 0, 0, 0, 17, 34, 51, 68, 0, 0, 0, 95, 2, 1, 0, 0, 0, 48, 0, 0, 0, 143, 0, 0, 0, 0, 0, 77, 0, 0, 0, 3, 0, 0, 0, 4, 30, 4, 2, 0, 170, 187, 116, 101, 115, 116, 0, 66, 69, 71, 73, 78, 17, 34, 51, 68, 0, 0, 0, 95, 19, 1, 0, 0, 0, 53, 0, 0, 0, 196, 0, 0, 0, 0, 0, 178, 10, 0, 0, 0, 0, 1, 0, 4, 115, 104, 111, 112, 0, 5, 105, 116, 101, 109, 115, 0, 3, 3, 15, 245, 3, 80, 0, 4, 6, 17, 34, 51, 68, 0, 0, 0, 95, 30, 1, 0, 0, 0, 84, 0, 0, 0, 24, 1, 0, 0, 0, 0, 178, 10, 0, 0, 0, 0, 0, 0, 2, 0, 3, 7, 0, 7, 0, 0, 0, 3, 97, 98, 99, 23, 0, 0, 0, 0, 1, 0, 22, 0, 11, 0, 1, 0, 2, 12, 0, 107, 2, 0, 10, 0, 5, 1, 0, 5, 2, 0, 2, 248, 255, 255, 255, 3, 0, 0, 0, 12, 1, 115, 7, 17, 34, 51, 68, 0, 0, 0, 95, 31, 1, 0, 0, 0, 85, 0, 0, 0, 109, 1, 0, 0, 0, 0, 178, 10, 0, 0, 0, 0, 0, 0, 2, 0, 3, 1, 7, 0, 1, 0, 0, 0, 0, 1, 0, 0, 0, 1, 122, 23, 0, 0, 0, 0, 1, 0, 22, 0, 11, 0, 1, 0, 2, 12, 0, 107, 2, 0, 10, 0, 5, 1, 0, 5, 2, 0, 0, 2, 0, 0, 0, 6, 2, 0, 0, 0, 17, 34, 51, 68, 0, 0, 0, 95, 16, 1, 0, 0, 0, 31, 0, 0, 0, 140, 1, 0, 0, 0, 0, 99, 0, 0, 0, 0, 0, 0, 0, 17, 34, 51, 68, 0, 0, 0, 95, 4, 1, 0, 0, 0, 47, 0, 0, 0, 187, 1, 0, 0, 0, 0, 4, 0, 0, 0, 0, 0, 0, 0, 109, 121, 115, 113, 108, 45, 98, 105, 110, 46, 48, 48, 48, 48, 48, 51, 17, 34, 51, 68]
}

#[test]
fn magic_is_checked_and_skipped() {
    let parser = BinlogParser::new(4);
    let mut source = BinlogSource { bytes: log_file(), position: 0 };
    assert_eq!(parser.check_magic(&mut source), Ok(()));
    assert_eq!(source.position, 4);
}

#[test]
fn wrong_magic_is_a_format_error() {
    let parser = BinlogParser::new(4);
    for bytes in [vec![0xfeu8, 0x62, 0x69, 0x6f, 0, 0], vec![0xfe, 0x62, 0x69], vec![], b"\xffbin".to_vec(), b"binlog".to_vec()] {
        let mut source = BinlogSource { bytes, position: 0 };
        assert_eq!(parser.check_magic(&mut source), Err(BinlogError::Format));
        assert_eq!(source.position, 0);
    }
}

#[test]
fn file_with_eight_events_gives_eight_events_in_order() {
    let mut parser = BinlogParser::new(4);
    let mut source = BinlogSource { bytes: log_file(), position: 0 };
    assert!(parser.check_magic(&mut source).is_ok());
    let mut types: Vec<u8> = Vec::new();
    let mut next_positions: Vec<u32> = Vec::new();
    while let Some((header, _data)) = parser.next(&mut source).unwrap() {
        types.push(header.event_type);
        next_positions.push(header.next_event_position);
        assert_eq!(source.position as u32, header.next_event_position);
    }
    assert_eq!(types, vec![15, 33, 2, 19, 30, 31, 16, 4]);
    assert_eq!(next_positions, vec![47, 95, 143, 196, 280, 365, 396, 443]);
    assert!(next_positions.windows(2).all(|w| w[0] <= w[1]));
    assert_eq!(source.position, source.bytes.len());
    assert_eq!(parser.next(&mut source), Ok(None));
}

#[test]
fn read_all_gives_every_event_of_the_file() {
    let mut parser = BinlogParser::new(4);
    let mut source = BinlogSource { bytes: log_file(), position: 0 };
    parser.check_magic(&mut source).unwrap();
    let (events, error) = parser.read_all(&mut source);
    assert_eq!(error, None);
    assert_eq!(events.len(), 8);
    assert_eq!(events[1].1, EventData::Gtid(GtidEvent { flags: 1, source_id: 0x3e11fa4771ca11e19e33c80aa9429562, transaction_id: 23 }));
    assert!(matches!(events[4].1, EventData::WriteRows(ref e) if e.rows.len() == 3));
    assert!(matches!(events[5].1, EventData::UpdateRows(ref e) if e.rows.len() == 2));
    assert_eq!(events[6].1, EventData::Xid(XidEvent { xid: 99 }));
    assert_eq!(source.position, source.bytes.len());
}

#[test]
fn read_all_keeps_what_was_decoded_before_an_error() {
    let mut bytes = log_file();
    bytes.truncate(bytes.len() - 3);
    let mut parser = BinlogParser::new(4);
    let mut source = BinlogSource { bytes, position: 4 };
    let (events, error) = parser.read_all(&mut source);
    assert_eq!(error, Some(BinlogError::Protocol));
    assert_eq!(events.len(), 7);
    assert_eq!(source.position, 396);
    assert_eq!(parser.next(&mut source), Err(BinlogError::Protocol));
    assert_eq!(source.position, 396);
}

#[test]
fn read_all_of_a_file_with_the_magic_only() {
    let mut parser = BinlogParser::new(4);
    let mut source = BinlogSource { bytes: vec![0xfe, 0x62, 0x69, 0x6e], position: 0 };
    parser.check_magic(&mut source).unwrap();
    assert_eq!(parser.read_all(&mut source), (Vec::new(), None));
}

#[test]
fn checksum_bytes_do_not_reach_the_decoder() {
    let plain = log_file();
    let mut other = log_file();
    let ends: Vec<usize> = vec![47, 95, 143, 196, 280, 365, 396, 443];
    for end in ends {
        for k in 1..=4 {
            other[end - k] ^= 0xff;
        }
    }
    let mut first = BinlogParser::new(4);
    let mut second = BinlogParser::new(4);
    let a = first.read_all(&mut BinlogSource { bytes: plain, position: 4 });
    let b = second.read_all(&mut BinlogSource { bytes: other, position: 4 });
    assert_eq!(a, b);
    assert_eq!(a.0.len(), 8);
}

#[test]
fn without_checksum_the_whole_body_is_decoded() {
    let event: Vec<u8> = vec![0u8, 0, 0, 95, 4, 1, 0, 0, 0, 36, 0, 0, 0, 36, 0, 0, 0, 0, 0, 4, 0, 0, 0, 0, 0, 0, 0, 98, 105, 110, 46, 49, 97, 98, 99, 100];
    let mut with = BinlogParser::new(4);
    let mut without = BinlogParser::new(0);
    let a = with.next(&mut BinlogSource { bytes: event.clone(), position: 0 }).unwrap().unwrap();
    let b = without.next(&mut BinlogSource { bytes: event, position: 0 }).unwrap().unwrap();
    assert_eq!(a.1, EventData::Rotate(RotateEvent { binlog_filename: b"bin.1".to_vec(), binlog_position: 4 }));
    assert_eq!(b.1, EventData::Rotate(RotateEvent { binlog_filename: b"bin.1abcd".to_vec(), binlog_position: 4 }));
}

#[test]
fn row_event_in_a_file_before_its_table_map() {
    let event: Vec<u8> = vec![0u8, 0, 0, 95, 30, 1, 0, 0, 0, 84, 0, 0, 0, 84, 0, 0, 0, 0, 0, 178, 10, 0, 0, 0, 0, 0, 0, 2, 0, 3, 7, 0, 7, 0, 0, 0, 3, 97, 98, 99, 23, 0, 0, 0, 0, 1, 0, 22, 0, 11, 0, 1, 0, 2, 12, 0, 107, 2, 0, 10, 0, 5, 1, 0, 5, 2, 0, 2, 248, 255, 255, 255, 3, 0, 0, 0, 12, 1, 115, 7, 0, 0, 0, 0];
    let mut parser = BinlogParser::new(4);
    let mut source = BinlogSource { bytes: event, position: 0 };
    assert_eq!(parser.next(&mut source), Err(BinlogError::UnknownTable(0xab2)));
    assert_eq!(source.position, 0);
    assert!(parser.table_map_event_by_table_id.is_empty());
}

#[test]
fn file_goes_through_its_states() {
    let mut file = BinlogFile::new(log_file(), 4);
    assert_eq!(file.state, FileState::Unopened);
    assert_eq!(file.next(), Err(BinlogError::Protocol));
    assert_eq!(file.state, FileState::Unopened);
    assert_eq!(file.check_magic(), Ok(()));
    assert_eq!(file.state, FileState::MagicChecked);
    assert_eq!(file.check_magic(), Err(BinlogError::Protocol));
    assert_eq!(file.state, FileState::MagicChecked);
    let mut count = 0;
    while let Some((header, _data)) = file.next().unwrap() {
        count += 1;
        assert_eq!(file.state, FileState::Reading);
        assert_eq!(file.source.position as u32, header.next_event_position);
    }
    assert_eq!(count, 8);
    assert_eq!(file.state, FileState::Done);
    assert_eq!(file.next(), Ok(None));
    assert_eq!(file.check_magic(), Err(BinlogError::Protocol));
    assert_eq!(file.state, FileState::Done);
}

#[test]
fn file_that_fails_stays_failed() {
    let mut bytes = log_file();
    bytes.truncate(bytes.len() - 3);
    let mut file = BinlogFile::new(bytes, 4);
    file.check_magic().unwrap();
    let mut count = 0;
    let error = loop {
        match file.next() {
            Ok(Some(_)) => count += 1,
            Ok(None) => panic!("the end was not expected"),
            Err(e) => break e,
        }
    };
    assert_eq!(count, 7);
    assert_eq!(error, BinlogError::Protocol);
    assert_eq!(file.state, FileState::Failed(BinlogError::Protocol));
    assert_eq!(file.next(), Err(BinlogError::Protocol));
    assert_eq!(file.check_magic(), Err(BinlogError::Protocol));
    let mut other = BinlogFile::new(b"not a log".to_vec(), 4);
    assert_eq!(other.check_magic(), Err(BinlogError::Format));
    assert_eq!(other.state, FileState::Failed(BinlogError::Format));
    assert_eq!(other.next(), Err(BinlogError::Format));
    assert_eq!(other.check_magic(), Err(BinlogError::Format));
}
