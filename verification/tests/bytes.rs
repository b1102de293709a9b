use mysql_binlog::bytes::{
    copy_range, fits, push_le, read_be, read_bit, read_bits, read_le, read_packed,
};
use mysql_binlog::error::BinlogError;
use mysql_binlog::temporal::{DateTimeValue, DateValue, TimeValue};
use mysql_binlog::text::{push_base64, push_bytes, push_int, push_nat, push_quoted};

#[test]
fn little_and_big_endian_values() {
    let bytes = [0x01u8, 0x02, 0x03, 0x04, 0x05, 0x06, 0x07, 0x08, 0x09];
    assert_eq!(read_le(&bytes, 0, 0), 0);
    assert_eq!(read_le(&bytes, 0, 1), 0x01);
    assert_eq!(read_le(&bytes, 1, 2), 0x0302);
    assert_eq!(read_le(&bytes, 0, 3), 0x030201);
    assert_eq!(read_le(&bytes, 1, 8), 0x0908070605040302);
    assert_eq!(read_be(&bytes, 0, 0), 0);
    assert_eq!(read_be(&bytes, 1, 2), 0x0203);
    assert_eq!(read_be(&bytes, 0, 8), 0x0102030405060708);
    assert_eq!(read_le(&[0xff; 8], 0, 8), u64::MAX);
    assert_eq!(read_be(&[0xff; 8], 0, 8), u64::MAX);
}

#[test]
fn written_numbers_are_read_back() {
    for (value, width) in [(0u64, 0usize), (0x12, 1), (0x1234, 2), (0xabcdef, 3), (u64::MAX, 8)] {
        let mut out = vec![7u8];
        push_le(&mut out, value, width);
        assert_eq!(out.len(), 1 + width);
        assert_eq!(read_le(&out, 1, width), value);
    }
    let mut out = Vec::new();
    push_le(&mut out, 0x0102030405, 2);
    assert_eq!(out, vec![0x05, 0x04]);
}

#[test]
fn bounds() {
    let bytes = [0u8; 4];
    assert!(fits(&bytes, 0, 4));
    assert!(fits(&bytes, 4, 0));
    assert!(!fits(&bytes, 1, 4));
    assert!(!fits(&bytes, 5, 0));
    assert!(!fits(&bytes, 1, usize::MAX));
    assert_eq!(copy_range(&[1, 2, 3, 4], 1, 3), vec![2, 3]);
    assert_eq!(copy_range(&[1, 2, 3, 4], 2, 2), Vec::<u8>::new());
}

#[test]
fn length_encoded_integers() {
    assert_eq!(read_packed(&[9, 0, 250], 2), Some((250, 3)));
    assert_eq!(read_packed(&[252, 0x34, 0x12], 0), Some((0x1234, 3)));
    assert_eq!(read_packed(&[253, 1, 2, 3], 0), Some((0x030201, 4)));
    assert_eq!(read_packed(&[254, 1, 2, 3, 4, 5, 6, 7, 8], 0), Some((0x0807060504030201, 9)));
    assert_eq!(read_packed(&[251], 0), None);
    assert_eq!(read_packed(&[255, 0, 0, 0, 0, 0, 0, 0, 0], 0), None);
    assert_eq!(read_packed(&[252, 1], 0), None);
    assert_eq!(read_packed(&[253, 1, 2], 0), None);
    assert_eq!(read_packed(&[254, 1, 2, 3, 4, 5, 6, 7], 0), None);
    assert_eq!(read_packed(&[], 0), None);
    assert_eq!(read_packed(&[1], 1), None);
}

#[test]
fn bitmaps_count_from_the_lowest_bit() {
    let bytes = [0xffu8, 0b0000_0101, 0b1000_0000];
    assert!(read_bit(&bytes, 1, 0));
    assert!(!read_bit(&bytes, 1, 1));
    assert!(read_bit(&bytes, 1, 2));
    assert!(!read_bit(&bytes, 1, 14));
    assert!(read_bit(&bytes, 1, 15));
    assert_eq!(
        read_bits(&bytes, 1, 10),
        vec![true, false, true, false, false, false, false, false, false, false]
    );
    assert_eq!(read_bits(&bytes, 3, 0), Vec::<bool>::new());
}

#[test]
fn numbers_as_text() {
    let mut out = Vec::new();
    push_nat(&mut out, 0);
    out.push(b' ');
    push_nat(&mut out, 18446744073709551615);
    out.push(b' ');
    push_int(&mut out, -9223372036854775808);
    out.push(b' ');
    push_int(&mut out, 9223372036854775807);
    out.push(b' ');
    push_int(&mut out, -1);
    assert_eq!(
        out,
        b"0 18446744073709551615 -9223372036854775808 9223372036854775807 -1".to_vec()
    );
}

#[test]
fn quoting_and_base64() {
    let mut out = Vec::new();
    push_quoted(&mut out, b"--a\"b\\c\n\x00--", 2, 9);
    assert_eq!(out, b"\"a\\\"b\\\\c\\n\\u0000\"".to_vec());
    let mut out = b">".to_vec();
    push_base64(&mut out, b"..any carnal pleas", 2, 18);
    assert_eq!(out, b">YW55IGNhcm5hbCBwbGVhcw==".to_vec());
    let mut out = Vec::new();
    push_base64(&mut out, b"any carnal pleasu", 0, 17);
    assert_eq!(out, b"YW55IGNhcm5hbCBwbGVhc3U=".to_vec());
    let mut out = Vec::new();
    push_base64(&mut out, &[0xfb, 0xff, 0xbf], 0, 3);
    assert_eq!(out, b"+/+/".to_vec());
    let mut out = b"x".to_vec();
    push_bytes(&mut out, b"yz");
    assert_eq!(out, b"xyz".to_vec());
}

#[test]
fn dates_and_times_as_text() {
    assert_eq!(DateValue { year: 2021, month: 3, day: 4 }.text(), b"2021-03-04".to_vec());
    assert_eq!(DateValue { year: 0, month: 0, day: 0 }.text(), b"0000-00-00".to_vec());
    assert_eq!(DateValue { year: 12345, month: 1, day: 2 }.text(), b"12345-01-02".to_vec());
    assert_eq!(
        TimeValue { negative: true, hours: 838, minutes: 59, seconds: 58, micros: 120 }.text(),
        b"-838:59:58.000120".to_vec()
    );
    assert_eq!(
        TimeValue { negative: false, hours: 1, minutes: 2, seconds: 3, micros: 0 }.text(),
        b"01:02:03.000000".to_vec()
    );
    assert_eq!(
        DateTimeValue { year: 1999, month: 12, day: 31, hour: 23, minute: 59, second: 59, micros: 999999 }
            .text(),
        b"1999-12-31 23:59:59.999999".to_vec()
    );
}

#[test]
fn errors_are_described() {
    let all = [
        BinlogError::Connection,
        BinlogError::Timeout,
        BinlogError::Io,
        BinlogError::Protocol,
        BinlogError::Format,
        BinlogError::UnknownTable(7),
    ];
    let texts: Vec<&str> = all.iter().map(|e| e.describe()).collect();
    assert_eq!(texts[0], "the server refused the connection");
    assert_eq!(texts[5], "a row event names a table that was not mapped");
    for i in 0..texts.len() {
        for j in 0..i {
            assert_ne!(texts[i], texts[j]);
        }
    }
}
