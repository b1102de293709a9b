use mysql_binlog::column::{decode_column, ColumnValue};
use mysql_binlog::error::BinlogError;
use mysql_binlog::temporal::{DateTimeValue, DateValue, TimeValue};

#[test]
fn tiny_is_signed() {
    let bytes: Vec<u8> = vec![7u8, 255, 9, 9];
    assert_eq!(decode_column(&bytes, 1, 1, 0), Ok((ColumnValue::Tiny(-1), 2)));
}

#[test]
fn tiny_positive() {
    let bytes: Vec<u8> = vec![7u8, 127, 9, 9];
    assert_eq!(decode_column(&bytes, 1, 1, 0), Ok((ColumnValue::Tiny(127), 2)));
}

#[test]
fn short_is_little_endian() {
    let bytes: Vec<u8> = vec![7u8, 254, 255, 9, 9];
    assert_eq!(decode_column(&bytes, 1, 2, 0), Ok((ColumnValue::Short(-2), 3)));
}

#[test]
fn short_positive() {
    let bytes: Vec<u8> = vec![7u8, 52, 18, 9, 9];
    assert_eq!(decode_column(&bytes, 1, 2, 0), Ok((ColumnValue::Short(0x1234), 3)));
}

#[test]
fn int24_is_widened() {
    let bytes: Vec<u8> = vec![7u8, 253, 255, 255, 9, 9];
    assert_eq!(decode_column(&bytes, 1, 9, 0), Ok((ColumnValue::Long(-3), 4)));
}

#[test]
fn int24_positive() {
    let bytes: Vec<u8> = vec![7u8, 255, 255, 127, 9, 9];
    assert_eq!(decode_column(&bytes, 1, 9, 0), Ok((ColumnValue::Long(8388607), 4)));
}

#[test]
fn long_negative() {
    let bytes: Vec<u8> = vec![7u8, 0, 108, 202, 136, 9, 9];
    assert_eq!(decode_column(&bytes, 1, 3, 0), Ok((ColumnValue::Long(-2000000000), 5)));
}

#[test]
fn long_positive() {
    let bytes: Vec<u8> = vec![7u8, 0, 148, 53, 119, 9, 9];
    assert_eq!(decode_column(&bytes, 1, 3, 0), Ok((ColumnValue::Long(2000000000), 5)));
}

#[test]
fn longlong_minimum() {
    let bytes: Vec<u8> = vec![7u8, 0, 0, 0, 0, 0, 0, 0, 128, 9, 9];
    assert_eq!(decode_column(&bytes, 1, 8, 0), Ok((ColumnValue::LongLong(i64::MIN), 9)));
}

#[test]
fn longlong_maximum() {
    let bytes: Vec<u8> = vec![7u8, 255, 255, 255, 255, 255, 255, 255, 127, 9, 9];
    assert_eq!(decode_column(&bytes, 1, 8, 0), Ok((ColumnValue::LongLong(i64::MAX), 9)));
}

#[test]
fn longlong_minus_one() {
    let bytes: Vec<u8> = vec![7u8, 255, 255, 255, 255, 255, 255, 255, 255, 9, 9];
    assert_eq!(decode_column(&bytes, 1, 8, 0), Ok((ColumnValue::LongLong(-1), 9)));
}

#[test]
fn float_keeps_its_bits() {
    let bytes: Vec<u8> = vec![7u8, 0, 0, 192, 63, 9, 9];
    assert_eq!(decode_column(&bytes, 1, 4, 4), Ok((ColumnValue::Float(1.5f32.to_bits()), 5)));
}

#[test]
fn double_keeps_its_bits() {
    let bytes: Vec<u8> = vec![7u8, 0, 0, 0, 0, 0, 0, 2, 192, 9, 9];
    assert_eq!(decode_column(&bytes, 1, 5, 8), Ok((ColumnValue::Double((-2.25f64).to_bits()), 9)));
}

#[test]
fn year_counts_from_1900() {
    let bytes: Vec<u8> = vec![7u8, 121, 9, 9];
    assert_eq!(decode_column(&bytes, 1, 13, 0), Ok((ColumnValue::Year(2021), 2)));
}

#[test]
fn year_zero() {
    let bytes: Vec<u8> = vec![7u8, 0, 9, 9];
    assert_eq!(decode_column(&bytes, 1, 13, 0), Ok((ColumnValue::Year(0), 2)));
}

#[test]
fn date_is_packed() {
    let bytes: Vec<u8> = vec![7u8, 100, 202, 15, 9, 9];
    assert_eq!(decode_column(&bytes, 1, 10, 0), Ok((ColumnValue::Date(DateValue { year: 2021, month: 3, day: 4 }), 4)));
}

#[test]
fn time_is_decimal() {
    let bytes: Vec<u8> = vec![7u8, 64, 226, 1, 9, 9];
    assert_eq!(decode_column(&bytes, 1, 11, 0), Ok((ColumnValue::Time(TimeValue { negative: false, hours: 12, minutes: 34, seconds: 56, micros: 0 }), 4)));
}

#[test]
fn time_negative_decimal() {
    let bytes: Vec<u8> = vec![7u8, 192, 29, 254, 9, 9];
    assert_eq!(decode_column(&bytes, 1, 11, 0), Ok((ColumnValue::Time(TimeValue { negative: true, hours: 12, minutes: 34, seconds: 56, micros: 0 }), 4)));
}

#[test]
fn datetime_is_decimal() {
    let bytes: Vec<u8> = vec![7u8, 64, 130, 255, 147, 97, 18, 0, 0, 9, 9];
    assert_eq!(decode_column(&bytes, 1, 12, 0), Ok((ColumnValue::DateTime(DateTimeValue { year: 2021, month: 3, day: 4, hour: 12, minute: 34, second: 56, micros: 0 }), 9)));
}

#[test]
fn timestamp_in_microseconds() {
    let bytes: Vec<u8> = vec![7u8, 0, 16, 94, 95, 9, 9];
    assert_eq!(decode_column(&bytes, 1, 7, 0), Ok((ColumnValue::Timestamp(1600000000000000), 5)));
}

#[test]
fn timestamp2_without_fraction() {
    let bytes: Vec<u8> = vec![7u8, 95, 94, 16, 0, 9, 9];
    assert_eq!(decode_column(&bytes, 1, 17, 0), Ok((ColumnValue::Timestamp(1600000000000000), 5)));
}

#[test]
fn timestamp2_with_three_digits() {
    let bytes: Vec<u8> = vec![7u8, 95, 94, 16, 0, 4, 206, 9, 9];
    assert_eq!(decode_column(&bytes, 1, 17, 3), Ok((ColumnValue::Timestamp(1600000000123000), 7)));
}

#[test]
fn timestamp2_with_six_digits() {
    let bytes: Vec<u8> = vec![7u8, 95, 94, 16, 0, 1, 226, 64, 9, 9];
    assert_eq!(decode_column(&bytes, 1, 17, 6), Ok((ColumnValue::Timestamp(1600000000123456), 8)));
}

#[test]
fn timestamp2_with_one_digit() {
    let bytes: Vec<u8> = vec![7u8, 95, 94, 16, 0, 90, 9, 9];
    assert_eq!(decode_column(&bytes, 1, 17, 1), Ok((ColumnValue::Timestamp(1600000000900000), 6)));
}

#[test]
fn datetime2_with_six_digits() {
    let bytes: Vec<u8> = vec![7u8, 153, 169, 8, 200, 184, 1, 226, 64, 9, 9];
    assert_eq!(decode_column(&bytes, 1, 18, 6), Ok((ColumnValue::DateTime(DateTimeValue { year: 2021, month: 3, day: 4, hour: 12, minute: 34, second: 56, micros: 123456 }), 9)));
}

#[test]
fn datetime2_without_fraction() {
    let bytes: Vec<u8> = vec![7u8, 254, 243, 255, 126, 251, 9, 9];
    assert_eq!(decode_column(&bytes, 1, 18, 0), Ok((ColumnValue::DateTime(DateTimeValue { year: 9999, month: 12, day: 31, hour: 23, minute: 59, second: 59, micros: 0 }), 6)));
}

#[test]
fn datetime2_with_two_digits() {
    let bytes: Vec<u8> = vec![7u8, 140, 178, 66, 0, 0, 5, 9, 9];
    assert_eq!(decode_column(&bytes, 1, 18, 2), Ok((ColumnValue::DateTime(DateTimeValue { year: 1000, month: 1, day: 1, hour: 0, minute: 0, second: 0, micros: 50000 }), 7)));
}

#[test]
fn time2_without_fraction() {
    let bytes: Vec<u8> = vec![7u8, 128, 200, 184, 9, 9];
    assert_eq!(decode_column(&bytes, 1, 19, 0), Ok((ColumnValue::Time(TimeValue { negative: false, hours: 12, minutes: 34, seconds: 56, micros: 0 }), 4)));
}

#[test]
fn time2_negative_without_fraction() {
    let bytes: Vec<u8> = vec![7u8, 75, 145, 5, 9, 9];
    assert_eq!(decode_column(&bytes, 1, 19, 0), Ok((ColumnValue::Time(TimeValue { negative: true, hours: 838, minutes: 59, seconds: 59, micros: 0 }), 4)));
}

#[test]
fn time2_zero() {
    let bytes: Vec<u8> = vec![7u8, 128, 0, 0, 0, 9, 9];
    assert_eq!(decode_column(&bytes, 1, 19, 2), Ok((ColumnValue::Time(TimeValue { negative: false, hours: 0, minutes: 0, seconds: 0, micros: 0 }), 5)));
}

#[test]
fn time2_negative_hundredth() {
    let bytes: Vec<u8> = vec![7u8, 127, 255, 255, 255, 9, 9];
    assert_eq!(decode_column(&bytes, 1, 19, 2), Ok((ColumnValue::Time(TimeValue { negative: true, hours: 0, minutes: 0, seconds: 0, micros: 10000 }), 5)));
}

#[test]
fn time2_negative_ninety_nine_hundredths() {
    let bytes: Vec<u8> = vec![7u8, 127, 255, 255, 157, 9, 9];
    assert_eq!(decode_column(&bytes, 1, 19, 2), Ok((ColumnValue::Time(TimeValue { negative: true, hours: 0, minutes: 0, seconds: 0, micros: 990000 }), 5)));
}

#[test]
fn time2_negative_one_second() {
    let bytes: Vec<u8> = vec![7u8, 127, 255, 255, 0, 9, 9];
    assert_eq!(decode_column(&bytes, 1, 19, 2), Ok((ColumnValue::Time(TimeValue { negative: true, hours: 0, minutes: 0, seconds: 1, micros: 0 }), 5)));
}

#[test]
fn time2_negative_second_and_tenth() {
    let bytes: Vec<u8> = vec![7u8, 127, 255, 254, 246, 9, 9];
    assert_eq!(decode_column(&bytes, 1, 19, 2), Ok((ColumnValue::Time(TimeValue { negative: true, hours: 0, minutes: 0, seconds: 1, micros: 100000 }), 5)));
}

#[test]
fn time2_with_four_digits() {
    let bytes: Vec<u8> = vec![7u8, 128, 16, 131, 4, 210, 9, 9];
    assert_eq!(decode_column(&bytes, 1, 19, 4), Ok((ColumnValue::Time(TimeValue { negative: false, hours: 1, minutes: 2, seconds: 3, micros: 123400 }), 6)));
}

#[test]
fn time2_with_six_digits() {
    let bytes: Vec<u8> = vec![7u8, 128, 16, 131, 15, 66, 63, 9, 9];
    assert_eq!(decode_column(&bytes, 1, 19, 6), Ok((ColumnValue::Time(TimeValue { negative: false, hours: 1, minutes: 2, seconds: 3, micros: 999999 }), 7)));
}

#[test]
fn time2_negative_with_six_digits() {
    let bytes: Vec<u8> = vec![7u8, 127, 239, 124, 255, 255, 251, 9, 9];
    assert_eq!(decode_column(&bytes, 1, 19, 6), Ok((ColumnValue::Time(TimeValue { negative: true, hours: 1, minutes: 2, seconds: 3, micros: 5 }), 7)));
}

#[test]
fn varchar_with_short_length() {
    let bytes: Vec<u8> = vec![7u8, 3, 97, 98, 99, 9, 9];
    assert_eq!(decode_column(&bytes, 1, 15, 255), Ok((ColumnValue::String(b"abc".to_vec()), 5)));
}

#[test]
fn varchar_with_long_length() {
    let bytes: Vec<u8> = vec![7u8, 3, 0, 97, 98, 99, 9, 9];
    assert_eq!(decode_column(&bytes, 1, 15, 256), Ok((ColumnValue::String(b"abc".to_vec()), 6)));
}

#[test]
fn varchar_empty() {
    let bytes: Vec<u8> = vec![7u8, 0, 9, 9];
    assert_eq!(decode_column(&bytes, 1, 15, 20), Ok((ColumnValue::String(Vec::new()), 2)));
}

#[test]
fn var_string() {
    let bytes: Vec<u8> = vec![7u8, 2, 104, 105, 9, 9];
    assert_eq!(decode_column(&bytes, 1, 253, 10), Ok((ColumnValue::String(b"hi".to_vec()), 4)));
}

#[test]
fn char_column() {
    let bytes: Vec<u8> = vec![7u8, 2, 104, 105, 9, 9];
    assert_eq!(decode_column(&bytes, 1, 254, 65034), Ok((ColumnValue::String(b"hi".to_vec()), 4)));
}

#[test]
fn char_column_with_metadata_below_256() {
    let bytes: Vec<u8> = vec![7u8, 2, 104, 105, 9, 9];
    assert_eq!(decode_column(&bytes, 1, 254, 40), Ok((ColumnValue::String(b"hi".to_vec()), 4)));
}

#[test]
fn long_char_column_has_two_length_bytes() {
    let bytes: Vec<u8> = vec![7u8, 2, 0, 104, 105, 9, 9];
    assert_eq!(decode_column(&bytes, 1, 254, 52988), Ok((ColumnValue::String(b"hi".to_vec()), 5)));
}

#[test]
fn enum_in_a_string_column() {
    let bytes: Vec<u8> = vec![7u8, 3, 9, 9];
    assert_eq!(decode_column(&bytes, 1, 254, 63233), Ok((ColumnValue::Enum(3), 2)));
}

#[test]
fn enum_of_two_bytes() {
    let bytes: Vec<u8> = vec![7u8, 1, 2, 9, 9];
    assert_eq!(decode_column(&bytes, 1, 254, 63234), Ok((ColumnValue::Enum(513), 3)));
}

#[test]
fn set_in_a_string_column() {
    let bytes: Vec<u8> = vec![7u8, 5, 1, 9, 9];
    assert_eq!(decode_column(&bytes, 1, 254, 63490), Ok((ColumnValue::SetMembers(261), 3)));
}

#[test]
fn set_of_eight_bytes() {
    let bytes: Vec<u8> = vec![7u8, 1, 0, 0, 0, 0, 0, 0, 128, 9, 9];
    assert_eq!(decode_column(&bytes, 1, 248, 8), Ok((ColumnValue::SetMembers(0x8000_0000_0000_0001), 9)));
}

#[test]
fn enum_type_code() {
    let bytes: Vec<u8> = vec![7u8, 7, 9, 9];
    assert_eq!(decode_column(&bytes, 1, 247, 1), Ok((ColumnValue::Enum(7), 2)));
}

#[test]
fn bit_of_ten_bits_is_big_endian() {
    let bytes: Vec<u8> = vec![7u8, 2, 1, 9, 9];
    assert_eq!(decode_column(&bytes, 1, 16, 258), Ok((ColumnValue::Bit(0x201), 3)));
}

#[test]
fn bit_of_sixty_four_bits() {
    let bytes: Vec<u8> = vec![7u8, 128, 0, 0, 0, 0, 0, 0, 1, 9, 9];
    assert_eq!(decode_column(&bytes, 1, 16, 2048), Ok((ColumnValue::Bit(0x8000_0000_0000_0001), 9)));
}

#[test]
fn bit_of_one_bit() {
    let bytes: Vec<u8> = vec![7u8, 1, 9, 9];
    assert_eq!(decode_column(&bytes, 1, 16, 1), Ok((ColumnValue::Bit(1), 2)));
}

#[test]
fn blob_with_two_length_bytes() {
    let bytes: Vec<u8> = vec![7u8, 3, 0, 120, 121, 122, 9, 9];
    assert_eq!(decode_column(&bytes, 1, 252, 2), Ok((ColumnValue::Blob(b"xyz".to_vec()), 6)));
}

#[test]
fn blob_with_one_length_byte() {
    let bytes: Vec<u8> = vec![7u8, 1, 255, 9, 9];
    assert_eq!(decode_column(&bytes, 1, 252, 1), Ok((ColumnValue::Blob(vec![0xff]), 3)));
}

#[test]
fn blob_with_four_length_bytes() {
    let bytes: Vec<u8> = vec![7u8, 2, 0, 0, 0, 1, 2, 9, 9];
    assert_eq!(decode_column(&bytes, 1, 252, 4), Ok((ColumnValue::Blob(vec![1, 2]), 7)));
}

#[test]
fn blob_with_three_length_bytes() {
    let bytes: Vec<u8> = vec![7u8, 0, 0, 0, 9, 9];
    assert_eq!(decode_column(&bytes, 1, 252, 3), Ok((ColumnValue::Blob(Vec::new()), 4)));
}

#[test]
fn geometry_is_a_blob() {
    let bytes: Vec<u8> = vec![7u8, 1, 0, 0, 0, 42, 9, 9];
    assert_eq!(decode_column(&bytes, 1, 255, 4), Ok((ColumnValue::Blob(vec![42]), 6)));
}

#[test]
fn json_keeps_the_raw_document() {
    let bytes: Vec<u8> = vec![7u8, 2, 0, 0, 0, 4, 1, 9, 9];
    assert_eq!(decode_column(&bytes, 1, 245, 4), Ok((ColumnValue::Json(vec![4, 1]), 7)));
}

#[test]
fn decimal_positive() {
    let bytes: Vec<u8> = vec![7u8, 129, 13, 251, 56, 210, 4, 210, 9, 9];
    assert_eq!(decode_column(&bytes, 1, 246, 1038), Ok((ColumnValue::Decimal(b"1234567890.1234".to_vec()), 8)));
}

#[test]
fn decimal_negative() {
    let bytes: Vec<u8> = vec![7u8, 126, 242, 4, 199, 45, 251, 45, 9, 9];
    assert_eq!(decode_column(&bytes, 1, 246, 1038), Ok((ColumnValue::Decimal(b"-1234567890.1234".to_vec()), 8)));
}

#[test]
fn decimal_without_scale() {
    let bytes: Vec<u8> = vec![7u8, 128, 0, 0, 0, 5, 9, 9];
    assert_eq!(decode_column(&bytes, 1, 246, 10), Ok((ColumnValue::Decimal(b"5".to_vec()), 6)));
}

#[test]
fn decimal_zero() {
    let bytes: Vec<u8> = vec![7u8, 128, 0, 0, 0, 0, 9, 9];
    assert_eq!(decode_column(&bytes, 1, 246, 522), Ok((ColumnValue::Decimal(b"0.00".to_vec()), 6)));
}

#[test]
fn decimal_fraction_only() {
    let bytes: Vec<u8> = vec![7u8, 132, 210, 9, 9];
    assert_eq!(decode_column(&bytes, 1, 246, 1028), Ok((ColumnValue::Decimal(b"0.1234".to_vec()), 3)));
}

#[test]
fn decimal_fraction_keeps_leading_zeros() {
    let bytes: Vec<u8> = vec![7u8, 140, 0, 7, 9, 9];
    assert_eq!(decode_column(&bytes, 1, 246, 773), Ok((ColumnValue::Decimal(b"12.007".to_vec()), 4)));
}

#[test]
fn decimal_with_full_groups_on_both_sides() {
    let bytes: Vec<u8> = vec![7u8, 129, 13, 251, 56, 210, 0, 188, 97, 78, 9, 9, 9];
    assert_eq!(decode_column(&bytes, 1, 246, 2580), Ok((ColumnValue::Decimal(b"1234567890.0123456789".to_vec()), 11)));
}

#[test]
fn decimal_integer_zero_padded_inside() {
    let bytes: Vec<u8> = vec![7u8, 128, 7, 0, 0, 0, 5, 9, 9];
    assert_eq!(decode_column(&bytes, 1, 246, 12), Ok((ColumnValue::Decimal(b"7000000005".to_vec()), 7)));
}

#[test]
fn unknown_column_type() {
    let bytes: Vec<u8> = vec![1u8, 2, 3, 4, 5, 6, 7, 8];
    assert_eq!(decode_column(&bytes, 0, 200, 0), Err(BinlogError::Protocol));
}

#[test]
fn null_column_type_has_no_value() {
    let bytes: Vec<u8> = vec![1u8, 2, 3, 4];
    assert_eq!(decode_column(&bytes, 0, 6, 0), Err(BinlogError::Protocol));
}

#[test]
fn long_cut_short() {
    let bytes: Vec<u8> = vec![1u8, 2, 3];
    assert_eq!(decode_column(&bytes, 0, 3, 0), Err(BinlogError::Protocol));
}

#[test]
fn varchar_cut_short() {
    let bytes: Vec<u8> = vec![5u8, 1, 2];
    assert_eq!(decode_column(&bytes, 0, 15, 10), Err(BinlogError::Protocol));
}

#[test]
fn varchar_without_length() {
    let bytes: Vec<u8> = Vec::<u8>::new();
    assert_eq!(decode_column(&bytes, 0, 15, 10), Err(BinlogError::Protocol));
}

#[test]
fn blob_with_zero_length_bytes() {
    let bytes: Vec<u8> = vec![1u8, 2, 3];
    assert_eq!(decode_column(&bytes, 0, 252, 0), Err(BinlogError::Protocol));
}

#[test]
fn blob_with_five_length_bytes() {
    let bytes: Vec<u8> = vec![0u8, 0, 0, 0, 0, 0];
    assert_eq!(decode_column(&bytes, 0, 252, 5), Err(BinlogError::Protocol));
}

#[test]
fn json_cut_short() {
    let bytes: Vec<u8> = vec![9u8, 0, 0, 0, 1];
    assert_eq!(decode_column(&bytes, 0, 245, 4), Err(BinlogError::Protocol));
}

#[test]
fn timestamp2_with_precision_above_six() {
    let bytes: Vec<u8> = vec![0u8, 0, 0, 0, 0, 0, 0, 0, 0, 0, 0, 0];
    assert_eq!(decode_column(&bytes, 0, 17, 7), Err(BinlogError::Protocol));
}

#[test]
fn datetime2_cut_short() {
    let bytes: Vec<u8> = vec![153u8, 153, 153, 153, 153, 153, 153];
    assert_eq!(decode_column(&bytes, 0, 18, 6), Err(BinlogError::Protocol));
}

#[test]
fn time2_with_precision_above_six() {
    let bytes: Vec<u8> = vec![0u8, 0, 0, 0, 0, 0, 0, 0, 0, 0, 0, 0];
    assert_eq!(decode_column(&bytes, 0, 19, 9), Err(BinlogError::Protocol));
}

#[test]
fn datetime_with_year_out_of_range() {
    let bytes: Vec<u8> = vec![0u8, 192, 87, 115, 165, 124, 2, 0];
    assert_eq!(decode_column(&bytes, 0, 12, 0), Err(BinlogError::Protocol));
}

#[test]
fn bit_wider_than_sixty_four() {
    let bytes: Vec<u8> = vec![0u8, 0, 0, 0, 0, 0, 0, 0, 0, 0, 0, 0, 0, 0, 0, 0];
    assert_eq!(decode_column(&bytes, 0, 16, 2304), Err(BinlogError::Protocol));
}

#[test]
fn enum_of_three_bytes() {
    let bytes: Vec<u8> = vec![0u8, 0, 0, 0, 0, 0, 0, 0];
    assert_eq!(decode_column(&bytes, 0, 247, 3), Err(BinlogError::Protocol));
}

#[test]
fn set_of_nine_bytes() {
    let bytes: Vec<u8> = vec![0u8, 0, 0, 0, 0, 0, 0, 0, 0, 0, 0, 0, 0, 0, 0, 0];
    assert_eq!(decode_column(&bytes, 0, 248, 9), Err(BinlogError::Protocol));
}

#[test]
fn set_of_no_bytes() {
    let bytes: Vec<u8> = vec![0u8, 0, 0, 0, 0, 0, 0, 0, 0, 0, 0, 0, 0, 0, 0, 0];
    assert_eq!(decode_column(&bytes, 0, 248, 0), Err(BinlogError::Protocol));
}

#[test]
fn decimal_with_scale_above_precision() {
    let bytes: Vec<u8> = vec![128u8, 128, 128, 128, 128, 128, 128, 128, 128, 128, 128, 128, 128, 128, 128, 128];
    assert_eq!(decode_column(&bytes, 0, 246, 1284), Err(BinlogError::Protocol));
}

#[test]
fn decimal_with_precision_zero() {
    let bytes: Vec<u8> = vec![128u8, 128, 128, 128, 128, 128, 128, 128, 128, 128, 128, 128, 128, 128, 128, 128];
    assert_eq!(decode_column(&bytes, 0, 246, 0), Err(BinlogError::Protocol));
}

#[test]
fn decimal_cut_short() {
    let bytes: Vec<u8> = vec![129u8, 13, 251, 56, 210, 4];
    assert_eq!(decode_column(&bytes, 0, 246, 1038), Err(BinlogError::Protocol));
}

#[test]
fn decimal_group_with_too_many_digits() {
    let bytes: Vec<u8> = vec![187u8, 154, 202, 0];
    assert_eq!(decode_column(&bytes, 0, 246, 9), Err(BinlogError::Protocol));
}

#[test]
fn decimal_leftover_group_with_too_many_digits() {
    let bytes: Vec<u8> = vec![228u8];
    assert_eq!(decode_column(&bytes, 0, 246, 2), Err(BinlogError::Protocol));
}
