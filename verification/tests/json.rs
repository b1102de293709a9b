use mysql_binlog::error::BinlogError;
use mysql_binlog::json::{JsonBinary, JsonDouble, JsonText};

fn text_of(bytes: &[u8]) -> String {
    let rendered = JsonBinary::parse_as_string(bytes).unwrap();
    assert!(rendered.doubles.is_empty());
    String::from_utf8(rendered.text).unwrap()
}

#[test]
fn small_object_with_inline_and_string_members() {
    let document: Vec<u8> = vec![0u8, 2, 0, 22, 0, 18, 0, 1, 0, 19, 0, 1, 0, 5, 1, 0, 12, 20, 0, 97, 98, 1, 120];
    assert_eq!(text_of(&document), "{\"a\":1,\"b\":\"x\"}");
}

#[test]
fn empty_object() {
    let document: Vec<u8> = vec![0u8, 0, 0, 4, 0];
    assert_eq!(text_of(&document), "{}");
}

#[test]
fn empty_array() {
    let document: Vec<u8> = vec![2u8, 0, 0, 4, 0];
    assert_eq!(text_of(&document), "[]");
}

#[test]
fn array_of_literals() {
    let document: Vec<u8> = vec![2u8, 3, 0, 13, 0, 4, 0, 0, 4, 1, 0, 4, 2, 0];
    assert_eq!(text_of(&document), "[null,true,false]");
}

#[test]
fn nested_objects_keep_member_order() {
    let document: Vec<u8> = vec![0u8, 3, 0, 103, 0, 25, 0, 4, 0, 29, 0, 5, 0, 34, 0, 3, 0, 0, 37, 0, 2, 57, 0, 12, 101, 0, 122, 101, 116, 97, 97, 108, 112, 104, 97, 109, 105, 100, 2, 0, 20, 0, 18, 0, 1, 0, 19, 0, 1, 0, 5, 1, 0, 5, 2, 0, 98, 97, 2, 0, 44, 0, 5, 1, 0, 2, 10, 0, 2, 0, 34, 0, 5, 2, 0, 2, 10, 0, 2, 0, 24, 0, 5, 3, 0, 0, 10, 0, 1, 0, 14, 0, 11, 0, 1, 0, 12, 12, 0, 107, 1, 118, 1, 115];
    assert_eq!(text_of(&document), "{\"zeta\":{\"b\":1,\"a\":2},\"alpha\":[1,[2,[3,{\"k\":\"v\"}]]],\"mid\":\"s\"}");
}

#[test]
fn array_elements_keep_stored_order() {
    let document: Vec<u8> = vec![2u8, 7, 0, 59, 0, 5, 3, 0, 5, 1, 0, 5, 2, 0, 12, 25, 0, 12, 27, 0, 2, 29, 0, 0, 39, 0, 1, 98, 1, 97, 2, 0, 10, 0, 5, 9, 0, 5, 8, 0, 2, 0, 20, 0, 18, 0, 1, 0, 19, 0, 1, 0, 5, 1, 0, 5, 2, 0, 121, 120];
    assert_eq!(text_of(&document), "[3,1,2,\"b\",\"a\",[9,8],{\"y\":1,\"x\":2}]");
}

#[test]
fn scalar_int16() {
    let document: Vec<u8> = vec![5u8, 199, 207];
    assert_eq!(text_of(&document), "-12345");
}

#[test]
fn scalar_uint16() {
    let document: Vec<u8> = vec![6u8, 49, 212];
    assert_eq!(text_of(&document), "54321");
}

#[test]
fn scalar_int32() {
    let document: Vec<u8> = vec![7u8, 0, 108, 202, 136];
    assert_eq!(text_of(&document), "-2000000000");
}

#[test]
fn scalar_uint32() {
    let document: Vec<u8> = vec![8u8, 0, 40, 107, 238];
    assert_eq!(text_of(&document), "4000000000");
}

#[test]
fn scalar_int64() {
    let document: Vec<u8> = vec![9u8, 0, 0, 0, 0, 0, 0, 0, 128];
    assert_eq!(text_of(&document), "-9223372036854775808");
}

#[test]
fn scalar_uint64() {
    let document: Vec<u8> = vec![10u8, 255, 255, 255, 255, 255, 255, 255, 255];
    assert_eq!(text_of(&document), "18446744073709551615");
}

#[test]
fn scalar_literal_null() {
    let document: Vec<u8> = vec![4u8, 0];
    assert_eq!(text_of(&document), "null");
}

#[test]
fn scalar_literal_true() {
    let document: Vec<u8> = vec![4u8, 1];
    assert_eq!(text_of(&document), "true");
}

#[test]
fn scalar_literal_false() {
    let document: Vec<u8> = vec![4u8, 2];
    assert_eq!(text_of(&document), "false");
}

#[test]
fn scalar_string() {
    let document: Vec<u8> = vec![12u8, 5, 104, 101, 108, 108, 111];
    assert_eq!(text_of(&document), "\"hello\"");
}

#[test]
fn string_is_escaped() {
    let document: Vec<u8> = vec![12u8, 13, 113, 34, 98, 92, 115, 8, 12, 10, 13, 9, 1, 31, 47];
    assert_eq!(text_of(&document), "\"q\\\"b\\\\s\\b\\f\\n\\r\\t\\u0001\\u001f/\"");
}

#[test]
fn string_with_multibyte_characters() {
    let document: Vec<u8> = vec![12u8, 13, 104, 195, 169, 108, 108, 111, 32, 228, 184, 150, 231, 149, 140];
    assert_eq!(text_of(&document), "\"héllo 世界\"");
}

#[test]
fn string_longer_than_127_bytes() {
    let document: Vec<u8> = vec![12u8, 172, 2, 120, 120, 120, 120, 120, 120, 120, 120, 120, 120, 120, 120, 120, 120, 120, 120, 120, 120, 120, 120, 120, 120, 120, 120, 120, 120, 120, 120, 120, 120, 120, 120, 120, 120, 120, 120, 120, 120, 120, 120, 120, 120, 120, 120, 120, 120, 120, 120, 120, 120, 120, 120, 120, 120, 120, 120, 120, 120, 120, 120, 120, 120, 120, 120, 120, 120, 120, 120, 120, 120, 120, 120, 120, 120, 120, 120, 120, 120, 120, 120, 120, 120, 120, 120, 120, 120, 120, 120, 120, 120, 120, 120, 120, 120, 120, 120, 120, 120, 120, 120, 120, 120, 120, 120, 120, 120, 120, 120, 120, 120, 120, 120, 120, 120, 120, 120, 120, 120, 120, 120, 120, 120, 120, 120, 120, 120, 120, 120, 120, 120, 120, 120, 120, 120, 120, 120, 120, 120, 120, 120, 120, 120, 120, 120, 120, 120, 120, 120, 120, 120, 120, 120, 120, 120, 120, 120, 120, 120, 120, 120, 120, 120, 120, 120, 120, 120, 120, 120, 120, 120, 120, 120, 120, 120, 120, 120, 120, 120, 120, 120, 120, 120, 120, 120, 120, 120, 120, 120, 120, 120, 120, 120, 120, 120, 120, 120, 120, 120, 120, 120, 120, 120, 120, 120, 120, 120, 120, 120, 120, 120, 120, 120, 120, 120, 120, 120, 120, 120, 120, 120, 120, 120, 120, 120, 120, 120, 120, 120, 120, 120, 120, 120, 120, 120, 120, 120, 120, 120, 120, 120, 120, 120, 120, 120, 120, 120, 120, 120, 120, 120, 120, 120, 120, 120, 120, 120, 120, 120, 120, 120, 120, 120, 120, 120, 120, 120, 120, 120, 120, 120, 120, 120, 120, 120, 120, 120, 120, 120, 120, 120, 120, 120, 120, 120, 120, 120, 120, 120, 120, 120, 120, 120, 120, 120, 120, 120, 120, 120, 120, 120];
    assert_eq!(text_of(&document), "\"xxxxxxxxxxxxxxxxxxxxxxxxxxxxxxxxxxxxxxxxxxxxxxxxxxxxxxxxxxxxxxxxxxxxxxxxxxxxxxxxxxxxxxxxxxxxxxxxxxxxxxxxxxxxxxxxxxxxxxxxxxxxxxxxxxxxxxxxxxxxxxxxxxxxxxxxxxxxxxxxxxxxxxxxxxxxxxxxxxxxxxxxxxxxxxxxxxxxxxxxxxxxxxxxxxxxxxxxxxxxxxxxxxxxxxxxxxxxxxxxxxxxxxxxxxxxxxxxxxxxxxxxxxxxxxxxxxxxxxxxxxxxxxxxxxxxxxxxxxxx\"");
}

#[test]
fn key_is_escaped() {
    let document: Vec<u8> = vec![0u8, 1, 0, 14, 0, 11, 0, 3, 0, 5, 1, 0, 97, 34, 98];
    assert_eq!(text_of(&document), "{\"a\\\"b\":1}");
}

#[test]
fn integers_of_every_width_in_an_array() {
    let document: Vec<u8> = vec![2u8, 11, 0, 69, 0, 5, 0, 0, 5, 255, 255, 5, 255, 127, 5, 0, 128, 6, 255, 255, 7, 37, 0, 7, 41, 0, 7, 45, 0, 8, 49, 0, 9, 53, 0, 9, 61, 0, 0, 0, 1, 0, 192, 99, 255, 255, 255, 255, 255, 127, 255, 255, 255, 255, 0, 0, 0, 0, 1, 0, 0, 0, 0, 0, 0, 0, 255, 255, 255, 255];
    assert_eq!(text_of(&document), "[0,-1,32767,-32768,65535,65536,-40000,2147483647,4294967295,4294967296,-4294967296]");
}

#[test]
fn large_object() {
    let document: Vec<u8> = vec![1u8, 3, 0, 0, 0, 89, 0, 0, 0, 41, 0, 0, 0, 1, 0, 42, 0, 0, 0, 1, 0, 43, 0, 0, 0, 1, 0, 5, 1, 0, 0, 0, 3, 44, 0, 0, 0, 1, 67, 0, 0, 0, 97, 98, 99, 3, 0, 0, 0, 23, 0, 0, 0, 5, 1, 0, 0, 0, 5, 2, 0, 0, 0, 7, 112, 17, 1, 0, 1, 0, 0, 0, 22, 0, 0, 0, 19, 0, 0, 0, 1, 0, 12, 20, 0, 0, 0, 100, 1, 101];
    assert_eq!(text_of(&document), "{\"a\":1,\"b\":[1,2,70000],\"c\":{\"d\":\"e\"}}");
}

#[test]
fn large_array_inlines_32_bit_integers() {
    let document: Vec<u8> = vec![3u8, 5, 0, 0, 0, 35, 0, 0, 0, 7, 112, 17, 1, 0, 7, 144, 238, 254, 255, 8, 0, 40, 107, 238, 5, 1, 0, 0, 0, 12, 33, 0, 0, 0, 1, 115];
    assert_eq!(text_of(&document), "[70000,-70000,4000000000,1,\"s\"]");
}

#[test]
fn empty_document_is_null() {
    let document: Vec<u8> = Vec::<u8>::new();
    assert_eq!(text_of(&document), "null");
}

#[test]
fn opaque_decimal() {
    let document: Vec<u8> = vec![15u8, 246, 9, 14, 4, 129, 13, 251, 56, 210, 4, 210];
    assert_eq!(text_of(&document), "1234567890.1234");
}

#[test]
fn opaque_datetime() {
    let document: Vec<u8> = vec![15u8, 12, 8, 192, 212, 1, 25, 118, 31, 149, 25];
    assert_eq!(text_of(&document), "\"2015-01-15 23:24:25.120000\"");
}

#[test]
fn opaque_timestamp() {
    let document: Vec<u8> = vec![15u8, 7, 8, 0, 0, 0, 1, 0, 62, 168, 25];
    assert_eq!(text_of(&document), "\"2020-12-31 00:00:01.000000\"");
}

#[test]
fn opaque_date() {
    let document: Vec<u8> = vec![15u8, 10, 8, 0, 0, 0, 0, 0, 30, 149, 25];
    assert_eq!(text_of(&document), "\"2015-01-15\"");
}

#[test]
fn opaque_time() {
    let document: Vec<u8> = vec![15u8, 11, 8, 12, 0, 0, 25, 118, 1, 0, 0];
    assert_eq!(text_of(&document), "\"23:24:25.000012\"");
}

#[test]
fn opaque_negative_time() {
    let document: Vec<u8> = vec![15u8, 11, 8, 193, 189, 240, 5, 145, 203, 255, 255];
    assert_eq!(text_of(&document), "\"-838:59:58.999999\"");
}

#[test]
fn opaque_other_three_bytes() {
    let document: Vec<u8> = vec![15u8, 253, 3, 97, 98, 99];
    assert_eq!(text_of(&document), "\"base64:type253:YWJj\"");
}

#[test]
fn opaque_other_one_byte() {
    let document: Vec<u8> = vec![15u8, 253, 1, 255];
    assert_eq!(text_of(&document), "\"base64:type253:/w==\"");
}

#[test]
fn opaque_other_two_bytes() {
    let document: Vec<u8> = vec![15u8, 253, 2, 0, 254];
    assert_eq!(text_of(&document), "\"base64:type253:AP4=\"");
}

#[test]
fn opaque_other_empty() {
    let document: Vec<u8> = vec![15u8, 253, 0];
    assert_eq!(text_of(&document), "\"base64:type253:\"");
}

#[test]
fn opaque_other_seven_bytes() {
    let document: Vec<u8> = vec![15u8, 253, 7, 72, 101, 108, 108, 111, 33, 127];
    assert_eq!(text_of(&document), "\"base64:type253:SGVsbG8hfw==\"");
}

#[test]
fn double_is_listed_with_its_place_in_the_text() {
    let document: Vec<u8> = vec![0u8, 2, 0, 51, 0, 18, 0, 1, 0, 19, 0, 1, 0, 11, 20, 0, 2, 28, 0, 97, 98, 0, 0, 0, 0, 0, 0, 248, 63, 3, 0, 23, 0, 5, 1, 0, 11, 13, 0, 12, 21, 0, 0, 0, 0, 0, 0, 0, 208, 191, 1, 120];
    let rendered = JsonBinary::parse_as_string(&document).unwrap();
    assert_eq!(String::from_utf8(rendered.text).unwrap(), "{\"a\":,\"b\":[1,,\"x\"]}");
    assert_eq!(
        rendered.doubles,
        vec![
            JsonDouble { offset: 5, bits: 1.5f64.to_bits() },
            JsonDouble { offset: 13, bits: (-0.25f64).to_bits() },
        ]
    );
}

#[test]
fn doubles_filled_in_give_the_whole_text() {
    let document: Vec<u8> = vec![0u8, 2, 0, 51, 0, 18, 0, 1, 0, 19, 0, 1, 0, 11, 20, 0, 2, 28, 0, 97, 98, 0, 0, 0, 0, 0, 0, 248, 63, 3, 0, 23, 0, 5, 1, 0, 11, 13, 0, 12, 21, 0, 0, 0, 0, 0, 0, 0, 208, 191, 1, 120];
    let rendered = JsonBinary::parse_as_string(&document).unwrap();
    let mut text = String::from_utf8(rendered.text).unwrap();
    for double in rendered.doubles.iter().rev() {
        text.insert_str(double.offset, &f64::from_bits(double.bits).to_string());
    }
    assert_eq!(text, "{\"a\":1.5,\"b\":[1,-0.25,\"x\"]}");
}

#[test]
fn scalar_double() {
    let document: Vec<u8> = vec![11u8, 0, 0, 0, 0, 0, 0, 10, 64];
    let rendered = JsonBinary::parse_as_string(&document).unwrap();
    assert!(rendered.text.is_empty());
    assert_eq!(rendered.doubles, vec![JsonDouble { offset: 0, bits: 3.25f64.to_bits() }]);
}

#[test]
fn unknown_value_type_is_malformed() {
    let document: Vec<u8> = vec![13u8, 0, 0];
    assert_eq!(JsonBinary::parse_as_string(&document), Err(BinlogError::Format));
}

#[test]
fn truncated_object_is_malformed() {
    let document: Vec<u8> = vec![0u8, 2, 0, 22, 0, 18, 0, 1, 0, 19, 0, 1, 0, 5, 1, 0, 12, 20, 0, 97, 98, 1];
    assert_eq!(JsonBinary::parse_as_string(&document), Err(BinlogError::Format));
}

#[test]
fn object_header_cut_short_is_malformed() {
    let document: Vec<u8> = vec![0u8, 2, 0];
    assert_eq!(JsonBinary::parse_as_string(&document), Err(BinlogError::Format));
}

#[test]
fn literal_other_than_null_true_false_is_malformed() {
    let document: Vec<u8> = vec![4u8, 3];
    assert_eq!(JsonBinary::parse_as_string(&document), Err(BinlogError::Format));
}

#[test]
fn missing_scalar_bytes_are_malformed() {
    let document: Vec<u8> = vec![9u8, 1, 2, 3];
    assert_eq!(JsonBinary::parse_as_string(&document), Err(BinlogError::Format));
}

#[test]
fn string_longer_than_the_document_is_malformed() {
    let document: Vec<u8> = vec![12u8, 5, 97];
    assert_eq!(JsonBinary::parse_as_string(&document), Err(BinlogError::Format));
}

#[test]
fn variable_length_of_six_bytes_is_malformed() {
    let document: Vec<u8> = vec![12u8, 128, 128, 128, 128, 128, 1];
    assert_eq!(JsonBinary::parse_as_string(&document), Err(BinlogError::Format));
}

#[test]
fn value_offset_into_the_entries_is_malformed() {
    let document: Vec<u8> = vec![2u8, 1, 0, 7, 0, 2, 0, 0];
    assert_eq!(JsonBinary::parse_as_string(&document), Err(BinlogError::Format));
}

#[test]
fn value_offset_behind_the_container_is_malformed() {
    let document: Vec<u8> = vec![2u8, 1, 0, 7, 0, 12, 9, 0];
    assert_eq!(JsonBinary::parse_as_string(&document), Err(BinlogError::Format));
}

#[test]
fn key_outside_the_object_is_malformed() {
    let document: Vec<u8> = vec![0u8, 1, 0, 12, 0, 11, 0, 5, 0, 5, 1, 0, 97];
    assert_eq!(JsonBinary::parse_as_string(&document), Err(BinlogError::Format));
}

#[test]
fn opaque_decimal_with_wrong_length_is_malformed() {
    let document: Vec<u8> = vec![15u8, 246, 8, 14, 4, 129, 13, 251, 56, 210, 4];
    assert_eq!(JsonBinary::parse_as_string(&document), Err(BinlogError::Format));
}

#[test]
fn opaque_datetime_with_wrong_length_is_malformed() {
    let document: Vec<u8> = vec![15u8, 12, 3, 1, 2, 3];
    assert_eq!(JsonBinary::parse_as_string(&document), Err(BinlogError::Format));
}

#[test]
fn a_hundred_arrays_inside_each_other() {
    let document: Vec<u8> = vec![2u8, 1, 0, 185, 2, 2, 7, 0, 1, 0, 178, 2, 2, 7, 0, 1, 0, 171, 2, 2, 7, 0, 1, 0, 164, 2, 2, 7, 0, 1, 0, 157, 2, 2, 7, 0, 1, 0, 150, 2, 2, 7, 0, 1, 0, 143, 2, 2, 7, 0, 1, 0, 136, 2, 2, 7, 0, 1, 0, 129, 2, 2, 7, 0, 1, 0, 122, 2, 2, 7, 0, 1, 0, 115, 2, 2, 7, 0, 1, 0, 108, 2, 2, 7, 0, 1, 0, 101, 2, 2, 7, 0, 1, 0, 94, 2, 2, 7, 0, 1, 0, 87, 2, 2, 7, 0, 1, 0, 80, 2, 2, 7, 0, 1, 0, 73, 2, 2, 7, 0, 1, 0, 66, 2, 2, 7, 0, 1, 0, 59, 2, 2, 7, 0, 1, 0, 52, 2, 2, 7, 0, 1, 0, 45, 2, 2, 7, 0, 1, 0, 38, 2, 2, 7, 0, 1, 0, 31, 2, 2, 7, 0, 1, 0, 24, 2, 2, 7, 0, 1, 0, 17, 2, 2, 7, 0, 1, 0, 10, 2, 2, 7, 0, 1, 0, 3, 2, 2, 7, 0, 1, 0, 252, 1, 2, 7, 0, 1, 0, 245, 1, 2, 7, 0, 1, 0, 238, 1, 2, 7, 0, 1, 0, 231, 1, 2, 7, 0, 1, 0, 224, 1, 2, 7, 0, 1, 0, 217, 1, 2, 7, 0, 1, 0, 210, 1, 2, 7, 0, 1, 0, 203, 1, 2, 7, 0, 1, 0, 196, 1, 2, 7, 0, 1, 0, 189, 1, 2, 7, 0, 1, 0, 182, 1, 2, 7, 0, 1, 0, 175, 1, 2, 7, 0, 1, 0, 168, 1, 2, 7, 0, 1, 0, 161, 1, 2, 7, 0, 1, 0, 154, 1, 2, 7, 0, 1, 0, 147, 1, 2, 7, 0, 1, 0, 140, 1, 2, 7, 0, 1, 0, 133, 1, 2, 7, 0, 1, 0, 126, 1, 2, 7, 0, 1, 0, 119, 1, 2, 7, 0, 1, 0, 112, 1, 2, 7, 0, 1, 0, 105, 1, 2, 7, 0, 1, 0, 98, 1, 2, 7, 0, 1, 0, 91, 1, 2, 7, 0, 1, 0, 84, 1, 2, 7, 0, 1, 0, 77, 1, 2, 7, 0, 1, 0, 70, 1, 2, 7, 0, 1, 0, 63, 1, 2, 7, 0, 1, 0, 56, 1, 2, 7, 0, 1, 0, 49, 1, 2, 7, 0, 1, 0, 42, 1, 2, 7, 0, 1, 0, 35, 1, 2, 7, 0, 1, 0, 28, 1, 2, 7, 0, 1, 0, 21, 1, 2, 7, 0, 1, 0, 14, 1, 2, 7, 0, 1, 0, 7, 1, 2, 7, 0, 1, 0, 0, 1, 2, 7, 0, 1, 0, 249, 0, 2, 7, 0, 1, 0, 242, 0, 2, 7, 0, 1, 0, 235, 0, 2, 7, 0, 1, 0, 228, 0, 2, 7, 0, 1, 0, 221, 0, 2, 7, 0, 1, 0, 214, 0, 2, 7, 0, 1, 0, 207, 0, 2, 7, 0, 1, 0, 200, 0, 2, 7, 0, 1, 0, 193, 0, 2, 7, 0, 1, 0, 186, 0, 2, 7, 0, 1, 0, 179, 0, 2, 7, 0, 1, 0, 172, 0, 2, 7, 0, 1, 0, 165, 0, 2, 7, 0, 1, 0, 158, 0, 2, 7, 0, 1, 0, 151, 0, 2, 7, 0, 1, 0, 144, 0, 2, 7, 0, 1, 0, 137, 0, 2, 7, 0, 1, 0, 130, 0, 2, 7, 0, 1, 0, 123, 0, 2, 7, 0, 1, 0, 116, 0, 2, 7, 0, 1, 0, 109, 0, 2, 7, 0, 1, 0, 102, 0, 2, 7, 0, 1, 0, 95, 0, 2, 7, 0, 1, 0, 88, 0, 2, 7, 0, 1, 0, 81, 0, 2, 7, 0, 1, 0, 74, 0, 2, 7, 0, 1, 0, 67, 0, 2, 7, 0, 1, 0, 60, 0, 2, 7, 0, 1, 0, 53, 0, 2, 7, 0, 1, 0, 46, 0, 2, 7, 0, 1, 0, 39, 0, 2, 7, 0, 1, 0, 32, 0, 2, 7, 0, 1, 0, 25, 0, 2, 7, 0, 1, 0, 18, 0, 2, 7, 0, 1, 0, 11, 0, 2, 7, 0, 0, 0, 4, 0];
    assert_eq!(text_of(&document), "[[[[[[[[[[[[[[[[[[[[[[[[[[[[[[[[[[[[[[[[[[[[[[[[[[[[[[[[[[[[[[[[[[[[[[[[[[[[[[[[[[[[[[[[[[[[[[[[[[[[]]]]]]]]]]]]]]]]]]]]]]]]]]]]]]]]]]]]]]]]]]]]]]]]]]]]]]]]]]]]]]]]]]]]]]]]]]]]]]]]]]]]]]]]]]]]]]]]]]]]");
}

#[test]
fn more_than_a_hundred_arrays_inside_each_other() {
    let document: Vec<u8> = vec![2u8, 1, 0, 192, 2, 2, 7, 0, 1, 0, 185, 2, 2, 7, 0, 1, 0, 178, 2, 2, 7, 0, 1, 0, 171, 2, 2, 7, 0, 1, 0, 164, 2, 2, 7, 0, 1, 0, 157, 2, 2, 7, 0, 1, 0, 150, 2, 2, 7, 0, 1, 0, 143, 2, 2, 7, 0, 1, 0, 136, 2, 2, 7, 0, 1, 0, 129, 2, 2, 7, 0, 1, 0, 122, 2, 2, 7, 0, 1, 0, 115, 2, 2, 7, 0, 1, 0, 108, 2, 2, 7, 0, 1, 0, 101, 2, 2, 7, 0, 1, 0, 94, 2, 2, 7, 0, 1, 0, 87, 2, 2, 7, 0, 1, 0, 80, 2, 2, 7, 0, 1, 0, 73, 2, 2, 7, 0, 1, 0, 66, 2, 2, 7, 0, 1, 0, 59, 2, 2, 7, 0, 1, 0, 52, 2, 2, 7, 0, 1, 0, 45, 2, 2, 7, 0, 1, 0, 38, 2, 2, 7, 0, 1, 0, 31, 2, 2, 7, 0, 1, 0, 24, 2, 2, 7, 0, 1, 0, 17, 2, 2, 7, 0, 1, 0, 10, 2, 2, 7, 0, 1, 0, 3, 2, 2, 7, 0, 1, 0, 252, 1, 2, 7, 0, 1, 0, 245, 1, 2, 7, 0, 1, 0, 238, 1, 2, 7, 0, 1, 0, 231, 1, 2, 7, 0, 1, 0, 224, 1, 2, 7, 0, 1, 0, 217, 1, 2, 7, 0, 1, 0, 210, 1, 2, 7, 0, 1, 0, 203, 1, 2, 7, 0, 1, 0, 196, 1, 2, 7, 0, 1, 0, 189, 1, 2, 7, 0, 1, 0, 182, 1, 2, 7, 0, 1, 0, 175, 1, 2, 7, 0, 1, 0, 168, 1, 2, 7, 0, 1, 0, 161, 1, 2, 7, 0, 1, 0, 154, 1, 2, 7, 0, 1, 0, 147, 1, 2, 7, 0, 1, 0, 140, 1, 2, 7, 0, 1, 0, 133, 1, 2, 7, 0, 1, 0, 126, 1, 2, 7, 0, 1, 0, 119, 1, 2, 7, 0, 1, 0, 112, 1, 2, 7, 0, 1, 0, 105, 1, 2, 7, 0, 1, 0, 98, 1, 2, 7, 0, 1, 0, 91, 1, 2, 7, 0, 1, 0, 84, 1, 2, 7, 0, 1, 0, 77, 1, 2, 7, 0, 1, 0, 70, 1, 2, 7, 0, 1, 0, 63, 1, 2, 7, 0, 1, 0, 56, 1, 2, 7, 0, 1, 0, 49, 1, 2, 7, 0, 1, 0, 42, 1, 2, 7, 0, 1, 0, 35, 1, 2, 7, 0, 1, 0, 28, 1, 2, 7, 0, 1, 0, 21, 1, 2, 7, 0, 1, 0, 14, 1, 2, 7, 0, 1, 0, 7, 1, 2, 7, 0, 1, 0, 0, 1, 2, 7, 0, 1, 0, 249, 0, 2, 7, 0, 1, 0, 242, 0, 2, 7, 0, 1, 0, 235, 0, 2, 7, 0, 1, 0, 228, 0, 2, 7, 0, 1, 0, 221, 0, 2, 7, 0, 1, 0, 214, 0, 2, 7, 0, 1, 0, 207, 0, 2, 7, 0, 1, 0, 200, 0, 2, 7, 0, 1, 0, 193, 0, 2, 7, 0, 1, 0, 186, 0, 2, 7, 0, 1, 0, 179, 0, 2, 7, 0, 1, 0, 172, 0, 2, 7, 0, 1, 0, 165, 0, 2, 7, 0, 1, 0, 158, 0, 2, 7, 0, 1, 0, 151, 0, 2, 7, 0, 1, 0, 144, 0, 2, 7, 0, 1, 0, 137, 0, 2, 7, 0, 1, 0, 130, 0, 2, 7, 0, 1, 0, 123, 0, 2, 7, 0, 1, 0, 116, 0, 2, 7, 0, 1, 0, 109, 0, 2, 7, 0, 1, 0, 102, 0, 2, 7, 0, 1, 0, 95, 0, 2, 7, 0, 1, 0, 88, 0, 2, 7, 0, 1, 0, 81, 0, 2, 7, 0, 1, 0, 74, 0, 2, 7, 0, 1, 0, 67, 0, 2, 7, 0, 1, 0, 60, 0, 2, 7, 0, 1, 0, 53, 0, 2, 7, 0, 1, 0, 46, 0, 2, 7, 0, 1, 0, 39, 0, 2, 7, 0, 1, 0, 32, 0, 2, 7, 0, 1, 0, 25, 0, 2, 7, 0, 1, 0, 18, 0, 2, 7, 0, 1, 0, 11, 0, 2, 7, 0, 0, 0, 4, 0];
    assert_eq!(JsonBinary::parse_as_string(&document), Err(BinlogError::Format));
}

#[test]
fn doubles_are_listed_in_the_order_of_the_text() {
    let document: Vec<u8> = vec![2u8, 3, 0, 61, 0, 11, 13, 0, 0, 21, 0, 11, 53, 0, 1, 0, 0, 0, 0, 0, 0, 0, 2, 0, 32, 0, 18, 0, 1, 0, 19, 0, 1, 0, 11, 20, 0, 2, 28, 0, 97, 98, 2, 0, 0, 0, 0, 0, 0, 0, 0, 0, 4, 0, 3, 0, 0, 0, 0, 0, 0, 0];
    let rendered = JsonBinary::parse_as_string(&document).unwrap();
    assert_eq!(rendered.doubles.len(), 3);
    assert!(rendered.doubles.windows(2).all(|w| w[0].offset <= w[1].offset));
    assert!(rendered.doubles.iter().all(|d| d.offset <= rendered.text.len()));
    assert_eq!(String::from_utf8(rendered.text).unwrap(), "[,{\"a\":,\"b\":[]},]");
}

#[test]
fn complete_writes_the_digits_at_their_places() {
    let document: Vec<u8> = vec![2u8, 3, 0, 61, 0, 11, 13, 0, 0, 21, 0, 11, 53, 0, 0, 0, 0, 0, 0, 0, 248, 63, 2, 0, 32, 0, 18, 0, 1, 0, 19, 0, 1, 0, 11, 20, 0, 2, 28, 0, 97, 98, 0, 0, 0, 0, 0, 0, 208, 191, 0, 0, 4, 0, 64, 140, 181, 120, 29, 175, 21, 68];
    let rendered = JsonBinary::parse_as_string(&document).unwrap();
    let digits: Vec<Vec<u8>> = rendered
        .doubles
        .iter()
        .map(|d| f64::from_bits(d.bits).to_string().into_bytes())
        .collect();
    assert_eq!(
        rendered.complete(&digits),
        Some(b"[1.5,{\"a\":-0.25,\"b\":[]},100000000000000000000]".to_vec())
    );
    assert_eq!(rendered.complete(&digits[..2].to_vec()), None);
    let plain = JsonBinary::parse_as_string(&[4, 1]).unwrap();
    assert_eq!(plain.complete(&Vec::new()), Some(b"true".to_vec()));
    assert_eq!(plain.complete(&vec![b"1".to_vec()]), None);
}

#[test]
fn complete_refuses_numbers_out_of_order() {
    let text = JsonText {
        text: b"[,]".to_vec(),
        doubles: vec![JsonDouble { offset: 2, bits: 0 }, JsonDouble { offset: 1, bits: 0 }],
    };
    assert_eq!(text.complete(&vec![b"1".to_vec(), b"2".to_vec()]), None);
    let outside = JsonText { text: b"[]".to_vec(), doubles: vec![JsonDouble { offset: 3, bits: 0 }] };
    assert_eq!(outside.complete(&vec![b"1".to_vec()]), None);
    let at_the_end = JsonText { text: b"x".to_vec(), doubles: vec![JsonDouble { offset: 1, bits: 0 }] };
    assert_eq!(at_the_end.complete(&vec![b"1".to_vec()]), Some(b"x1".to_vec()));
}
