use sticker_extract::scanner::{search, FieldError};

#[test]
fn finds_field_after_marker() {
    // marker 0x92 0x01, length byte 5, then "alice"
    let buf: Vec<u8> = vec![0xde, 0xad, 0x92, 0x01, 0x05, b'a', b'l', b'i', b'c', b'e', 0x00];
    let marker: Vec<u8> = vec![0x92, 0x01];
    assert_eq!(search(&buf, &marker), Ok("alice".to_string()));
}

#[test]
fn finds_field_at_buffer_start() {
    let buf: Vec<u8> = vec![0x92, 0x01, 0x02, b'h', b'i'];
    let marker: Vec<u8> = vec![0x92, 0x01];
    assert_eq!(search(&buf, &marker), Ok("hi".to_string()));
}

#[test]
fn uses_lowest_offset_occurrence() {
    // the marker occurs twice; only the first field is returned
    let buf: Vec<u8> = vec![
        0x00, 0x92, 0x01, 0x02, b'h', b'i', 0x92, 0x01, 0x02, b'n', b'o',
    ];
    let marker: Vec<u8> = vec![0x92, 0x01];
    assert_eq!(search(&buf, &marker), Ok("hi".to_string()));
}

#[test]
fn missing_marker_is_not_found() {
    // marker 0xab 0xcd absent from a 10-byte buffer
    let buf: Vec<u8> = vec![0u8; 10];
    let marker: Vec<u8> = vec![0xab, 0xcd];
    assert_eq!(search(&buf, &marker), Err(FieldError::NotFound));
}

#[test]
fn empty_buffer_is_not_found() {
    let buf: Vec<u8> = Vec::new();
    let marker: Vec<u8> = vec![0x92, 0x01];
    assert_eq!(search(&buf, &marker), Err(FieldError::NotFound));
}

#[test]
fn marker_at_end_has_no_room_for_length_byte() {
    // the marker match ends exactly at the buffer end
    let buf: Vec<u8> = vec![0x00, 0x00, 0x92, 0x01];
    let marker: Vec<u8> = vec![0x92, 0x01];
    assert_eq!(search(&buf, &marker), Err(FieldError::OutOfBounds));
}

#[test]
fn string_longer_than_buffer_is_out_of_bounds() {
    // length byte says 5 but only one byte follows
    let buf: Vec<u8> = vec![0x92, 0x01, 0x05, b'a'];
    let marker: Vec<u8> = vec![0x92, 0x01];
    assert_eq!(search(&buf, &marker), Err(FieldError::OutOfBounds));
}

#[test]
fn non_utf8_field_is_invalid_text() {
    let buf: Vec<u8> = vec![0x92, 0x01, 0x02, 0xff, 0xfe];
    let marker: Vec<u8> = vec![0x92, 0x01];
    assert_eq!(search(&buf, &marker), Err(FieldError::InvalidText));
}

#[test]
fn multibyte_text_decodes() {
    // "héllo" is six bytes of UTF-8
    let mut buf: Vec<u8> = vec![0x92, 0x01, 0x06];
    buf.extend_from_slice("héllo".as_bytes());
    let marker: Vec<u8> = vec![0x92, 0x01];
    assert_eq!(search(&buf, &marker), Ok("héllo".to_string()));
}

#[test]
fn zero_length_field_is_empty_string() {
    let buf: Vec<u8> = vec![0x92, 0x01, 0x00];
    let marker: Vec<u8> = vec![0x92, 0x01];
    assert_eq!(search(&buf, &marker), Ok(String::new()));
}
