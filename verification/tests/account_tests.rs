use sticker_extract::account::account_from_buffer;
use sticker_extract::scanner::FieldError;

fn buffer_with(id: &str, name: &str) -> Vec<u8> {
    let mut buf: Vec<u8> = vec![0x0a, 0x20];
    buf.extend_from_slice(&[0x92, 0x01]);
    buf.push(id.len() as u8);
    buf.extend_from_slice(id.as_bytes());
    buf.extend_from_slice(&[0x9a, 0x01, 0x00, 0xa2, 0x01]);
    buf.push(name.len() as u8);
    buf.extend_from_slice(name.as_bytes());
    buf
}

#[test]
fn extracts_id_and_name() {
    let buf = buffer_with("wxid_1234", "Alice");
    let fields = account_from_buffer(&buf).unwrap();
    assert_eq!(fields.id, "wxid_1234");
    assert_eq!(fields.name, "Alice");
}

#[test]
fn missing_name_marker_fails() {
    let mut buf: Vec<u8> = vec![0x92, 0x01, 0x02];
    buf.extend_from_slice(b"ab");
    assert!(matches!(account_from_buffer(&buf), Err(FieldError::NotFound)));
}

#[test]
fn missing_id_marker_fails_first() {
    // only the display-name marker is present; the identifier scan fails
    let mut buf: Vec<u8> = vec![0x9a, 0x01, 0x00, 0xa2, 0x01, 0x02];
    buf.extend_from_slice(b"ab");
    assert!(matches!(account_from_buffer(&buf), Err(FieldError::NotFound)));
}

#[test]
fn truncated_id_field_is_out_of_bounds() {
    let buf: Vec<u8> = vec![0x00, 0x92, 0x01];
    assert!(matches!(account_from_buffer(&buf), Err(FieldError::OutOfBounds)));
}
