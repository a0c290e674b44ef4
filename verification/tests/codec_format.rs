use pwdmgr::codec::{encode_field_bytes, parse_entries_at};

#[test]
fn field_encoding_is_hex_length_then_bytes() {
    let mut out: Vec<u8> = Vec::new();
    encode_field_bytes(&mut out, "github");
    assert_eq!(out, b"0000000000000006github".to_vec());
}

#[test]
fn empty_field_encodes_to_zero_length() {
    let mut out: Vec<u8> = Vec::new();
    encode_field_bytes(&mut out, "");
    assert_eq!(out, b"0000000000000000".to_vec());
}

#[test]
fn multibyte_field_length_counts_bytes() {
    let mut out: Vec<u8> = Vec::new();
    encode_field_bytes(&mut out, "caf\u{e9}");
    let mut expected = b"0000000000000005".to_vec();
    expected.extend_from_slice("caf\u{e9}".as_bytes());
    assert_eq!(out, expected);
}

#[test]
fn one_entry_parses_back() {
    let mut bytes: Vec<u8> = Vec::new();
    encode_field_bytes(&mut bytes, "github");
    encode_field_bytes(&mut bytes, "alice");
    encode_field_bytes(&mut bytes, "p@ss1234");
    let entries = parse_entries_at(&bytes, 0).unwrap();
    assert_eq!(entries.len(), 1);
    assert_eq!(entries[0].service, "github");
    assert_eq!(entries[0].username, "alice");
    assert_eq!(entries[0].password, "p@ss1234");
}

#[test]
fn empty_input_parses_to_no_entries() {
    let entries = parse_entries_at(&[], 0).unwrap();
    assert!(entries.is_empty());
}

#[test]
fn truncated_entry_does_not_parse() {
    let mut bytes: Vec<u8> = Vec::new();
    encode_field_bytes(&mut bytes, "github");
    encode_field_bytes(&mut bytes, "alice");
    assert!(parse_entries_at(&bytes, 0).is_none());
}

#[test]
fn bad_length_prefix_does_not_parse() {
    let bytes = b"zzzzzzzzzzzzzzzzgithub".to_vec();
    assert!(parse_entries_at(&bytes, 0).is_none());
}

#[test]
fn overlong_length_does_not_parse() {
    let bytes = b"00000000000000ffshort".to_vec();
    assert!(parse_entries_at(&bytes, 0).is_none());
}
