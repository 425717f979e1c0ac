use abxml::error::Error;
use abxml::string_pool::{decode_entry, decode_string_table, StringPool};

fn utf8_pool_bytes() -> Vec<u8> {
    vec![
        1, 0, 28, 0, 44, 0, 0, 0, // chunk header
        2, 0, 0, 0, 0, 0, 0, 0, 1, 0, 0, 0, 36, 0, 0, 0, 0, 0, 0, 0, // pool header
        0, 0, 0, 0, 4, 0, 0, 0, // offsets
        2, 97, 98, 0, 1, 99, 0, 0, // strings and padding
    ]
}

#[test]
fn utf8_pool_encodes_exactly() {
    let pool = StringPool { utf8: true, strings: vec![b"ab".to_vec(), b"c".to_vec()] };
    assert_eq!(pool.encode().unwrap(), utf8_pool_bytes());
}

#[test]
fn utf8_pool_decodes_to_text() {
    let pool = StringPool::decode(&utf8_pool_bytes(), 0).unwrap();
    assert!(pool.utf8);
    assert_eq!(pool.strings, vec![b"ab".to_vec(), b"c".to_vec()]);
    let table = decode_string_table(&utf8_pool_bytes(), 0).unwrap();
    assert_eq!(table.strings.len(), 2);
    assert_eq!(*table.strings[0], "ab");
    assert_eq!(*table.strings[1], "c");
    assert!(table.styles.is_empty());
}

#[test]
fn utf16_pool_round_trip() {
    let hi = vec![b'h', 0, b'i', 0];
    let euro = vec![0xAC, 0x20];
    let pool = StringPool { utf8: false, strings: vec![hi.clone(), euro.clone(), Vec::new()] };
    let bytes = pool.encode().unwrap();
    assert_eq!(&bytes[..8], &[1, 0, 28, 0, 60, 0, 0, 0]);
    assert_eq!(&bytes[28..40], &[0, 0, 0, 0, 8, 0, 0, 0, 14, 0, 0, 0]);
    assert_eq!(&bytes[40..48], &[2, 0, b'h', 0, b'i', 0, 0, 0]);
    let back = StringPool::decode(&bytes, 0).unwrap();
    assert!(!back.utf8);
    assert_eq!(back.strings, vec![hi, euro, Vec::new()]);
    let table = back.to_string_table();
    assert_eq!(*table.strings[0], "hi");
    assert_eq!(*table.strings[1], "\u{20AC}");
    assert_eq!(*table.strings[2], "");
}

#[test]
fn long_utf8_string_uses_two_byte_length() {
    let long = vec![b'x'; 200];
    let pool = StringPool { utf8: true, strings: vec![long.clone()] };
    let bytes = pool.encode().unwrap();
    assert_eq!(&bytes[32..34], &[0x80, 200]);
    let back = StringPool::decode(&bytes, 0).unwrap();
    assert_eq!(back.strings, vec![long]);
}

#[test]
fn too_long_utf8_string_cannot_be_written() {
    let pool = StringPool { utf8: true, strings: vec![vec![b'x'; 0x8000]] };
    assert_eq!(pool.encode(), Err(Error::MalformedStringPool));
}

#[test]
fn odd_utf16_payload_cannot_be_written() {
    let pool = StringPool { utf8: false, strings: vec![vec![1, 2, 3]] };
    assert_eq!(pool.encode(), Err(Error::MalformedStringPool));
}

#[test]
fn offset_past_data_region_fails() {
    let mut bytes = utf8_pool_bytes();
    bytes[32] = 100;
    assert_eq!(StringPool::decode(&bytes, 0).err(), Some(Error::MalformedStringPool));
    assert_eq!(decode_string_table(&bytes, 0).err(), Some(Error::MalformedStringPool));
}

#[test]
fn string_running_past_region_fails() {
    let mut bytes = utf8_pool_bytes();
    bytes[40] = 9;
    assert_eq!(StringPool::decode(&bytes, 0).err(), Some(Error::MalformedStringPool));
}

#[test]
fn data_region_before_offsets_fails() {
    let mut bytes = utf8_pool_bytes();
    bytes[20] = 30;
    assert_eq!(StringPool::decode(&bytes, 0).err(), Some(Error::MalformedStringPool));
}

#[test]
fn other_chunk_is_not_a_pool() {
    assert_eq!(StringPool::decode(&[3, 1, 8, 0, 8, 0, 0, 0], 0).err(), Some(Error::MalformedHeader));
}

#[test]
fn entry_decoding_checks_bounds() {
    assert_eq!(decode_entry(true, &[2, 97, 98, 0], 0).unwrap(), b"ab".to_vec());
    assert_eq!(decode_entry(true, &[2, 97, 98, 0], 4), Err(Error::MalformedStringPool));
    assert_eq!(decode_entry(false, &[1, 0, 65, 0], 0).unwrap(), vec![65, 0]);
    assert_eq!(decode_entry(false, &[2, 0, 65, 0], 0), Err(Error::MalformedStringPool));
}
