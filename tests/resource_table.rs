use abxml::document::{Package, ResourceTable};
use abxml::error::Error;

fn map_bytes() -> Vec<u8> {
    vec![0x80, 1, 8, 0, 16, 0, 0, 0, 1, 0, 1, 0x7f, 2, 0, 1, 0x7f]
}

#[test]
fn resource_map_decodes_ids_in_order() {
    let table = ResourceTable::decode(&map_bytes(), 0).unwrap();
    assert_eq!(table.resources, vec![0x7f010001, 0x7f010002]);
}

#[test]
fn resource_map_round_trip() {
    let table = ResourceTable::decode(&map_bytes(), 0).unwrap();
    assert_eq!(table.to_vec().unwrap(), map_bytes());
    let empty = ResourceTable { resources: Vec::new() };
    let bytes = empty.to_vec().unwrap();
    assert_eq!(bytes, vec![0x80, 1, 8, 0, 8, 0, 0, 0]);
    assert!(ResourceTable::decode(&bytes, 0).unwrap().resources.is_empty());
}

#[test]
fn resource_map_with_partial_id_fails() {
    let bytes = vec![0x80, 1, 8, 0, 10, 0, 0, 0, 1, 0];
    assert_eq!(ResourceTable::decode(&bytes, 0).err(), Some(Error::MalformedHeader));
}

#[test]
fn resource_map_with_other_token_fails() {
    let mut bytes = map_bytes();
    bytes[1] = 2;
    assert_eq!(ResourceTable::decode(&bytes, 0).err(), Some(Error::MalformedHeader));
}

#[test]
fn new_package_has_no_tables() {
    let package = Package::new("com.example".to_string());
    assert_eq!(package.name, "com.example");
    assert!(package.type_string_table.is_none());
    assert!(package.key_string_table.is_none());
}
