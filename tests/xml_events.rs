use std::rc::Rc;

use abxml::document::{StringTable, TOKEN_TYPE_DIMENSION, TOKEN_TYPE_STRING};
use abxml::error::Error;
use abxml::xml::{DocumentBuilder, Event, RawAttribute};

fn strings() -> StringTable {
    let words = ["android", "http://schemas.android.com/apk/res/android", "A", "B", "text", "hello"];
    StringTable { strings: words.iter().map(|w| Rc::new(w.to_string())).collect(), styles: Vec::new() }
}

fn start(name: u32) -> Event {
    Event::StartElement { namespace: 0xFFFFFFFF, name, attributes: Vec::new() }
}

fn tag_start_bytes() -> Vec<u8> {
    let mut b = vec![0x02, 0x01, 16, 0, 56, 0, 0, 0, 1, 0, 0, 0, 0xFF, 0xFF, 0xFF, 0xFF];
    b.extend_from_slice(&[0xFF, 0xFF, 0xFF, 0xFF, 3, 0, 0, 0]);
    b.extend_from_slice(&[20, 0, 20, 0, 1, 0, 0, 0, 0, 0, 0, 0]);
    b.extend_from_slice(&[0xFF, 0xFF, 0xFF, 0xFF, 4, 0, 0, 0, 5, 0, 0, 0, 8, 0, 0, 3, 5, 0, 0, 0]);
    b
}

#[test]
fn tag_start_chunk_decodes_attributes() {
    let bytes = tag_start_bytes();
    let (event, next) = Event::decode(&bytes, 0).unwrap();
    assert_eq!(next, 56);
    match event {
        Event::StartElement { namespace, name, attributes } => {
            assert_eq!(namespace, 0xFFFFFFFF);
            assert_eq!(name, 3);
            assert_eq!(attributes.len(), 1);
            assert_eq!(
                attributes[0],
                RawAttribute { namespace: 0xFFFFFFFF, name: 4, raw_value: 5, value_type: TOKEN_TYPE_STRING, data: 5 }
            );
        }
        _ => panic!("expected an element start"),
    }
}

#[test]
fn tag_start_with_short_attributes_fails() {
    let mut bytes = tag_start_bytes();
    bytes.truncate(50);
    bytes[4] = 50;
    assert_eq!(Event::decode(&bytes, 0).err(), Some(Error::UnexpectedEndOfStream));
}

#[test]
fn namespace_and_end_chunks_decode() {
    let bytes = vec![0, 1, 16, 0, 24, 0, 0, 0, 1, 0, 0, 0, 0xFF, 0xFF, 0xFF, 0xFF, 0, 0, 0, 0, 1, 0, 0, 0];
    let (event, next) = Event::decode(&bytes, 0).unwrap();
    assert_eq!(next, 24);
    assert!(matches!(event, Event::StartNamespace { prefix: 0, uri: 1 }));
    let end = vec![3, 1, 8, 0, 8, 0, 0, 0];
    assert!(matches!(Event::decode(&end, 0).unwrap().0, Event::EndElement));
    let other = vec![0x80, 1, 8, 0, 8, 0, 0, 0];
    assert!(matches!(Event::decode(&other, 0).unwrap().0, Event::Skipped(0x0180)));
}

#[test]
fn builder_nests_elements_and_scopes_namespaces() {
    let mut builder = DocumentBuilder::new(strings());
    assert_eq!(builder.apply(&start(2)), Ok(true));
    assert_eq!(builder.apply(&Event::StartNamespace { prefix: 0, uri: 1 }), Ok(true));
    let (event, _) = Event::decode(&tag_start_bytes(), 0).unwrap();
    assert_eq!(builder.apply(&event), Ok(true));
    assert_eq!(builder.depth(), 2);
    assert_eq!(builder.apply(&Event::EndElement), Ok(true));
    assert_eq!(builder.apply(&Event::EndNamespace { prefix: 0, uri: 1 }), Ok(true));
    assert_eq!(builder.apply(&Event::EndElement), Ok(true));
    assert_eq!(builder.apply(&Event::EndElement), Ok(false));

    let root = builder.get_root().as_ref().unwrap();
    assert_eq!(*root.get_tag().get_name(), "A");
    assert!(root.get_tag().get_prefixes().is_empty());
    assert_eq!(root.get_level(), 0);
    let child = &root.get_children()[0];
    assert_eq!(*child.get_tag().get_name(), "B");
    assert_eq!(child.get_level(), 1);
    assert_eq!(child.get_tag().get_prefixes().len(), 1);
    assert_eq!(*child.get_tag().get_prefixes()[0], "android");
    assert_eq!(child.get_attributes(), &vec![("text".to_string(), "hello".to_string())]);
}

#[test]
fn builder_rejects_dangling_indices() {
    let mut builder = DocumentBuilder::new(strings());
    assert_eq!(builder.apply(&start(6)), Err(Error::StringIndexOutOfBounds));
    assert_eq!(builder.apply(&Event::StartNamespace { prefix: 0, uri: 9 }), Err(Error::StringIndexOutOfBounds));
    let bad_unit = Event::StartElement {
        namespace: 0xFFFFFFFF,
        name: 2,
        attributes: vec![RawAttribute { namespace: 0xFFFFFFFF, name: 4, raw_value: 0, value_type: TOKEN_TYPE_DIMENSION, data: 0x106 }],
    };
    assert_eq!(builder.apply(&bad_unit), Err(Error::InvalidUnit));
    assert_eq!(builder.depth(), 0);
    assert_eq!(builder.apply(&Event::EndNamespace { prefix: 0, uri: 1 }), Ok(false));
}

fn element_start(name: u8) -> Vec<u8> {
    let mut b = vec![0x02, 0x01, 16, 0, 36, 0, 0, 0, 1, 0, 0, 0, 0xFF, 0xFF, 0xFF, 0xFF];
    b.extend_from_slice(&[0xFF, 0xFF, 0xFF, 0xFF, name, 0, 0, 0]);
    b.extend_from_slice(&[20, 0, 20, 0, 0, 0, 0, 0, 0, 0, 0, 0]);
    b
}

fn document(events: &[Vec<u8>]) -> Vec<u8> {
    let pool = abxml::string_pool::StringPool { utf8: true, strings: vec![b"A".to_vec(), b"B".to_vec()] };
    let mut body = pool.encode().unwrap();
    for e in events {
        body.extend_from_slice(e);
    }
    let total = (8 + body.len()) as u32;
    let mut out = vec![3, 0, 8, 0];
    out.extend_from_slice(&total.to_le_bytes());
    out.extend_from_slice(&body);
    out
}

#[test]
fn whole_document_decodes_to_a_tree() {
    let end = abxml::chunk::XmlTagEndBuf::new().to_vec().unwrap();
    let bytes = document(&[element_start(0), element_start(1), end.clone(), end.clone(), end]);
    let (root, unbalanced) = abxml::xml::decode_xml(&bytes).unwrap();
    assert_eq!(unbalanced, 1);
    let root = root.unwrap();
    assert_eq!(*root.get_tag().get_name(), "A");
    assert_eq!(root.get_children().len(), 1);
    assert_eq!(*root.get_children()[0].get_tag().get_name(), "B");
    assert_eq!(root.get_children()[0].get_level(), 1);
}

#[test]
fn whole_document_needs_xml_token() {
    let mut bytes = document(&[]);
    bytes[0] = 2;
    assert_eq!(abxml::xml::decode_xml(&bytes).err(), Some(Error::MalformedHeader));
    assert_eq!(abxml::xml::decode_xml(&[3, 0]).err(), Some(Error::UnexpectedEndOfStream));
}

#[test]
fn whole_document_with_dangling_name_fails() {
    let bytes = document(&[element_start(7)]);
    assert_eq!(abxml::xml::decode_xml(&bytes).err(), Some(Error::StringIndexOutOfBounds));
}

#[test]
fn whole_document_without_elements_has_no_root() {
    let bytes = document(&[]);
    let (root, unbalanced) = abxml::xml::decode_xml(&bytes).unwrap();
    assert!(root.is_none());
    assert_eq!(unbalanced, 0);
}

#[test]
fn repeated_attribute_name_keeps_last_value() {
    let attr = |value_type: u32, data: u32| RawAttribute { namespace: 0xFFFFFFFF, name: 4, raw_value: 0, value_type, data };
    let event = Event::StartElement {
        namespace: 0xFFFFFFFF,
        name: 2,
        attributes: vec![attr(TOKEN_TYPE_STRING, 5), RawAttribute { name: 0, ..attr(TOKEN_TYPE_DIMENSION, 0x101) }, attr(TOKEN_TYPE_DIMENSION, 0x200)],
    };
    let mut builder = DocumentBuilder::new(strings());
    assert_eq!(builder.apply(&event), Ok(true));
    assert_eq!(builder.apply(&Event::EndElement), Ok(true));
    let root = builder.get_root().as_ref().unwrap();
    assert_eq!(
        root.get_attributes(),
        &vec![("text".to_string(), "2px".to_string()), ("android".to_string(), "1dp".to_string())]
    );
}

#[test]
fn chunk_running_past_document_end_fails() {
    let mut bytes = document(&[element_start(0)]);
    let n = bytes.len();
    let total = (n - 4) as u32;
    bytes[4..8].copy_from_slice(&total.to_le_bytes());
    assert_eq!(abxml::xml::decode_xml(&bytes).err(), Some(Error::MalformedHeader));
}
