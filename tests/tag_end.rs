use abxml::chunk::{RawChunk, XmlTagEndBuf, TOKEN_XML_TAG_END};

#[test]
fn it_can_generate_an_empty_chunk() {
    let tag_end = XmlTagEndBuf::new();
    let out = tag_end.to_vec().unwrap();
    let expected = vec![3, 1, 8, 0, 8, 0, 0, 0];

    assert_eq!(expected, out);
}

#[test]
fn it_can_generate_a_chunk_with_the_given_data() {
    let tag_end = XmlTagEndBuf::new();
    assert_eq!(tag_end.get_token(), TOKEN_XML_TAG_END);
    assert_eq!(tag_end.get_header_size(), 8);
    assert!(tag_end.get_body_data().unwrap().is_empty());
}

#[test]
fn identity() {
    let out = XmlTagEndBuf::new().to_vec().unwrap();
    let chunk = RawChunk::decode(&out, 0).unwrap();
    assert_eq!(chunk.token, TOKEN_XML_TAG_END);
    assert_eq!(chunk.header_size, 8);
    assert!(chunk.extra.is_empty());
    assert!(chunk.body.is_empty());
    assert_eq!(chunk.to_vec().unwrap(), out);
}
