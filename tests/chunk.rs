use abxml::chunk::{encode_chunk, RawChunk, TOKEN_XML, TOKEN_XML_TAG_START};
use abxml::error::Error;

#[test]
fn encode_computes_total_size() {
    let out = encode_chunk(0x0102, 12, &[9, 9, 9, 9], &[1, 2, 3]).unwrap();
    assert_eq!(out, vec![2, 1, 12, 0, 15, 0, 0, 0, 9, 9, 9, 9, 1, 2, 3]);
}

#[test]
fn encode_rejects_header_size_that_misses_extra_bytes() {
    assert_eq!(encode_chunk(0x0102, 8, &[9, 9], &[]), Err(Error::MalformedHeader));
}

#[test]
fn decode_then_encode_gives_the_same_bytes() {
    let bytes = vec![3, 0, 10, 0, 14, 0, 0, 0, 7, 7, 0xAA, 0xBB, 0xCC, 0xDD, 0xEE];
    let chunk = RawChunk::decode(&bytes, 0).unwrap();
    assert_eq!(chunk.token, TOKEN_XML);
    assert_eq!(chunk.header_size, 10);
    assert_eq!(chunk.extra, vec![7, 7]);
    assert_eq!(chunk.body, vec![0xAA, 0xBB, 0xCC, 0xDD]);
    assert_eq!(chunk.to_vec().unwrap(), bytes[..14].to_vec());
}

#[test]
fn encode_then_decode_gives_the_same_chunk() {
    let out = encode_chunk(0x0200, 10, &[5, 6], &[1, 2, 3, 4, 5]).unwrap();
    let mut prefixed = vec![0xFF, 0xFF];
    prefixed.extend_from_slice(&out);
    let chunk = RawChunk::decode(&prefixed, 2).unwrap();
    assert_eq!(chunk.token, 0x0200);
    assert_eq!(chunk.header_size, 10);
    assert_eq!(chunk.extra, vec![5, 6]);
    assert_eq!(chunk.body, vec![1, 2, 3, 4, 5]);
}

#[test]
fn decode_short_input_is_end_of_stream() {
    assert_eq!(RawChunk::decode(&[3, 1, 8, 0, 8, 0, 0], 0).err(), Some(Error::UnexpectedEndOfStream));
}

#[test]
fn decode_total_past_end_is_malformed() {
    assert_eq!(RawChunk::decode(&[3, 1, 8, 0, 9, 0, 0, 0], 0).err(), Some(Error::MalformedHeader));
}

#[test]
fn decode_header_size_below_eight_is_malformed() {
    assert_eq!(RawChunk::decode(&[3, 1, 4, 0, 8, 0, 0, 0], 0).err(), Some(Error::MalformedHeader));
}

#[test]
fn decode_expecting_other_token_is_malformed() {
    let bytes = [3, 1, 8, 0, 8, 0, 0, 0];
    assert_eq!(RawChunk::decode_expecting(&bytes, 0, TOKEN_XML_TAG_START).err(), Some(Error::MalformedHeader));
    assert!(RawChunk::decode_expecting(&bytes, 0, 0x0103).is_ok());
}
