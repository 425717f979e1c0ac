//! The generic chunk layout shared by every chunk kind:
//! `token:u16 | header_size:u16 | total_size:u32 | extra header | body`,
//! little-endian, with `total_size = header_size + body length`.
use vstd::prelude::*;
use crate::error::Error;

verus! {

/// Token of a string pool chunk.
pub const TOKEN_STRING_TABLE: u16 = 0x0001;
/// Token of a resource table chunk.
pub const TOKEN_RESOURCE_TABLE: u16 = 0x0002;
/// Token of a binary XML document chunk.
pub const TOKEN_XML: u16 = 0x0003;
/// Token of a namespace start chunk.
pub const TOKEN_XML_START_NAMESPACE: u16 = 0x0100;
/// Token of a namespace end chunk.
pub const TOKEN_XML_END_NAMESPACE: u16 = 0x0101;
/// Token of an element start chunk.
pub const TOKEN_XML_TAG_START: u16 = 0x0102;
/// Token of an element end chunk.
pub const TOKEN_XML_TAG_END: u16 = 0x0103;
/// Token of a resource id map chunk.
pub const TOKEN_RESOURCE_MAP: u16 = 0x0180;
/// Token of a package chunk.
pub const TOKEN_PACKAGE: u16 = 0x0200;

/// Length of the fixed part of every chunk header.
pub const BASE_HEADER_SIZE: u16 = 8;

/// The two little-endian bytes of `v`.
pub open spec fn le16(v: nat) -> Seq<u8> {
    seq![(v % 256) as u8, ((v / 256) % 256) as u8]
}

/// The four little-endian bytes of `v`.
pub open spec fn le32(v: nat) -> Seq<u8> {
    le16(v % 65536) + le16(v / 65536)
}

/// The little-endian 16-bit integer at `i`.
pub open spec fn u16_at(b: Seq<u8>, i: int) -> nat {
    (b[i] + 256 * b[i + 1]) as nat
}

/// The little-endian 32-bit integer at `i`.
pub open spec fn u32_at(b: Seq<u8>, i: int) -> nat {
    u16_at(b, i) + 65536 * u16_at(b, i + 2)
}

/// A chunk as plain values: its token, its declared header size, the header
/// bytes that follow the fixed eight, and its body.
pub ghost struct ChunkView {
    pub token: u16,
    pub header_size: u16,
    pub extra: Seq<u8>,
    pub body: Seq<u8>,
}

/// A chunk with its own copy of its extra header bytes and body.
pub struct RawChunk {
    pub token: u16,
    pub header_size: u16,
    pub extra: Vec<u8>,
    pub body: Vec<u8>,
}

impl View for RawChunk {
    type V = ChunkView;

    open spec fn view(&self) -> ChunkView {
        ChunkView { token: self.token, header_size: self.header_size, extra: self.extra@, body: self.body@ }
    }
}

/// The chunk can be written: its header size counts its extra bytes and
/// its total size fits in 32 bits.
pub open spec fn encodable(c: ChunkView) -> bool {
    &&& c.header_size == 8 + c.extra.len()
    &&& c.header_size + c.body.len() <= u32::MAX
}

/// The bytes of a chunk.
pub open spec fn chunk_bytes(c: ChunkView) -> Seq<u8> {
    le16(c.token as nat) + le16(c.header_size as nat) + le32((c.header_size + c.body.len()) as nat)
        + c.extra + c.body
}

/// The total size that the chunk at the start of `b` declares.
pub open spec fn declared_total(b: Seq<u8>) -> nat {
    u32_at(b, 4)
}

/// What reading a chunk at the start of `b` gives.
pub open spec fn decoded(b: Seq<u8>) -> Result<ChunkView, Error> {
    if b.len() < 8 {
        Err(Error::UnexpectedEndOfStream)
    } else {
        let hs = u16_at(b, 2);
        let total = u32_at(b, 4);
        if hs < 8 || total < hs || total > b.len() {
            Err(Error::MalformedHeader)
        } else {
            Ok(ChunkView {
                token: u16_at(b, 0) as u16,
                header_size: hs as u16,
                extra: b.subrange(8, hs as int),
                body: b.subrange(hs as int, total as int),
            })
        }
    }
}

pub(crate) proof fn lemma_le16(v: nat)
    requires
        v < 65536,
    ensures
        u16_at(le16(v), 0) == v,
{
    assert((v % 256) + 256 * ((v / 256) % 256) == v) by (nonlinear_arith)
        requires v < 65536;
}

proof fn lemma_u16_at(b: Seq<u8>, i: int)
    requires
        0 <= i,
        i + 2 <= b.len(),
    ensures
        le16(u16_at(b, i)) == b.subrange(i, i + 2),
        u16_at(b, i) < 65536,
{
    let x = b[i] as nat;
    let y = b[i + 1] as nat;
    assert((x + 256 * y) % 256 == x && ((x + 256 * y) / 256) % 256 == y) by (nonlinear_arith)
        requires x < 256, y < 256;
    assert(le16(u16_at(b, i)) =~= b.subrange(i, i + 2));
}

pub(crate) proof fn lemma_le32(v: nat)
    requires
        v <= u32::MAX,
    ensures
        u32_at(le32(v), 0) == v,
{
    lemma_le16(v % 65536);
    lemma_le16(v / 65536);
    let s = le32(v);
    assert(u16_at(s, 2) == u16_at(le16(v / 65536), 0));
    assert(v % 65536 + 65536 * (v / 65536) == v) by (nonlinear_arith);
}

pub(crate) proof fn lemma_u32_at(b: Seq<u8>, i: int)
    requires
        0 <= i,
        i + 4 <= b.len(),
    ensures
        le32(u32_at(b, i)) == b.subrange(i, i + 4),
        u32_at(b, i) <= u32::MAX,
{
    let lo = u16_at(b, i);
    let hi = u16_at(b, i + 2);
    lemma_u16_at(b, i);
    lemma_u16_at(b, i + 2);
    assert((lo + 65536 * hi) % 65536 == lo && (lo + 65536 * hi) / 65536 == hi) by (nonlinear_arith)
        requires lo < 65536, hi < 65536;
    assert(lo + 65536 * hi <= u32::MAX) by (nonlinear_arith)
        requires lo < 65536, hi < 65536;
    assert(le32(u32_at(b, i)) =~= b.subrange(i, i + 4));
}

/// Reading back the bytes of a chunk that can be written gives that chunk.
pub proof fn lemma_decode_encode(c: ChunkView)
    requires
        encodable(c),
    ensures
        decoded(chunk_bytes(c)) == Ok::<ChunkView, Error>(c),
{
    let b = chunk_bytes(c);
    let total = (c.header_size + c.body.len()) as nat;
    lemma_le16(c.token as nat);
    lemma_le16(c.header_size as nat);
    lemma_le32(total);
    assert(b.subrange(0, 2) =~= le16(c.token as nat));
    assert(b.subrange(2, 4) =~= le16(c.header_size as nat));
    assert(b.subrange(4, 8) =~= le32(total));
    assert(u16_at(b, 0) == u16_at(b.subrange(0, 2), 0));
    assert(u16_at(b, 2) == u16_at(b.subrange(2, 4), 0));
    assert(u32_at(b, 4) == u32_at(b.subrange(4, 8), 0));
    assert(b.subrange(8, c.header_size as int) =~= c.extra);
    assert(b.subrange(c.header_size as int, total as int) =~= c.body);
}

/// Writing a chunk that was read gives back the bytes it was read from.
pub proof fn lemma_encode_decode(b: Seq<u8>)
    requires
        decoded(b) is Ok,
    ensures
        encodable(decoded(b)->Ok_0),
        chunk_bytes(decoded(b)->Ok_0) == b.subrange(0, declared_total(b) as int),
{
    let c = decoded(b)->Ok_0;
    lemma_u16_at(b, 0);
    lemma_u16_at(b, 2);
    lemma_u32_at(b, 4);
    assert(chunk_bytes(c) =~= b.subrange(0, declared_total(b) as int));
}

/// Appends the little-endian bytes of `v`.
pub fn push_u16(out: &mut Vec<u8>, v: u16)
    ensures
        final(out)@ == old(out)@ + le16(v as nat),
{
    out.push((v % 256) as u8);
    out.push((v / 256) as u8);
    proof {
        assert(final(out)@ =~= old(out)@ + le16(v as nat));
    }
}

/// Appends the little-endian bytes of `v`.
pub fn push_u32(out: &mut Vec<u8>, v: u32)
    ensures
        final(out)@ == old(out)@ + le32(v as nat),
{
    push_u16(out, (v % 65536) as u16);
    push_u16(out, (v / 65536) as u16);
    proof {
        assert(final(out)@ =~= old(out)@ + le32(v as nat));
    }
}

/// Reads the little-endian 16-bit integer at `i`.
pub fn read_u16(b: &[u8], i: usize) -> (r: u16)
    requires
        i + 2 <= b@.len(),
    ensures
        r == u16_at(b@, i as int),
{
    b[i] as u16 + 256 * (b[i + 1] as u16)
}

/// Reads the little-endian 32-bit integer at `i`.
pub fn read_u32(b: &[u8], i: usize) -> (r: u32)
    requires
        i + 4 <= b@.len(),
    ensures
        r == u32_at(b@, i as int),
{
    let n = b.len();
    assert(i + 2 <= n);
    read_u16(b, i) as u32 + 65536 * (read_u16(b, i + 2) as u32)
}

/// Appends the bytes of `v[start..end]`.
pub fn extend_from_range(out: &mut Vec<u8>, v: &[u8], start: usize, end: usize)
    requires
        start <= end <= v@.len(),
    ensures
        final(out)@ == old(out)@ + v@.subrange(start as int, end as int),
{
    let mut i = start;
    while i < end
        invariant
            start <= i <= end <= v@.len(),
            out@ == old(out)@ + v@.subrange(start as int, i as int),
        decreases end - i,
    {
        out.push(v[i]);
        i += 1;
        proof {
            assert(out@ =~= old(out)@ + v@.subrange(start as int, i as int));
        }
    }
}

/// Writes a chunk: the fixed header with the total size computed from the
/// body, then the extra header bytes, then the body. Fails with
/// `MalformedHeader` where the header size does not count the extra bytes
/// or the total size does not fit in 32 bits.
pub fn encode_chunk(token: u16, header_size: u16, extra: &[u8], body: &[u8]) -> (r: Result<Vec<u8>, Error>)
    ensures
        ({
            let c = ChunkView { token, header_size, extra: extra@, body: body@ };
            match r {
                Ok(bytes) => encodable(c) && bytes@ == chunk_bytes(c),
                Err(e) => !encodable(c) && e == Error::MalformedHeader,
            }
        }),
{
    if extra.len() > 0xFFF7 || header_size as usize != 8 + extra.len() {
        return Err(Error::MalformedHeader);
    }
    if body.len() > (u32::MAX - header_size as u32) as usize {
        return Err(Error::MalformedHeader);
    }
    let total = header_size as u32 + body.len() as u32;
    let mut out: Vec<u8> = Vec::new();
    push_u16(&mut out, token);
    push_u16(&mut out, header_size);
    push_u32(&mut out, total);
    extend_from_range(&mut out, extra, 0, extra.len());
    extend_from_range(&mut out, body, 0, body.len());
    proof {
        assert(extra@.subrange(0, extra@.len() as int) =~= extra@);
        assert(body@.subrange(0, body@.len() as int) =~= body@);
    }
    Ok(out)
}

impl RawChunk {
    /// Reads the chunk that starts at `pos`. Fails with
    /// `UnexpectedEndOfStream` where fewer than eight bytes remain, and with
    /// `MalformedHeader` where the header size is below eight, or the total
    /// size is below the header size or past the end of the input.
    pub fn decode(bytes: &[u8], pos: usize) -> (r: Result<RawChunk, Error>)
        requires
            pos <= bytes@.len(),
        ensures
            match r {
                Ok(c) => decoded(bytes@.skip(pos as int)) == Ok::<ChunkView, Error>(c@),
                Err(e) => decoded(bytes@.skip(pos as int)) == Err::<ChunkView, Error>(e),
            },
    {
        let ghost b = bytes@.skip(pos as int);
        if bytes.len() - pos < 8 {
            return Err(Error::UnexpectedEndOfStream);
        }
        let token = read_u16(bytes, pos);
        let header_size = read_u16(bytes, pos + 2);
        let total = read_u32(bytes, pos + 4);
        assert(token == u16_at(b, 0) && header_size == u16_at(b, 2) && total == u32_at(b, 4));
        if header_size < 8 || total < header_size as u32 || total as usize > bytes.len() - pos {
            return Err(Error::MalformedHeader);
        }
        let mut extra: Vec<u8> = Vec::new();
        extend_from_range(&mut extra, bytes, pos + 8, pos + header_size as usize);
        let mut body: Vec<u8> = Vec::new();
        extend_from_range(&mut body, bytes, pos + header_size as usize, pos + total as usize);
        let c = RawChunk { token, header_size, extra, body };
        proof {
            assert(c@.extra =~= b.subrange(8, header_size as int));
            assert(c@.body =~= b.subrange(header_size as int, total as int));
        }
        Ok(c)
    }

    /// Reads the chunk at `pos`, which must carry `token`: another token
    /// fails with `MalformedHeader`.
    pub fn decode_expecting(bytes: &[u8], pos: usize, token: u16) -> (r: Result<RawChunk, Error>)
        requires
            pos <= bytes@.len(),
        ensures
            match decoded(bytes@.skip(pos as int)) {
                Ok(c) => if c.token == token {
                    r matches Ok(rc) && rc@ == c
                } else {
                    r == Err::<RawChunk, Error>(Error::MalformedHeader)
                },
                Err(e) => r == Err::<RawChunk, Error>(e),
            },
    {
        match RawChunk::decode(bytes, pos) {
            Ok(c) => {
                if c.token == token {
                    Ok(c)
                } else {
                    Err(Error::MalformedHeader)
                }
            },
            Err(e) => Err(e),
        }
    }

    /// The bytes of this chunk, as `encode_chunk` writes them.
    pub fn to_vec(&self) -> (r: Result<Vec<u8>, Error>)
        ensures
            match r {
                Ok(bytes) => encodable(self@) && bytes@ == chunk_bytes(self@),
                Err(e) => !encodable(self@) && e == Error::MalformedHeader,
            },
    {
        encode_chunk(self.token, self.header_size, self.extra.as_slice(), self.body.as_slice())
    }
}

/// The chunk that closes an element: a bare eight-byte header.
pub struct XmlTagEndBuf;

impl XmlTagEndBuf {
    pub fn new() -> (r: Self) {
        XmlTagEndBuf
    }

    pub fn get_token(&self) -> (r: u16)
        ensures
            r == TOKEN_XML_TAG_END,
    {
        TOKEN_XML_TAG_END
    }

    pub fn get_header_size(&self) -> (r: u16)
        ensures
            r == BASE_HEADER_SIZE,
    {
        BASE_HEADER_SIZE
    }

    pub fn get_body_data(&self) -> (r: Result<Vec<u8>, Error>)
        ensures
            r matches Ok(b) && b@ == Seq::<u8>::empty(),
    {
        Ok(Vec::new())
    }

    /// The eight bytes of the chunk.
    pub fn to_vec(&self) -> (r: Result<Vec<u8>, Error>)
        ensures
            r matches Ok(b) && b@ == seq![3u8, 1, 8, 0, 8, 0, 0, 0],
    {
        let body = match self.get_body_data() {
            Ok(b) => b,
            Err(e) => return Err(e),
        };
        let extra: Vec<u8> = Vec::new();
        let r = encode_chunk(self.get_token(), self.get_header_size(), extra.as_slice(), body.as_slice());
        proof {
            assert(r->Ok_0@ =~= seq![3u8, 1, 8, 0, 8, 0, 0, 0]);
        }
        r
    }
}

} // verus!
