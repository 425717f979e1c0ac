//! The string pool chunk: a count of strings, an encoding flag, a table of
//! offsets into a data region, and there each string behind its length.
//!
//! A UTF-8 string is prefixed by its byte count, in one byte below 0x80 and
//! otherwise in two, the first with its high bit set; a UTF-16 string by its
//! count of code units, as a 16-bit integer. Each is followed by a zero
//! terminator. Strings are held here as the bytes of their payload.
use std::rc::Rc;
use encoding::all::{UTF_16LE, UTF_8};
use encoding::{DecoderTrap, Encoding};
use vstd::prelude::*;
use crate::document::StringTable;
use crate::chunk::{
    chunk_bytes, decoded, le16, le32, lemma_decode_encode, u16_at, u32_at, ChunkView,
    push_u32, read_u16, read_u32, extend_from_range, encode_chunk, RawChunk, TOKEN_STRING_TABLE,
};
use crate::error::Error;

verus! {

/// Header size of a string pool chunk.
pub const POOL_HEADER_SIZE: u16 = 28;

/// The concatenation of `s`, in order.
pub open spec fn flat(s: Seq<Seq<u8>>) -> Seq<u8>
    decreases s.len(),
{
    if s.len() == 0 {
        Seq::empty()
    } else {
        flat(s.drop_last()) + s.last()
    }
}

/// The payload can be written with its length prefix.
pub open spec fn entry_fits(utf8: bool, p: Seq<u8>) -> bool {
    if utf8 {
        p.len() < 0x8000
    } else {
        p.len() % 2 == 0 && p.len() / 2 <= 0xFFFF
    }
}

/// The length prefix of a payload.
pub open spec fn length_prefix(utf8: bool, p: Seq<u8>) -> Seq<u8> {
    if utf8 {
        if p.len() < 0x80 {
            seq![p.len() as u8]
        } else {
            seq![(0x80 + p.len() / 256) as u8, (p.len() % 256) as u8]
        }
    } else {
        le16(p.len() / 2)
    }
}

/// A payload with its length prefix and its terminator.
#[verifier::opaque]
pub open spec fn entry_bytes(utf8: bool, p: Seq<u8>) -> Seq<u8> {
    length_prefix(utf8, p) + p + if utf8 {
        seq![0u8]
    } else {
        seq![0u8, 0u8]
    }
}

/// The payload of the string at offset `o` of the data region `d`.
#[verifier::opaque]
pub open spec fn entry_at(utf8: bool, d: Seq<u8>, o: nat) -> Result<Seq<u8>, Error> {
    let bad = Err::<Seq<u8>, Error>(Error::MalformedStringPool);
    if utf8 {
        if o >= d.len() {
            bad
        } else if d[o as int] < 0x80 {
            let start = o + 1;
            let len = d[o as int] as nat;
            if start + len > d.len() {
                bad
            } else {
                Ok(d.subrange(start as int, (start + len) as int))
            }
        } else if o + 1 >= d.len() {
            bad
        } else {
            let start = o + 2;
            let len = ((d[o as int] - 0x80) * 256 + d[(o + 1) as int]) as nat;
            if start + len > d.len() {
                bad
            } else {
                Ok(d.subrange(start as int, (start + len) as int))
            }
        }
    } else {
        if o + 2 > d.len() {
            bad
        } else {
            let start = o + 2;
            let len = 2 * u16_at(d, o as int);
            if start + len > d.len() {
                bad
            } else {
                Ok(d.subrange(start as int, (start + len) as int))
            }
        }
    }
}

proof fn lemma_entry_at(utf8: bool, p: Seq<u8>, pre: Seq<u8>, post: Seq<u8>)
    requires
        entry_fits(utf8, p),
    ensures
        entry_at(utf8, pre + entry_bytes(utf8, p) + post, pre.len()) == Ok::<Seq<u8>, Error>(p),
{
    reveal(entry_at);
    reveal(entry_bytes);
    let d = pre + entry_bytes(utf8, p) + post;
    let o = pre.len() as int;
    let lp = length_prefix(utf8, p);
    assert(d.subrange(o, o + lp.len()) =~= lp);
    assert(d.subrange(o + lp.len(), o + lp.len() + p.len()) =~= p);
    if utf8 {
        if p.len() < 0x80 {
            assert(d[o] == lp[0]);
        } else {
            assert(d[o] == lp[0] && d[o + 1] == lp[1]);
            let l = p.len();
            assert(((0x80 + l / 256) as u8 - 0x80) * 256 + (l % 256) as u8 == l) by (nonlinear_arith)
                requires 0x80 <= l < 0x8000;
        }
    } else {
        assert(d.subrange(o, o + 2) =~= le16(p.len() / 2));
        assert(u16_at(d, o) == u16_at(le16(p.len() / 2), 0));
        crate::chunk::lemma_le16(p.len() / 2);
    }
}

/// Splits a concatenation at any index.
proof fn lemma_flat_split(s: Seq<Seq<u8>>, j: int)
    requires
        0 <= j <= s.len(),
    ensures
        flat(s) == flat(s.take(j)) + flat(s.skip(j)),
    decreases s.len(),
{
    if j == s.len() {
        assert(s.take(j) =~= s);
        assert(s.skip(j) =~= Seq::<Seq<u8>>::empty());
        assert(flat(s) + Seq::<u8>::empty() =~= flat(s));
    } else {
        let dl = s.drop_last();
        lemma_flat_split(dl, j);
        assert(dl.take(j) =~= s.take(j));
        assert(s.skip(j).drop_last() =~= dl.skip(j));
        assert(s.skip(j).last() == s.last());
        assert(flat(s) =~= flat(s.take(j)) + flat(s.skip(j)));
    }
}

/// The concatenation around its `i`-th item.
proof fn lemma_flat_at(s: Seq<Seq<u8>>, i: int)
    requires
        0 <= i < s.len(),
    ensures
        flat(s) == flat(s.take(i)) + s[i] + flat(s.skip(i + 1)),
        flat(s.take(i + 1)) == flat(s.take(i)) + s[i],
{
    lemma_flat_split(s, i);
    let t = s.skip(i);
    lemma_flat_split(t, 1);
    assert(t.take(1).drop_last() =~= Seq::<Seq<u8>>::empty());
    assert(flat(t.take(1).drop_last()) == Seq::<u8>::empty());
    assert(t.take(1).last() == s[i]);
    assert(flat(t.take(1)) =~= s[i]);
    assert(t.skip(1) =~= s.skip(i + 1));
    assert(s.take(i + 1).drop_last() =~= s.take(i));
}

/// A concatenation of items of length `k` has `k` bytes per item.
proof fn lemma_flat_len(s: Seq<Seq<u8>>, k: nat)
    requires
        forall|i: int| 0 <= i < s.len() ==> (#[trigger] s[i]).len() == k,
    ensures
        flat(s).len() == k * s.len(),
    decreases s.len(),
{
    if s.len() > 0 {
        lemma_flat_len(s.drop_last(), k);
        assert(k * s.len() == k * (s.len() - 1) + k) by (nonlinear_arith);
    }
}

/// Each payload with its prefix and terminator.
pub open spec fn entries(utf8: bool, es: Seq<Seq<u8>>) -> Seq<Seq<u8>> {
    es.map_values(|p: Seq<u8>| entry_bytes(utf8, p))
}

/// The data region of a pool of `es`, before its padding.
pub open spec fn string_data(utf8: bool, es: Seq<Seq<u8>>) -> Seq<u8> {
    flat(entries(utf8, es))
}

/// The offset of each string within the data region.
pub open spec fn offsets(utf8: bool, es: Seq<Seq<u8>>) -> Seq<nat> {
    Seq::new(es.len(), |i: int| flat(entries(utf8, es).take(i)).len())
}

/// The offset table: each offset as four little-endian bytes.
pub open spec fn offset_table(utf8: bool, es: Seq<Seq<u8>>) -> Seq<u8> {
    flat(offsets(utf8, es).map_values(|o: nat| le32(o)))
}

/// The zeros that bring `n` bytes to a multiple of four.
#[verifier::opaque]
pub open spec fn padding(n: nat) -> Seq<u8> {
    Seq::new(((4 - n % 4) % 4) as nat, |i: int| 0u8)
}

/// A pool of `es` can be written: each payload fits its length prefix, and
/// the chunk's size fits in 32 bits.
pub open spec fn pool_fits(utf8: bool, es: Seq<Seq<u8>>) -> bool {
    &&& forall|i: int| 0 <= i < es.len() ==> entry_fits(utf8, #[trigger] es[i])
    &&& 28 + 4 * es.len() + string_data(utf8, es).len() + 3 <= u32::MAX
}

/// The header fields of a pool of `es`: string count, style count, flags,
/// start of the string data, start of the style data.
pub open spec fn pool_extra(utf8: bool, n: nat) -> Seq<u8> {
    le32(n) + le32(0) + le32(if utf8 { 1 } else { 0 }) + le32(28 + 4 * n) + le32(0)
}

/// The chunk of a pool of `es`.
pub open spec fn pool_chunk(utf8: bool, es: Seq<Seq<u8>>) -> ChunkView {
    ChunkView {
        token: TOKEN_STRING_TABLE,
        header_size: POOL_HEADER_SIZE,
        extra: pool_extra(utf8, es.len()),
        body: offset_table(utf8, es) + string_data(utf8, es) + padding(string_data(utf8, es).len()),
    }
}

/// The bytes of a pool of `es`.
pub open spec fn pool_bytes(utf8: bool, es: Seq<Seq<u8>>) -> Seq<u8> {
    chunk_bytes(pool_chunk(utf8, es))
}

/// The data region of a pool chunk whose header and offset tables are
/// consistent.
pub open spec fn pool_region_ok(c: ChunkView) -> bool {
    let n = u32_at(c.extra, 0);
    let sc = u32_at(c.extra, 4);
    let ss = u32_at(c.extra, 12);
    let end = if sc > 0 { u32_at(c.extra, 16) } else { 28 + c.body.len() };
    28 + 4 * (n + sc) <= ss <= end <= 28 + c.body.len()
}

/// The data region of a pool chunk.
pub open spec fn pool_region(c: ChunkView) -> Seq<u8> {
    let sc = u32_at(c.extra, 4);
    let ss = u32_at(c.extra, 12);
    let end = if sc > 0 { u32_at(c.extra, 16) } else { 28 + c.body.len() };
    c.body.subrange(ss - 28, end - 28)
}

/// The pool chunk's strings are in UTF-8.
pub open spec fn pool_utf8(c: ChunkView) -> bool {
    u32_at(c.extra, 8) % 2 == 1
}

/// The payload of the `i`-th string of a pool chunk.
pub open spec fn pool_entry(c: ChunkView, i: int) -> Result<Seq<u8>, Error> {
    entry_at(pool_utf8(c), pool_region(c), u32_at(c.body, 4 * i))
}

/// What a chunk read as a string pool gives: its encoding (true for UTF-8)
/// and the payload of each string.
pub open spec fn pool_of_chunk(c: ChunkView) -> Result<(bool, Seq<Seq<u8>>), Error> {
    if c.token != TOKEN_STRING_TABLE || c.header_size != POOL_HEADER_SIZE {
        Err(Error::MalformedHeader)
    } else if !pool_region_ok(c) {
        Err(Error::MalformedStringPool)
    } else if exists|i: int| 0 <= i < u32_at(c.extra, 0) && (#[trigger] pool_entry(c, i)) is Err {
        Err(Error::MalformedStringPool)
    } else {
        Ok((pool_utf8(c), Seq::new(u32_at(c.extra, 0), |i: int| pool_entry(c, i)->Ok_0)))
    }
}

/// What reading a string pool chunk at the start of `b` gives.
pub open spec fn pool_decoded(b: Seq<u8>) -> Result<(bool, Seq<Seq<u8>>), Error> {
    match decoded(b) {
        Err(e) => Err(e),
        Ok(c) => pool_of_chunk(c),
    }
}

proof fn lemma_u32_in(x: Seq<u8>, k: int, v: nat)
    requires
        0 <= k,
        k + 4 <= x.len(),
        x.subrange(k, k + 4) == le32(v),
        v <= u32::MAX,
    ensures
        u32_at(x, k) == v,
{
    crate::chunk::lemma_le32(v);
    assert(u32_at(x, k) == u32_at(x.subrange(k, k + 4), 0));
}

proof fn lemma_pool_offset(utf8: bool, es: Seq<Seq<u8>>, i: int)
    requires
        pool_fits(utf8, es),
        0 <= i < es.len(),
    ensures
        u32_at(pool_chunk(utf8, es).body, 4 * i) == offsets(utf8, es)[i],
{
    let e = entries(utf8, es);
    let offs = offsets(utf8, es);
    let l = offs.map_values(|o: nat| le32(o));
    lemma_flat_split(e, i);
    lemma_flat_at(l, i);
    lemma_flat_len(l.take(i), 4);
    let off = offs[i];
    assert(off <= string_data(utf8, es).len());
    let body = pool_chunk(utf8, es).body;
    assert(body.subrange(4 * i, 4 * i + 4) =~= le32(off));
    lemma_u32_in(body, 4 * i, off);
}

proof fn lemma_pool_entry(utf8: bool, es: Seq<Seq<u8>>, i: int)
    requires
        pool_fits(utf8, es),
        0 <= i < es.len(),
    ensures
        entry_at(utf8, string_data(utf8, es) + padding(string_data(utf8, es).len()), offsets(utf8, es)[i])
            == Ok::<Seq<u8>, Error>(es[i]),
{
    let e = entries(utf8, es);
    let data = string_data(utf8, es);
    let pad = padding(data.len());
    lemma_flat_at(e, i);
    assert(entry_fits(utf8, es[i]));
    lemma_entry_at(utf8, es[i], flat(e.take(i)), flat(e.skip(i + 1)) + pad);
    assert(data + pad =~= flat(e.take(i)) + entry_bytes(utf8, es[i]) + (flat(e.skip(i + 1)) + pad));
}

/// Reading back a written pool gives its encoding and its strings, in order.
pub proof fn lemma_pool_round_trip(utf8: bool, es: Seq<Seq<u8>>)
    requires
        pool_fits(utf8, es),
    ensures
        pool_decoded(pool_bytes(utf8, es)) == Ok::<(bool, Seq<Seq<u8>>), Error>((utf8, es)),
{
    let c = pool_chunk(utf8, es);
    lemma_pool_chunk_sizes(utf8, es);
    lemma_decode_encode(c);
    lemma_pool_chunk_decodes(utf8, es);
}

proof fn lemma_pool_chunk_sizes(utf8: bool, es: Seq<Seq<u8>>)
    requires
        pool_fits(utf8, es),
    ensures
        crate::chunk::encodable(pool_chunk(utf8, es)),
        pool_chunk(utf8, es).body.len() == 4 * es.len() + string_data(utf8, es).len()
            + padding(string_data(utf8, es).len()).len(),
{
    reveal(padding);
    let data = string_data(utf8, es);
    let l = offsets(utf8, es).map_values(|o: nat| le32(o));
    lemma_flat_len(l, 4);
}

proof fn lemma_pool_header(utf8: bool, es: Seq<Seq<u8>>)
    requires
        pool_fits(utf8, es),
    ensures
        ({
            let c = pool_chunk(utf8, es);
            let data = string_data(utf8, es);
            &&& u32_at(c.extra, 0) == es.len()
            &&& pool_utf8(c) == utf8
            &&& pool_region_ok(c)
            &&& pool_region(c) == data + padding(data.len())
        }),
{
    let c = pool_chunk(utf8, es);
    let n = es.len();
    let data = string_data(utf8, es);
    lemma_pool_chunk_sizes(utf8, es);
    let x = c.extra;
    assert(x.subrange(0, 4) =~= le32(n));
    assert(x.subrange(4, 8) =~= le32(0));
    assert(x.subrange(8, 12) =~= le32(if utf8 { 1 } else { 0 }));
    assert(x.subrange(12, 16) =~= le32(28 + 4 * n));
    lemma_u32_in(x, 0, n);
    lemma_u32_in(x, 4, 0);
    lemma_u32_in(x, 8, if utf8 { 1 } else { 0 });
    lemma_u32_in(x, 12, 28 + 4 * n);
    assert(pool_region(c) =~= data + padding(data.len()));
}

proof fn lemma_pool_chunk_decodes(utf8: bool, es: Seq<Seq<u8>>)
    requires
        pool_fits(utf8, es),
    ensures
        pool_of_chunk(pool_chunk(utf8, es)) == Ok::<(bool, Seq<Seq<u8>>), Error>((utf8, es)),
{
    let c = pool_chunk(utf8, es);
    let n = es.len();
    lemma_pool_header(utf8, es);
    assert forall|i: int| 0 <= i < n implies #[trigger] pool_entry(c, i) == Ok::<Seq<u8>, Error>(es[i]) by {
        lemma_pool_offset(utf8, es, i);
        lemma_pool_entry(utf8, es, i);
    }
    assert(Seq::new(n, |i: int| pool_entry(c, i)->Ok_0) =~= es);
}

proof fn lemma_entry_fits(utf8: bool, d: Seq<u8>, o: nat)
    requires
        entry_at(utf8, d, o) is Ok,
    ensures
        entry_fits(utf8, entry_at(utf8, d, o)->Ok_0),
{
    reveal(entry_at);
    if utf8 && d[o as int] >= 0x80 {
        let x = d[o as int];
        let y = d[(o + 1) as int];
        assert((x - 0x80) * 256 + y < 0x8000) by (nonlinear_arith)
            requires 0x80 <= x < 256, 0 <= y < 256;
    }
}

/// The strings of a pool that was read survive being written again: as
/// long as the written pool's size fits in 32 bits, it can be written, and
/// reading it back gives the same encoding and the same strings in the same
/// order.
pub proof fn lemma_pool_decode_encode(b: Seq<u8>)
    requires
        pool_decoded(b) is Ok,
        28 + 4 * pool_decoded(b)->Ok_0.1.len() + string_data(pool_decoded(b)->Ok_0.0, pool_decoded(b)->Ok_0.1).len()
            + 3 <= u32::MAX,
    ensures
        pool_fits(pool_decoded(b)->Ok_0.0, pool_decoded(b)->Ok_0.1),
        pool_decoded(pool_bytes(pool_decoded(b)->Ok_0.0, pool_decoded(b)->Ok_0.1)) == pool_decoded(b),
{
    let (utf8, es) = pool_decoded(b)->Ok_0;
    let c = decoded(b)->Ok_0;
    assert forall|i: int| 0 <= i < es.len() implies entry_fits(utf8, #[trigger] es[i]) by {
        assert(pool_entry(c, i) is Ok);
        lemma_entry_fits(pool_utf8(c), pool_region(c), u32_at(c.body, 4 * i));
    }
    lemma_pool_round_trip(utf8, es);
}

/// A string pool whose offset table points a string at or past the end of
/// its data region is refused with `MalformedStringPool`.
pub proof fn lemma_offset_past_region(b: Seq<u8>, i: int)
    requires
        decoded(b) matches Ok(c) && c.token == TOKEN_STRING_TABLE && c.header_size == POOL_HEADER_SIZE
            && pool_region_ok(c) && 0 <= i < u32_at(c.extra, 0) && u32_at(c.body, 4 * i) >= pool_region(
            c,
        ).len(),
    ensures
        pool_decoded(b) == Err::<(bool, Seq<Seq<u8>>), Error>(Error::MalformedStringPool),
{
    reveal(entry_at);
    let c = decoded(b)->Ok_0;
    assert(pool_entry(c, i) is Err);
}

/// Copies `d[start..start + len]` into a new vector.
fn copy_range(d: &[u8], start: usize, len: usize) -> (r: Vec<u8>)
    requires
        start + len <= d@.len(),
    ensures
        r@ == d@.subrange(start as int, start + len),
{
    let n = d.len();
    assert(start + len <= n);
    let mut r: Vec<u8> = Vec::new();
    extend_from_range(&mut r, d, start, start + len);
    proof {
        assert(r@ =~= d@.subrange(start as int, start + len));
    }
    r
}

/// Reads the payload of the string at offset `o` of the data region `d`.
/// Fails with `MalformedStringPool` where the offset or the string leaves
/// the region.
pub fn decode_entry(utf8: bool, d: &[u8], o: usize) -> (r: Result<Vec<u8>, Error>)
    ensures
        match r {
            Ok(v) => entry_at(utf8, d@, o as nat) == Ok::<Seq<u8>, Error>(v@),
            Err(e) => entry_at(utf8, d@, o as nat) == Err::<Seq<u8>, Error>(e),
        },
{
    reveal(entry_at);
    let n = d.len();
    if utf8 {
        if o >= n {
            Err(Error::MalformedStringPool)
        } else if d[o] < 0x80 {
            let len = d[o] as usize;
            if len > n - (o + 1) {
                Err(Error::MalformedStringPool)
            } else {
                Ok(copy_range(d, o + 1, len))
            }
        } else if o + 1 >= n {
            Err(Error::MalformedStringPool)
        } else {
            let len = (d[o] - 0x80) as usize * 256 + d[o + 1] as usize;
            if len > n - (o + 2) {
                Err(Error::MalformedStringPool)
            } else {
                Ok(copy_range(d, o + 2, len))
            }
        }
    } else {
        if n < 2 || o > n - 2 {
            Err(Error::MalformedStringPool)
        } else {
            let len = 2 * (read_u16(d, o) as usize);
            if len > n - (o + 2) {
                Err(Error::MalformedStringPool)
            } else {
                Ok(copy_range(d, o + 2, len))
            }
        }
    }
}

/// Appends a payload with its length prefix and terminator.
fn push_entry(out: &mut Vec<u8>, utf8: bool, p: &Vec<u8>)
    requires
        entry_fits(utf8, p@),
    ensures
        final(out)@ == old(out)@ + entry_bytes(utf8, p@),
{
    reveal(entry_bytes);
    let len = p.len();
    if utf8 {
        if len < 0x80 {
            out.push(len as u8);
        } else {
            out.push((0x80 + len / 256) as u8);
            out.push((len % 256) as u8);
        }
    } else {
        crate::chunk::push_u16(out, (len / 2) as u16);
    }
    let ghost mid = out@;
    assert(mid == old(out)@ + length_prefix(utf8, p@));
    extend_from_range(out, p.as_slice(), 0, len);
    out.push(0);
    if !utf8 {
        out.push(0);
    }
    proof {
        assert(p@.subrange(0, len as int) =~= p@);
        assert(final(out)@ =~= old(out)@ + entry_bytes(utf8, p@));
    }
}

/// Appends zeros up to a multiple of four bytes.
fn push_padding(out: &mut Vec<u8>)
    ensures
        final(out)@ == old(out)@ + padding(old(out)@.len()),
{
    reveal(padding);
    let k: usize = (4 - out.len() % 4) % 4;
    let mut j: usize = 0;
    while j < k
        invariant
            j <= k,
            k == (4 - old(out)@.len() % 4) % 4,
            out@ == old(out)@ + Seq::new(j as nat, |i: int| 0u8),
        decreases k - j,
    {
        out.push(0);
        j += 1;
        proof {
            assert(out@ =~= old(out)@ + Seq::new(j as nat, |i: int| 0u8));
        }
    }
}

/// A string pool: its encoding and the payload bytes of each string, in
/// pool order.
pub struct StringPool {
    pub utf8: bool,
    pub strings: Vec<Vec<u8>>,
}

impl View for StringPool {
    type V = (bool, Seq<Seq<u8>>);

    open spec fn view(&self) -> (bool, Seq<Seq<u8>>) {
        (self.utf8, self.strings@.map_values(|v: Vec<u8>| v@))
    }
}

impl StringPool {
    /// Writes the pool: header, offset table, then each string with its
    /// length prefix and terminator, padded to four bytes. Fails with
    /// `MalformedStringPool` where a string is too long for its length
    /// prefix or the chunk would pass 32 bits of size.
    pub fn encode(&self) -> (r: Result<Vec<u8>, Error>)
        ensures
            match r {
                Ok(b) => pool_fits(self@.0, self@.1) && b@ == pool_bytes(self@.0, self@.1),
                Err(e) => !pool_fits(self@.0, self@.1) && e == Error::MalformedStringPool,
            },
    {
        let ghost es = self@.1;
        let ghost e = entries(self.utf8, es);
        let ghost offs = offsets(self.utf8, es);
        let n = self.strings.len();
        if n > (0xFFFF_FFFFusize - 31) / 4 {
            return Err(Error::MalformedStringPool);
        }
        let limit: usize = 0xFFFF_FFFFusize - 31 - 4 * n;
        let mut table: Vec<u8> = Vec::new();
        let mut data: Vec<u8> = Vec::new();
        let mut i: usize = 0;
        proof {
            assert(e.take(0) =~= Seq::<Seq<u8>>::empty());
            assert(offs.take(0).map_values(|o: nat| le32(o)) =~= Seq::<Seq<u8>>::empty());
        }
        while i < n
            invariant
                n == self.strings@.len(),
                es == self@.1,
                e == entries(self.utf8, es),
                offs == offsets(self.utf8, es),
                limit == 0xFFFF_FFFFusize - 31 - 4 * n,
                i <= n,
                data@ == flat(e.take(i as int)),
                data@.len() <= limit,
                table@ == flat(offs.take(i as int).map_values(|o: nat| le32(o))),
                forall|j: int| 0 <= j < i ==> entry_fits(self.utf8, #[trigger] es[j]),
            decreases n - i,
        {
            let p = &self.strings[i];
            assert(p@ == es[i as int]);
            let len = p.len();
            let fits = if self.utf8 {
                len < 0x8000
            } else {
                len % 2 == 0 && len / 2 <= 0xFFFF
            };
            if !fits {
                return Err(Error::MalformedStringPool);
            }
            proof {
                lemma_flat_at(e, i as int);
                reveal(entry_bytes);
            }
            let entry_len: usize = if self.utf8 {
                if len < 0x80 { len + 2 } else { len + 3 }
            } else {
                len + 4
            };
            assert(entry_len == e[i as int].len());
            if entry_len > limit - data.len() {
                proof {
                    lemma_flat_split(e, i + 1);
                }
                return Err(Error::MalformedStringPool);
            }
            let ghost old_table = table@;
            push_u32(&mut table, data.len() as u32);
            push_entry(&mut data, self.utf8, p);
            i += 1;
            proof {
                let l = offs.take(i as int).map_values(|o: nat| le32(o));
                assert(l.drop_last() =~= offs.take(i - 1).map_values(|o: nat| le32(o)));
                assert(table@ =~= flat(l));
            }
        }
        proof {
            assert(e.take(n as int) =~= e);
            assert(offs.take(n as int) =~= offs);
            assert forall|j: int| 0 <= j < es.len() implies entry_fits(self.utf8, #[trigger] es[j]) by {}
            assert(pool_fits(self.utf8, es));
            lemma_pool_chunk_sizes(self.utf8, es);
        }
        push_padding(&mut data);
        let mut body: Vec<u8> = Vec::new();
        extend_from_range(&mut body, table.as_slice(), 0, table.len());
        extend_from_range(&mut body, data.as_slice(), 0, data.len());
        let mut extra: Vec<u8> = Vec::new();
        push_u32(&mut extra, n as u32);
        push_u32(&mut extra, 0);
        push_u32(&mut extra, if self.utf8 { 1 } else { 0 });
        push_u32(&mut extra, 28 + 4 * n as u32);
        push_u32(&mut extra, 0);
        proof {
            assert(table@.subrange(0, table@.len() as int) =~= table@);
            assert(data@.subrange(0, data@.len() as int) =~= data@);
            assert(extra@ =~= pool_extra(self.utf8, n as nat));
            assert(body@ =~= pool_chunk(self.utf8, es).body);
        }
        encode_chunk(TOKEN_STRING_TABLE, POOL_HEADER_SIZE, extra.as_slice(), body.as_slice())
    }

    /// Reads the string pool chunk at `pos`. Fails with the chunk errors of
    /// `RawChunk::decode`; with `MalformedHeader` where the chunk is not a
    /// string pool; with `MalformedStringPool` where the data region is not
    /// after the offset tables and within the chunk, or where an offset or
    /// a string leaves the data region.
    pub fn decode(bytes: &[u8], pos: usize) -> (r: Result<StringPool, Error>)
        requires
            pos <= bytes@.len(),
        ensures
            match r {
                Ok(p) => pool_decoded(bytes@.skip(pos as int)) == Ok::<(bool, Seq<Seq<u8>>), Error>(p@),
                Err(e) => pool_decoded(bytes@.skip(pos as int)) == Err::<(bool, Seq<Seq<u8>>), Error>(e),
            },
    {
        let c = match RawChunk::decode(bytes, pos) {
            Ok(c) => c,
            Err(e) => return Err(e),
        };
        if c.token != TOKEN_STRING_TABLE || c.header_size != POOL_HEADER_SIZE {
            return Err(Error::MalformedHeader);
        }
        let ghost cv = c@;
        assert(c.extra@.len() == 20);
        let extra = c.extra.as_slice();
        let body = c.body.as_slice();
        let n = read_u32(extra, 0);
        let sc = read_u32(extra, 4);
        let flags = read_u32(extra, 8);
        let ss = read_u32(extra, 12);
        let body_len = body.len();
        let end: u64 = if sc > 0 { read_u32(extra, 16) as u64 } else { 28 + body_len as u64 };
        if !(28 + 4 * (n as u64 + sc as u64) <= ss as u64 && ss as u64 <= end && end <= 28 + body_len as u64) {
            return Err(Error::MalformedStringPool);
        }
        assert(pool_region_ok(cv));
        let utf8 = flags % 2 == 1;
        let mut d: Vec<u8> = Vec::new();
        extend_from_range(&mut d, body, (ss - 28) as usize, (end - 28) as usize);
        assert(d@ =~= pool_region(cv));
        let mut strings: Vec<Vec<u8>> = Vec::new();
        let mut i: u32 = 0;
        while i < n
            invariant
                cv == c@,
                decoded(bytes@.skip(pos as int)) == Ok::<ChunkView, Error>(cv),
                cv.token == TOKEN_STRING_TABLE && cv.header_size == POOL_HEADER_SIZE,
                pool_region_ok(cv),
                extra@ == cv.extra,
                body@ == cv.body,
                n == u32_at(cv.extra, 0),
                4 * n <= body@.len(),
                utf8 == pool_utf8(cv),
                d@ == pool_region(cv),
                i <= n,
                strings@.len() == i,
                forall|j: int| 0 <= j < i ==> #[trigger] pool_entry(cv, j) == Ok::<Seq<u8>, Error>(strings@[j]@),
            decreases n - i,
        {
            let off = read_u32(body, 4 * i as usize);
            match decode_entry(utf8, d.as_slice(), off as usize) {
                Ok(v) => {
                    strings.push(v);
                },
                Err(_) => {
                    assert(pool_entry(cv, i as int) is Err);
                    assert(exists|j: int| 0 <= j < u32_at(cv.extra, 0) && (#[trigger] pool_entry(cv, j)) is Err);
                    return Err(Error::MalformedStringPool);
                },
            }
            i += 1;
        }
        let p = StringPool { utf8, strings };
        proof {
            assert(!exists|j: int| 0 <= j < u32_at(cv.extra, 0) && (#[trigger] pool_entry(cv, j)) is Err);
            assert(p@.1 =~= Seq::new(u32_at(cv.extra, 0), |j: int| pool_entry(cv, j)->Ok_0));
        }
        Ok(p)
    }
}

/// The text of UTF-8 bytes, malformed sequences replaced.
pub uninterp spec fn utf8_text(b: Seq<u8>) -> Seq<char>;

/// The text of UTF-16 little-endian bytes, malformed units replaced.
pub uninterp spec fn utf16le_text(b: Seq<u8>) -> Seq<char>;

/// The text of a payload in the pool's encoding.
pub open spec fn pool_text(utf8: bool, p: Seq<u8>) -> Seq<char> {
    if utf8 {
        utf8_text(p)
    } else {
        utf16le_text(p)
    }
}

/// The texts of the payloads `es` in a pool's encoding.
pub open spec fn pool_strings(utf8: bool, es: Seq<Seq<u8>>) -> Seq<Seq<char>> {
    es.map_values(|p: Seq<u8>| pool_text(utf8, p))
}

/// Relies on encoding's `UTF_8.decode` with `DecoderTrap::Replace`, which
/// never fails: the text depends on the bytes alone.
#[verifier::external_body]
fn decode_utf8(b: &[u8]) -> (r: String)
    ensures
        r@ == utf8_text(b@),
{
    UTF_8.decode(b, DecoderTrap::Replace).unwrap_or_default()
}

/// Relies on encoding's `UTF_16LE.decode` with `DecoderTrap::Replace`,
/// which never fails: the text depends on the bytes alone.
#[verifier::external_body]
fn decode_utf16le(b: &[u8]) -> (r: String)
    ensures
        r@ == utf16le_text(b@),
{
    UTF_16LE.decode(b, DecoderTrap::Replace).unwrap_or_default()
}

impl StringPool {
    /// The pool's strings as text, in pool order, with no style strings.
    pub fn to_string_table(&self) -> (r: StringTable)
        ensures
            r.strings_view() == self@.1.map_values(|p: Seq<u8>| pool_text(self.utf8, p)),
            r.styles@.len() == 0,
    {
        let mut strings: Vec<Rc<String>> = Vec::new();
        let mut i: usize = 0;
        while i < self.strings.len()
            invariant
                i <= self.strings@.len(),
                strings@.len() == i,
                forall|j: int| 0 <= j < i ==> (#[trigger] strings@[j])@ == pool_text(self.utf8, self.strings@[j]@),
            decreases self.strings@.len() - i,
        {
            let p = self.strings[i].as_slice();
            let text = if self.utf8 { decode_utf8(p) } else { decode_utf16le(p) };
            strings.push(Rc::new(text));
            i += 1;
        }
        let r = StringTable { strings, styles: Vec::new() };
        proof {
            assert(r.strings_view() =~= self@.1.map_values(|p: Seq<u8>| pool_text(self.utf8, p)));
        }
        r
    }
}

/// Reads the string pool chunk at `pos` and decodes its strings to text.
/// Fails exactly where `StringPool::decode` fails.
pub fn decode_string_table(bytes: &[u8], pos: usize) -> (r: Result<StringTable, Error>)
    requires
        pos <= bytes@.len(),
    ensures
        match pool_decoded(bytes@.skip(pos as int)) {
            Ok((utf8, es)) => r matches Ok(t) && t.strings_view() == es.map_values(
                |p: Seq<u8>| pool_text(utf8, p),
            ),
            Err(e) => r matches Err(e2) && e2 == e,
        },
{
    match StringPool::decode(bytes, pos) {
        Ok(p) => Ok(p.to_string_table()),
        Err(e) => Err(e),
    }
}

} // verus!
