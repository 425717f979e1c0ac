//! The event chunks of a binary XML document, and the builder that turns
//! their stream into an element tree with namespace scoping.
use std::rc::Rc;
use vstd::prelude::*;
use crate::chunk::{
    decoded, u16_at, u32_at, read_u16, read_u32, ChunkView, RawChunk, TOKEN_XML, TOKEN_XML_END_NAMESPACE,
    TOKEN_XML_START_NAMESPACE, TOKEN_XML_TAG_END, TOKEN_XML_TAG_START,
};
use crate::document::{
    attribute_reference_text, color_text, dimension_text, fraction_text, reference_text, StringTable, Value,
    TOKEN_TYPE_ATTRIBUTE_REFERENCE_ID, TOKEN_TYPE_BOOLEAN, TOKEN_TYPE_COLOR, TOKEN_TYPE_COLOR2,
    TOKEN_TYPE_DIMENSION, TOKEN_TYPE_FLAGS, TOKEN_TYPE_FLOAT, TOKEN_TYPE_FRACTION, TOKEN_TYPE_INTEGER,
    TOKEN_TYPE_REFERENCE_ID, TOKEN_TYPE_STRING,
};
use crate::text::decimal;
use crate::element::{pairs_view, Element, ElementContainer, Tag};
use crate::error::Error;
use crate::namespace::NamespaceStack;
use crate::string_pool::{pool_decoded, pool_strings, StringPool};

verus! {

/// Bytes of one attribute record that this decoder reads.
pub const ATTRIBUTE_RECORD_SIZE: u16 = 20;

/// An attribute record as stored: string indices, the raw value's index,
/// the 32-bit type code and the datum.
#[derive(Debug, Clone, Copy, PartialEq, Eq, Structural)]
pub struct RawAttribute {
    pub namespace: u32,
    pub name: u32,
    pub raw_value: u32,
    pub value_type: u32,
    pub data: u32,
}

/// One event of the document's chunk stream.
pub enum Event {
    StartNamespace { prefix: u32, uri: u32 },
    EndNamespace { prefix: u32, uri: u32 },
    StartElement { namespace: u32, name: u32, attributes: Vec<RawAttribute> },
    EndElement,
    /// A chunk of another kind, by its token.
    Skipped(u16),
}

/// The offset in the body of attribute `i` of an element start chunk.
pub open spec fn attribute_offset(c: ChunkView, i: int) -> int {
    u16_at(c.body, 8) + i * u16_at(c.body, 10)
}

/// The attribute record `i` of an element start chunk.
pub open spec fn attribute_at(c: ChunkView, i: int) -> RawAttribute {
    let o = attribute_offset(c, i);
    RawAttribute {
        namespace: u32_at(c.body, o) as u32,
        name: u32_at(c.body, o + 4) as u32,
        raw_value: u32_at(c.body, o + 8) as u32,
        value_type: u32_at(c.body, o + 12) as u32,
        data: u32_at(c.body, o + 16) as u32,
    }
}

/// `r` is what the chunk `c` gives as an event.
pub open spec fn event_of(c: ChunkView, r: Result<Event, Error>) -> bool {
    if c.token == TOKEN_XML_START_NAMESPACE || c.token == TOKEN_XML_END_NAMESPACE {
        if c.body.len() < 8 {
            r == Err::<Event, Error>(Error::UnexpectedEndOfStream)
        } else if c.token == TOKEN_XML_START_NAMESPACE {
            r matches Ok(Event::StartNamespace { prefix, uri }) && prefix == u32_at(c.body, 0) && uri
                == u32_at(c.body, 4)
        } else {
            r matches Ok(Event::EndNamespace { prefix, uri }) && prefix == u32_at(c.body, 0) && uri
                == u32_at(c.body, 4)
        }
    } else if c.token == TOKEN_XML_TAG_START {
        if c.body.len() < 14 || u16_at(c.body, 10) < ATTRIBUTE_RECORD_SIZE || attribute_offset(
            c,
            u16_at(c.body, 12) as int,
        ) > c.body.len() {
            r == Err::<Event, Error>(Error::UnexpectedEndOfStream)
        } else {
            r matches Ok(Event::StartElement { namespace, name, attributes }) && namespace == u32_at(
                c.body,
                0,
            ) && name == u32_at(c.body, 4) && attributes@.len() == u16_at(c.body, 12) && (forall|
                i: int,
            |
                0 <= i < attributes@.len() ==> #[trigger] attributes@[i] == attribute_at(c, i))
        }
    } else if c.token == TOKEN_XML_TAG_END {
        r matches Ok(Event::EndElement)
    } else {
        r matches Ok(Event::Skipped(t)) && t == c.token
    }
}

impl Event {
    /// Reads the event of the chunk at `pos`, and the position after that
    /// chunk. Fails with the chunk errors of `RawChunk::decode`, and with
    /// `UnexpectedEndOfStream` where a namespace or element start body is
    /// shorter than its fields or its attribute records.
    pub fn decode(bytes: &[u8], pos: usize) -> (r: Result<(Event, usize), Error>)
        requires
            pos <= bytes@.len(),
        ensures
            match decoded(bytes@.skip(pos as int)) {
                Err(e) => r == Err::<(Event, usize), Error>(e),
                Ok(c) => match r {
                    Ok((ev, next)) => event_of(c, Ok(ev)) && next == pos + c.header_size
                        + c.body.len(),
                    Err(e) => event_of(c, Err(e)),
                },
            },
    {
        let c = match RawChunk::decode(bytes, pos) {
            Ok(c) => c,
            Err(e) => return Err(e),
        };
        let ghost cv = c@;
        let n = bytes.len();
        assert(cv.body.len() == u32_at(bytes@.skip(pos as int), 4) - cv.header_size);
        assert(c.header_size + c.body@.len() <= n - pos);
        let next = pos + c.header_size as usize + c.body.len();
        let body = c.body.as_slice();
        let blen = body.len();
        let ev = if c.token == TOKEN_XML_START_NAMESPACE || c.token == TOKEN_XML_END_NAMESPACE {
            if blen < 8 {
                return Err(Error::UnexpectedEndOfStream);
            }
            let prefix = read_u32(body, 0);
            let uri = read_u32(body, 4);
            if c.token == TOKEN_XML_START_NAMESPACE {
                Event::StartNamespace { prefix, uri }
            } else {
                Event::EndNamespace { prefix, uri }
            }
        } else if c.token == TOKEN_XML_TAG_START {
            if blen < 14 {
                return Err(Error::UnexpectedEndOfStream);
            }
            let start = read_u16(body, 8) as usize;
            let size = read_u16(body, 10) as usize;
            let count = read_u16(body, 12) as usize;
            assert(count * size <= 0xFFFF * 0xFFFF) by (nonlinear_arith)
                requires count <= 0xFFFF, size <= 0xFFFF;
            if size < 20 || count * size > blen || start > blen - count * size {
                return Err(Error::UnexpectedEndOfStream);
            }
            let mut attributes: Vec<RawAttribute> = Vec::new();
            let mut i: usize = 0;
            let mut off: usize = start;
            while i < count
                invariant
                    body@ == cv.body,
                    blen == body@.len(),
                    start == u16_at(cv.body, 8),
                    size == u16_at(cv.body, 10),
                    size >= 20,
                    count * size <= blen,
                    start + count * size <= blen,
                    i <= count,
                    off == start + i * size,
                    attributes@.len() == i,
                    forall|j: int| 0 <= j < i ==> #[trigger] attributes@[j] == attribute_at(cv, j),
                decreases count - i,
            {
                assert(off + size <= start + count * size) by (nonlinear_arith)
                    requires off == start + i * size, i < count;
                let a = RawAttribute {
                    namespace: read_u32(body, off),
                    name: read_u32(body, off + 4),
                    raw_value: read_u32(body, off + 8),
                    value_type: read_u32(body, off + 12),
                    data: read_u32(body, off + 16),
                };
                attributes.push(a);
                assert(off + size == start + (i + 1) * size) by (nonlinear_arith)
                    requires off == start + i * size;
                i += 1;
                off += size;
            }
            Event::StartElement { namespace: read_u32(body, 0), name: read_u32(body, 4), attributes }
        } else if c.token == TOKEN_XML_TAG_END {
            Event::EndElement
        } else {
            Event::Skipped(c.token)
        };
        Ok((ev, next))
    }
}

/// Why an attribute record cannot be resolved, if it cannot.
pub open spec fn attribute_error(a: RawAttribute, strings: Seq<Seq<char>>) -> Option<Error> {
    if a.name >= strings.len() {
        Some(Error::StringIndexOutOfBounds)
    } else if a.value_type == crate::document::TOKEN_TYPE_STRING && a.data >= strings.len() {
        Some(Error::StringIndexOutOfBounds)
    } else if a.value_type == crate::document::TOKEN_TYPE_DIMENSION && a.data % 256 >= 6 {
        Some(Error::InvalidUnit)
    } else {
        None
    }
}

/// The error of the first attribute record that cannot be resolved, if any.
pub open spec fn first_attribute_error(attrs: Seq<RawAttribute>, strings: Seq<Seq<char>>) -> Option<Error>
    decreases attrs.len(),
{
    if attrs.len() == 0 {
        None
    } else {
        match attribute_error(attrs[0], strings) {
            Some(e) => Some(e),
            None => first_attribute_error(attrs.drop_first(), strings),
        }
    }
}

/// `b1` and `r` are what applying `event` to `b0` gives.
pub open spec fn applies(b0: DocumentBuilder, event: Event, b1: DocumentBuilder, r: Result<bool, Error>) -> bool {
    &&& b1.spec_strings() == b0.spec_strings()
    &&& r is Err ==> b1 == b0
    &&& ({
                let s = b0.spec_strings();
                let ns = b0.spec_namespaces();
                let els = b0.spec_elements();
                match event {
                    Event::StartNamespace { prefix, uri } => if prefix < s.len() && uri < s.len() {
                        &&& r == Ok::<bool, Error>(true)
                        &&& b1.spec_namespaces() == ns.push((s[prefix as int], s[uri as int]))
                        &&& b1.spec_elements() == els
                    } else {
                        r == Err::<bool, Error>(Error::StringIndexOutOfBounds)
                    },
                    Event::EndNamespace { .. } => {
                        &&& r == Ok::<bool, Error>(ns.len() > 0)
                        &&& b1.spec_namespaces() == if ns.len() > 0 { ns.drop_last() } else { ns }
                        &&& b1.spec_elements() == els
                    },
                    Event::StartElement { namespace, name, attributes } => if name >= s.len() {
                        r == Err::<bool, Error>(Error::StringIndexOutOfBounds)
                    } else {
                        match first_attribute_error(attributes@, s) {
                            Some(e) => r == Err::<bool, Error>(e),
                            None => {
                                let st = b1.spec_elements().spec_stack();
                                let e = st.last();
                                &&& r == Ok::<bool, Error>(true)
                                &&& b1.spec_namespaces() == ns
                                &&& b1.spec_elements().spec_root() == els.spec_root()
                                &&& st.drop_last() == els.spec_stack()
                                &&& st.len() == els.spec_stack().len() + 1
                                &&& e.spec_tag().spec_name() == s[name as int]
                                &&& e.spec_tag().spec_prefixes().len() == ns.len()
                                &&& forall|i: int| 0 <= i < ns.len() ==> (#[trigger] e.spec_tag().spec_prefixes()[i])@ == ns[i].0
                                &&& e.spec_children() == Seq::<Element>::empty()
                                &&& e.spec_level() == els.spec_stack().len()
                                &&& e.spec_attrs() == attribute_map(attributes@, s)
                            },
                        }
                    },
                    Event::EndElement => {
                        &&& r == Ok::<bool, Error>(els.spec_stack().len() > 0)
                        &&& b1.spec_namespaces() == ns
                        &&& (els.spec_stack().len() == 0 ==> b1.spec_elements() == els)
                        &&& (els.spec_stack().len() == 1 ==> {
                            &&& b1.spec_elements().spec_stack() == Seq::<Element>::empty()
                            &&& b1.spec_elements().spec_root() == Some(els.spec_stack()[0])
                        })
                        &&& (els.spec_stack().len() >= 2 ==> {
                            let st = els.spec_stack();
                            let n = st.len() as int;
                            &&& b1.spec_elements().spec_root() == els.spec_root()
                            &&& b1.spec_elements().spec_stack().len() == n - 1
                            &&& b1.spec_elements().spec_stack().take(n - 2) == st.take(n - 2)
                            &&& st[n - 2].with_child(st[n - 1], b1.spec_elements().spec_stack()[n - 2])
                        })
                    },
                    Event::Skipped(_) => {
                        &&& r == Ok::<bool, Error>(true)
                        &&& b1 == b0
                    },
                }
            })
}

/// The text that an attribute record resolves to, where it resolves.
pub open spec fn value_text(a: RawAttribute, strings: Seq<Seq<char>>) -> Seq<char> {
    let t = a.value_type;
    let d = a.data;
    if t == TOKEN_TYPE_REFERENCE_ID {
        reference_text(d as nat)
    } else if t == TOKEN_TYPE_ATTRIBUTE_REFERENCE_ID {
        attribute_reference_text(d as nat)
    } else if t == TOKEN_TYPE_STRING {
        strings[d as int]
    } else if t == TOKEN_TYPE_DIMENSION {
        dimension_text(d as nat)
    } else if t == TOKEN_TYPE_FRACTION {
        fraction_text(d as nat)
    } else if t == TOKEN_TYPE_INTEGER || t == TOKEN_TYPE_FLAGS || t == TOKEN_TYPE_FLOAT {
        decimal(d as nat)
    } else if t == TOKEN_TYPE_BOOLEAN {
        if d != 0 {
            seq!['t', 'r', 'u', 'e']
        } else {
            seq!['f', 'a', 'l', 's', 'e']
        }
    } else if t == TOKEN_TYPE_COLOR || t == TOKEN_TYPE_COLOR2 {
        color_text(d as nat)
    } else {
        seq!['U', 'n', 'k', 'n', 'o', 'w', 'n']
    }
}

/// The index of the entry named `k` in `l`, or -1.
pub open spec fn find_key(l: Seq<(Seq<char>, Seq<char>)>, k: Seq<char>) -> int
    decreases l.len(),
{
    if l.len() == 0 {
        -1
    } else if l.last().0 == k {
        l.len() - 1
    } else {
        find_key(l.drop_last(), k)
    }
}

/// `l` with `k` sent to `v`: its entry replaced where it has one, else a
/// new entry at the end.
pub open spec fn upsert(l: Seq<(Seq<char>, Seq<char>)>, k: Seq<char>, v: Seq<char>) -> Seq<(Seq<char>, Seq<char>)> {
    let j = find_key(l, k);
    if j >= 0 {
        l.update(j, (k, v))
    } else {
        l.push((k, v))
    }
}

/// The attribute map of records that all resolve: each name sent to the
/// text of its last record's value.
pub open spec fn attribute_map(attrs: Seq<RawAttribute>, strings: Seq<Seq<char>>) -> Seq<(Seq<char>, Seq<char>)>
    decreases attrs.len(),
{
    if attrs.len() == 0 {
        Seq::empty()
    } else {
        upsert(
            attribute_map(attrs.drop_last(), strings),
            strings[attrs.last().name as int],
            value_text(attrs.last(), strings),
        )
    }
}

proof fn lemma_find_key(l: Seq<(Seq<char>, Seq<char>)>, k: Seq<char>)
    ensures
        -1 <= find_key(l, k) < l.len(),
        find_key(l, k) >= 0 ==> l[find_key(l, k)].0 == k,
    decreases l.len(),
{
    if l.len() > 0 {
        lemma_find_key(l.drop_last(), k);
    }
}

/// Sends `k` to `v` in the attribute list `map`.
fn upsert_pair(map: &mut Vec<(String, String)>, k: String, v: String)
    ensures
        pairs_view(final(map)@) == upsert(pairs_view(old(map)@), k@, v@),
{
    let ghost l = pairs_view(map@);
    let mut i = map.len();
    assert(l.take(i as int) =~= l);
    while i > 0
        invariant
            i <= map@.len(),
            map@ == old(map)@,
            l == pairs_view(map@),
            find_key(l, k@) == find_key(l.take(i as int), k@),
        decreases i,
    {
        let ghost t = l.take(i as int);
        assert(t.drop_last() =~= l.take(i - 1));
        let name: &String = &map[i - 1].0;
        assert(t.last() == l[i - 1]);
        if name.eq(&k) {
            map.set(i - 1, (k, v));
            proof {
                assert(pairs_view(map@) =~= upsert(l, k@, v@));
            }
            return;
        }
        i -= 1;
    }
    map.push((k, v));
    proof {
        assert(pairs_view(map@) =~= upsert(l, k@, v@));
    }
}

/// Turns the event stream of a document into its element tree, resolving
/// string indices against the document's string pool and tagging each
/// element with the namespace prefixes open at its start.
pub struct DocumentBuilder {
    strings: StringTable,
    namespaces: NamespaceStack,
    elements: ElementContainer,
}

impl DocumentBuilder {
    pub closed spec fn spec_strings(&self) -> Seq<Seq<char>> {
        self.strings.strings_view()
    }

    pub closed spec fn spec_namespaces(&self) -> Seq<(Seq<char>, Seq<char>)> {
        self.namespaces@
    }

    pub closed spec fn spec_elements(&self) -> ElementContainer {
        self.elements
    }

    /// A builder over the strings of `strings`, with nothing open.
    pub fn new(strings: StringTable) -> (r: Self)
        ensures
            r.spec_strings() == strings.strings_view(),
            r.spec_namespaces() == Seq::<(Seq<char>, Seq<char>)>::empty(),
            r.spec_elements().spec_stack() == Seq::<Element>::empty(),
            r.spec_elements().spec_root() == None::<Element>,
    {
        DocumentBuilder { strings, namespaces: NamespaceStack::new(), elements: ElementContainer::new() }
    }

    fn string_at(&self, i: u32) -> (r: Result<Rc<String>, Error>)
        ensures
            i < self.spec_strings().len() ==> (r matches Ok(s) && s@ == self.spec_strings()[i as int]),
            i >= self.spec_strings().len() ==> r == Err::<Rc<String>, Error>(Error::StringIndexOutOfBounds),
    {
        if (i as usize) < self.strings.strings.len() {
            let s = self.strings.strings[i as usize].clone();
            assert(s@ == self.spec_strings()[i as int]);
            Ok(s)
        } else {
            Err(Error::StringIndexOutOfBounds)
        }
    }

    /// Resolves the attribute records into a map from name to value text.
    fn resolve_attributes(&self, attrs: &Vec<RawAttribute>) -> (r: Result<Vec<(String, String)>, Error>)
        ensures
            match first_attribute_error(attrs@, self.spec_strings()) {
                Some(e) => r == Err::<Vec<(String, String)>, Error>(e),
                None => r matches Ok(m) && pairs_view(m@) == attribute_map(attrs@, self.spec_strings()),
            },
    {
        let mut map: Vec<(String, String)> = Vec::new();
        let mut i: usize = 0;
        assert(attrs@.skip(0) =~= attrs@);
        assert(pairs_view(map@) =~= attribute_map(attrs@.take(0), self.spec_strings()));
        while i < attrs.len()
            invariant
                i <= attrs@.len(),
                first_attribute_error(attrs@, self.spec_strings()) == first_attribute_error(
                    attrs@.skip(i as int),
                    self.spec_strings(),
                ),
                pairs_view(map@) == attribute_map(attrs@.take(i as int), self.spec_strings()),
            decreases attrs@.len() - i,
        {
            let a = attrs[i];
            proof {
                assert(attrs@.skip(i as int)[0] == a);
                assert(attrs@.skip(i as int).drop_first() =~= attrs@.skip(i + 1));
                assert(attrs@.take(i + 1).drop_last() =~= attrs@.take(i as int));
            }
            let name = match self.string_at(a.name) {
                Ok(s) => s,
                Err(e) => return Err(e),
            };
            let value = match Value::new(a.value_type, a.data, &self.strings) {
                Ok(v) => v,
                Err(e) => return Err(e),
            };
            let key: &String = &name;
            let text = value.to_string();
            assert(text@ == value_text(a, self.spec_strings()));
            upsert_pair(&mut map, key.clone(), text);
            i += 1;
        }
        proof {
            assert(attrs@.take(i as int) =~= attrs@);
        }
        Ok(map)
    }

    /// Applies one event. A namespace start opens a binding and a namespace
    /// end closes the innermost one; an element start opens an element at
    /// the current depth and an element end closes the innermost one.
    /// `Ok(false)` reports an end event with nothing open to close, which
    /// leaves the builder as it is. Fails with `StringIndexOutOfBounds`
    /// where a string index is past the pool, or with the error of the first
    /// attribute that cannot be resolved; a failed event changes nothing.
    pub fn apply(&mut self, event: &Event) -> (r: Result<bool, Error>)
        requires
            old(self).spec_elements().spec_stack().len() < u32::MAX,
        ensures
            applies(*old(self), *event, *final(self), r),

    {
        match event {
            Event::StartNamespace { prefix, uri } => {
                let p = match self.string_at(*prefix) {
                    Ok(p) => p,
                    Err(e) => return Err(e),
                };
                let u = match self.string_at(*uri) {
                    Ok(u) => u,
                    Err(e) => return Err(e),
                };
                self.namespaces.start_namespace(p, u);
                Ok(true)
            },
            Event::EndNamespace { .. } => {
                let closed = self.namespaces.end_namespace();
                Ok(closed.is_some())
            },
            Event::StartElement { namespace, name, attributes } => {
                let tag_name = match self.string_at(*name) {
                    Ok(s) => s,
                    Err(e) => return Err(e),
                };
                let attrs = match self.resolve_attributes(attributes) {
                    Ok(m) => m,
                    Err(e) => return Err(e),
                };
                let tag = Tag::new(tag_name, self.namespaces.prefixes());
                self.elements.start_element(Element::new(tag, attrs));
                Ok(true)
            },
            Event::EndElement => Ok(self.elements.end_element()),
            Event::Skipped(_) => Ok(true),
        }
    }

    /// The root element, once the outermost element has closed.
    pub fn get_root(&self) -> (r: &Option<Element>)
        ensures
            *r == self.spec_elements().spec_root(),
    {
        self.elements.get_root()
    }

    /// The number of elements open.
    pub fn depth(&self) -> (r: usize)
        ensures
            r == self.spec_elements().spec_stack().len(),
    {
        self.elements.depth()
    }

    /// The root element, taking the builder apart.
    pub fn into_root(self) -> (r: Option<Element>)
        ensures
            r == self.spec_elements().spec_root(),
    {
        self.elements.into_root()
    }
}

/// The number of `false` among `rs`.
pub open spec fn count_false(rs: Seq<bool>) -> nat
    decreases rs.len(),
{
    if rs.len() == 0 {
        0
    } else {
        count_false(rs.drop_last()) + if rs.last() {
            0nat
        } else {
            1nat
        }
    }
}

/// The chunks at `ps[0]`, `ps[1]`, ... each lie before `end`, each reaches
/// the next position and no further than `end`, and each gives the event
/// `evs[i]`.
pub open spec fn walked(b: Seq<u8>, end: int, ps: Seq<int>, evs: Seq<Event>) -> bool {
    &&& ps.len() == evs.len() + 1
    &&& forall|i: int|
        0 <= i < evs.len() ==> {
            let c = decoded(b.skip(#[trigger] ps[i]))->Ok_0;
            &&& 0 <= ps[i] < end
            &&& decoded(b.skip(ps[i])) is Ok
            &&& event_of(c, Ok(evs[i]))
            &&& ps[i + 1] == ps[i] + c.header_size + c.body.len()
            &&& ps[i + 1] <= end
        }
}

/// Starting from an empty builder over `strings`, applying each event of
/// `evs` in turn succeeds, passing through `states` and giving `rs`.
pub open spec fn ran(strings: Seq<Seq<char>>, evs: Seq<Event>, states: Seq<DocumentBuilder>, rs: Seq<bool>) -> bool {
    &&& states.len() == evs.len() + 1
    &&& rs.len() == evs.len()
    &&& states[0].spec_strings() == strings
    &&& states[0].spec_namespaces() == Seq::<(Seq<char>, Seq<char>)>::empty()
    &&& states[0].spec_elements().spec_stack() == Seq::<Element>::empty()
    &&& states[0].spec_elements().spec_root() == None::<Element>
    &&& forall|i: int|
        0 <= i < evs.len() ==> applies(#[trigger] states[i], evs[i], states[i + 1], Ok(rs[i]))
}

/// How the walk that stopped at `p`, with the builder in state `last`,
/// ends: past the end, the root and the count of unbalanced end events;
/// otherwise the error of the chunk at `p` or of its event, then
/// `MalformedHeader` where that chunk runs past the end, then the error of
/// applying its event.
pub open spec fn walk_outcome(
    b: Seq<u8>,
    end: int,
    p: int,
    last: DocumentBuilder,
    rs: Seq<bool>,
    r: Result<(Option<Element>, usize), Error>,
) -> bool {
    if p >= end {
        r matches Ok((root, u)) && root == last.spec_elements().spec_root() && u == count_false(rs)
    } else {
        match decoded(b.skip(p)) {
            Err(e) => r == Err::<(Option<Element>, usize), Error>(e),
            Ok(c) => r matches Err(e) && (event_of(c, Err(e)) || exists|ev: Event|
                #[trigger] event_of(c, Ok(ev)) && if p + c.header_size + c.body.len() > end {
                    e == Error::MalformedHeader
                } else {
                    applies(last, ev, last, Err(e))
                }),
        }
    }
}

/// What decoding the body of an XML document chunk `c` gives, once its
/// string pool read as `utf8` and `es`.
pub open spec fn xml_result(
    b: Seq<u8>,
    c: ChunkView,
    utf8: bool,
    es: Seq<Seq<u8>>,
    r: Result<(Option<Element>, usize), Error>,
) -> bool {
    let start = c.header_size as int;
    let end = c.header_size + c.body.len();
    let pool_end = start + u32_at(b.skip(start), 4);
    if pool_end > end {
        r == Err::<(Option<Element>, usize), Error>(Error::MalformedHeader)
    } else {
        exists|ps: Seq<int>, evs: Seq<Event>, states: Seq<DocumentBuilder>, rs: Seq<bool>|
            #![trigger walked(b, end, ps, evs), ran(pool_strings(utf8, es), evs, states, rs)]
            ps[0] == pool_end && walked(b, end, ps, evs) && ran(
                pool_strings(utf8, es),
                evs,
                states,
                rs,
            ) && walk_outcome(b, end, ps.last(), states.last(), rs, r)
    }
}

/// Reads a binary XML document: its outer chunk, the string pool that
/// opens its body, then each chunk after it as an event, in order, up to
/// the end of the outer chunk, applying each to a builder over the pool's
/// strings. Gives the root element, if one closed, and the number of end
/// events that found nothing open to close: those are skipped, not fatal.
/// Fails with the outer chunk's error; with `MalformedHeader` where the
/// outer chunk is not an XML document or a chunk runs past its end; with
/// the string pool's error; and otherwise with the first error of an event
/// chunk or of applying its event.
#[verifier::rlimit(80)]
pub fn decode_xml(bytes: &[u8]) -> (r: Result<(Option<Element>, usize), Error>)
    ensures
        match decoded(bytes@) {
            Err(e) => r == Err::<(Option<Element>, usize), Error>(e),
            Ok(c) => if c.token != TOKEN_XML {
                r == Err::<(Option<Element>, usize), Error>(Error::MalformedHeader)
            } else {
                match pool_decoded(bytes@.skip(c.header_size as int)) {
                    Err(e) => r == Err::<(Option<Element>, usize), Error>(e),
                    Ok((utf8, es)) => xml_result(bytes@, c, utf8, es, r),
                }
            },
        },
{
    let outer = match RawChunk::decode(bytes, 0) {
        Ok(c) => c,
        Err(e) => {
            assert(bytes@.skip(0) =~= bytes@);
            return Err(e);
        },
    };
    assert(bytes@.skip(0) =~= bytes@);
    let ghost oc = outer@;
    if outer.token != TOKEN_XML {
        return Err(Error::MalformedHeader);
    }
    let total = read_u32(bytes, 4);
    let start = outer.header_size as usize;
    let pool = match StringPool::decode(bytes, start) {
        Ok(p) => p,
        Err(e) => return Err(e),
    };
    let ghost strings = pool_strings(pool@.0, pool@.1);
    let pool_end: usize = match Event::decode(bytes, start) {
        Ok((_, next)) => next,
        Err(e) => return Err(e),
    };
    if pool_end > total as usize {
        return Err(Error::MalformedHeader);
    }
    let mut builder = DocumentBuilder::new(pool.to_string_table());
    let mut unbalanced: usize = 0;
    let mut pos: usize = pool_end;
    let ghost mut ps: Seq<int> = seq![pool_end as int];
    let ghost mut evs: Seq<Event> = Seq::empty();
    let ghost mut states: Seq<DocumentBuilder> = seq![builder];
    let ghost mut rs: Seq<bool> = Seq::empty();
    while pos < total as usize
        invariant
            decoded(bytes@) == Ok::<ChunkView, Error>(oc),
            oc.token == TOKEN_XML,
            pool_decoded(bytes@.skip(oc.header_size as int)) == Ok::<(bool, Seq<Seq<u8>>), Error>(pool@),
            strings == pool_strings(pool@.0, pool@.1),
            total == oc.header_size + oc.body.len(),
            total as int <= bytes@.len(),
            pool_end == oc.header_size + u32_at(bytes@.skip(oc.header_size as int), 4),
            pos <= total,
            8 * (builder.spec_elements().spec_stack().len() + unbalanced) <= pos,
            total <= u32::MAX,
            ps[0] == pool_end,
            ps.last() == pos,
            walked(bytes@, total as int, ps, evs),
            ran(strings, evs, states, rs),
            states.last() == builder,
            unbalanced == count_false(rs),
        decreases bytes@.len() - pos,
    {
        let (event, next) = match Event::decode(bytes, pos) {
            Ok(p) => p,
            Err(e) => {
                proof {
                    assert(walk_outcome(bytes@, total as int, ps.last(), states.last(), rs, Err(e)));
                }
                return Err(e);
            },
        };
        if next > total as usize {
            proof {
                assert(walk_outcome(bytes@, total as int, ps.last(), states.last(), rs, Err(Error::MalformedHeader)));
            }
            return Err(Error::MalformedHeader);
        }
        let ghost before = builder;
        let applied = builder.apply(&event);
        match applied {
            Ok(closed) => {
                if !closed {
                    unbalanced += 1;
                }
                proof {
                    let ps2 = ps.push(next as int);
                    let evs2 = evs.push(event);
                    let states2 = states.push(builder);
                    let rs2 = rs.push(closed);
                    assert(rs2.drop_last() =~= rs);
                    assert forall|i: int| 0 <= i < evs2.len() implies {
                        let c = decoded(bytes@.skip(#[trigger] ps2[i]))->Ok_0;
                        &&& 0 <= ps2[i] < total
                        &&& decoded(bytes@.skip(ps2[i])) is Ok
                        &&& event_of(c, Ok(evs2[i]))
                        &&& ps2[i + 1] == ps2[i] + c.header_size + c.body.len()
                        &&& ps2[i + 1] <= total
                    } by {
                        if i < evs.len() {
                            assert(ps2[i] == ps[i] && ps2[i + 1] == ps[i + 1] && evs2[i] == evs[i]);
                        }
                    }
                    assert forall|i: int| 0 <= i < evs2.len() implies applies(
                        #[trigger] states2[i],
                        evs2[i],
                        states2[i + 1],
                        Ok(rs2[i]),
                    ) by {
                        if i < evs.len() {
                            assert(states2[i] == states[i] && states2[i + 1] == states[i + 1]);
                        }
                    }
                    ps = ps2;
                    evs = evs2;
                    states = states2;
                    rs = rs2;
                }
            },
            Err(e) => {
                proof {
                    assert(applies(before, event, before, Err(e)));
                    assert(walk_outcome(bytes@, total as int, ps.last(), states.last(), rs, Err(e)));
                }
                return Err(e);
            },
        }
        pos = next;
    }
    Ok((builder.into_root(), unbalanced))
}

} // verus!
