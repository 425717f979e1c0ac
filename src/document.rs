//! The decoded document: tables read from a resource file, and the typed
//! values that attribute records resolve to.
use std::rc::Rc;
use vstd::prelude::*;
use crate::error::Error;
use crate::element::Element;
use crate::chunk::{
    chunk_bytes, decoded, le32, u32_at, lemma_decode_encode, lemma_encode_decode,
    push_u32, read_u32, encode_chunk, ChunkView, RawChunk, TOKEN_RESOURCE_MAP, BASE_HEADER_SIZE,
};
use crate::text::{decimal, hex_digits, push_char, push_decimal, push_hex, decimal_string};

verus! {

/// Type code of a reference to a resource id.
pub const TOKEN_TYPE_REFERENCE_ID: u32 = 0x01000008;
/// Type code of a reference to an attribute id.
pub const TOKEN_TYPE_ATTRIBUTE_REFERENCE_ID: u32 = 0x02000008;
/// Type code of an index into the string pool.
pub const TOKEN_TYPE_STRING: u32 = 0x03000008;
/// Type code of a float.
pub const TOKEN_TYPE_FLOAT: u32 = 0x04000008;
/// Type code of a dimension: a magnitude and a unit.
pub const TOKEN_TYPE_DIMENSION: u32 = 0x05000008;
/// Type code of a fraction of `0x7FFFFFFF`.
pub const TOKEN_TYPE_FRACTION: u32 = 0x06000008;
/// Type code of an integer.
pub const TOKEN_TYPE_INTEGER: u32 = 0x10000008;
/// Type code of a set of flags.
pub const TOKEN_TYPE_FLAGS: u32 = 0x11000008;
/// Type code of a boolean.
pub const TOKEN_TYPE_BOOLEAN: u32 = 0x12000008;
/// Type code of a color.
pub const TOKEN_TYPE_COLOR: u32 = 0x1C000008;
/// Type code of the second color kind.
pub const TOKEN_TYPE_COLOR2: u32 = 0x1D000008;

/// The strings of a string pool, and its style strings, in pool order.
pub struct StringTable {
    pub strings: Vec<Rc<String>>,
    pub styles: Vec<Rc<String>>,
}

impl StringTable {
    /// The strings of the pool, as character sequences.
    pub open spec fn strings_view(&self) -> Seq<Seq<char>> {
        self.strings@.map_values(|s: Rc<String>| s@)
    }
}

/// A resolved attribute value.
///
/// `Float` holds the raw 32-bit data: the value is that integer widened to a
/// floating-point number, not its bits read as one.
pub enum Value {
    String(Rc<String>),
    Dimension(String),
    Fraction(String),
    Float(u32),
    Integer(u64),
    Flags(u64),
    Boolean(bool),
    Color(String),
    Color2(String),
    ReferenceId(String),
    AttributeReferenceId(String),
    Unknown,
}

/// The name of the unit of a dimension, for a unit index below six.
pub open spec fn unit_name(idx: nat) -> Seq<char> {
    if idx == 0 {
        seq!['p', 'x']
    } else if idx == 1 {
        seq!['d', 'p']
    } else if idx == 2 {
        seq!['s', 'p']
    } else if idx == 3 {
        seq!['p', 't']
    } else if idx == 4 {
        seq!['i', 'n']
    } else {
        seq!['m', 'm']
    }
}

/// The largest fraction datum: it stands for one.
pub const FRACTION_ONE: u64 = 0x7FFFFFFF;

/// `data / 0x7FFFFFFF` in hundredths, rounded to the nearest.
pub open spec fn fraction_hundredths(data: nat) -> nat {
    ((data * 200 + FRACTION_ONE) / (2 * FRACTION_ONE)) as nat
}

/// `data / 0x7FFFFFFF` written with exactly two decimal digits.
pub open spec fn fraction_text(data: nat) -> Seq<char> {
    let h = fraction_hundredths(data);
    decimal(h / 100) + seq!['.'] + hex_digits(h % 100 / 10, 1) + hex_digits(h % 10, 1)
}

/// The text of a dimension datum whose unit index is below six.
pub open spec fn dimension_text(data: nat) -> Seq<char> {
    decimal(data / 256) + unit_name(data % 256)
}

/// `@id/0x` followed by eight hexadecimal digits.
pub open spec fn reference_text(data: nat) -> Seq<char> {
    seq!['@', 'i', 'd', '/', '0', 'x'] + hex_digits(data, 8)
}

/// `?id/0x` followed by eight hexadecimal digits.
pub open spec fn attribute_reference_text(data: nat) -> Seq<char> {
    seq!['?', 'i', 'd', '/', '0', 'x'] + hex_digits(data, 8)
}

/// `#` followed by eight hexadecimal digits.
pub open spec fn color_text(data: nat) -> Seq<char> {
    seq!['#'] + hex_digits(data, 8)
}

/// What an attribute record with type code `value_type` and datum `data`
/// resolves to, given the strings of the pool.
pub open spec fn resolves_to(
    value_type: u32,
    data: u32,
    strings: Seq<Seq<char>>,
    r: Result<Value, Error>,
) -> bool {
    if value_type == TOKEN_TYPE_REFERENCE_ID {
        r matches Ok(Value::ReferenceId(s)) && s@ == reference_text(data as nat)
    } else if value_type == TOKEN_TYPE_ATTRIBUTE_REFERENCE_ID {
        r matches Ok(Value::AttributeReferenceId(s)) && s@ == attribute_reference_text(data as nat)
    } else if value_type == TOKEN_TYPE_STRING {
        if data < strings.len() {
            r matches Ok(Value::String(s)) && s@ == strings[data as int]
        } else {
            r == Err::<Value, Error>(Error::StringIndexOutOfBounds)
        }
    } else if value_type == TOKEN_TYPE_DIMENSION {
        if data % 256 < 6 {
            r matches Ok(Value::Dimension(s)) && s@ == dimension_text(data as nat)
        } else {
            r == Err::<Value, Error>(Error::InvalidUnit)
        }
    } else if value_type == TOKEN_TYPE_FRACTION {
        r matches Ok(Value::Fraction(s)) && s@ == fraction_text(data as nat)
    } else if value_type == TOKEN_TYPE_INTEGER {
        r matches Ok(Value::Integer(i)) && i == data as u64
    } else if value_type == TOKEN_TYPE_FLAGS {
        r matches Ok(Value::Flags(i)) && i == data as u64
    } else if value_type == TOKEN_TYPE_FLOAT {
        r matches Ok(Value::Float(d)) && d == data
    } else if value_type == TOKEN_TYPE_BOOLEAN {
        r matches Ok(Value::Boolean(b)) && b == (data != 0)
    } else if value_type == TOKEN_TYPE_COLOR {
        r matches Ok(Value::Color(s)) && s@ == color_text(data as nat)
    } else if value_type == TOKEN_TYPE_COLOR2 {
        r matches Ok(Value::Color2(s)) && s@ == color_text(data as nat)
    } else {
        r matches Ok(Value::Unknown)
    }
}

/// Appends `data / 0x7FFFFFFF` with two decimal digits to `s`.
fn push_fraction(s: &mut String, data: u32)
    ensures
        final(s)@ == old(s)@ + fraction_text(data as nat),
{
    let h: u64 = (data as u64 * 200 + FRACTION_ONE) / (2 * FRACTION_ONE);
    push_decimal(s, h / 100);
    push_char(s, '.');
    push_hex(s, h % 100 / 10, 1);
    push_hex(s, h % 10, 1);
    proof {
        assert(final(s)@ =~= old(s)@ + fraction_text(data as nat));
    }
}

fn prefixed_hex(prefix: &str, data: u32) -> (r: String)
    ensures
        r@ == prefix@ + hex_digits(data as nat, 8),
{
    let mut s = prefix.to_string();
    push_hex(&mut s, data as u64, 8);
    s
}

impl Value {
    /// Resolves an attribute record: its type code selects the kind of value,
    /// and `data` is read according to that kind. Unknown type codes give
    /// `Value::Unknown`.
    pub fn new(value_type: u32, data: u32, str_table: &StringTable) -> (r: Result<Value, Error>)
        ensures
            resolves_to(value_type, data, str_table.strings_view(), r),
    {
        if value_type == TOKEN_TYPE_REFERENCE_ID {
            let s = prefixed_hex("@id/0x", data);
            proof { reveal_strlit("@id/0x"); }
            assert(s@ == reference_text(data as nat));
            Ok(Value::ReferenceId(s))
        } else if value_type == TOKEN_TYPE_ATTRIBUTE_REFERENCE_ID {
            let s = prefixed_hex("?id/0x", data);
            proof { reveal_strlit("?id/0x"); }
            assert(s@ == attribute_reference_text(data as nat));
            Ok(Value::AttributeReferenceId(s))
        } else if value_type == TOKEN_TYPE_STRING {
            if (data as usize) < str_table.strings.len() {
                let v = str_table.strings[data as usize].clone();
                assert(v@ == str_table.strings_view()[data as int]);
                Ok(Value::String(v))
            } else {
                Err(Error::StringIndexOutOfBounds)
            }
        } else if value_type == TOKEN_TYPE_DIMENSION {
            let unit_idx = data % 256;
            if unit_idx >= 6 {
                return Err(Error::InvalidUnit);
            }
            let mut s = decimal_string((data / 256) as u64);
            let unit = if unit_idx == 0 {
                "px"
            } else if unit_idx == 1 {
                "dp"
            } else if unit_idx == 2 {
                "sp"
            } else if unit_idx == 3 {
                "pt"
            } else if unit_idx == 4 {
                "in"
            } else {
                "mm"
            };
            proof {
                reveal_strlit("px");
                reveal_strlit("dp");
                reveal_strlit("sp");
                reveal_strlit("pt");
                reveal_strlit("in");
                reveal_strlit("mm");
                assert(unit@ =~= unit_name(unit_idx as nat));
            }
            s.append(unit);
            assert(s@ == dimension_text(data as nat));
            Ok(Value::Dimension(s))
        } else if value_type == TOKEN_TYPE_FRACTION {
            let mut s = String::new();
            push_fraction(&mut s, data);
            assert(s@ =~= fraction_text(data as nat));
            Ok(Value::Fraction(s))
        } else if value_type == TOKEN_TYPE_INTEGER {
            Ok(Value::Integer(data as u64))
        } else if value_type == TOKEN_TYPE_FLAGS {
            Ok(Value::Flags(data as u64))
        } else if value_type == TOKEN_TYPE_FLOAT {
            Ok(Value::Float(data))
        } else if value_type == TOKEN_TYPE_BOOLEAN {
            let b = data != 0;
            Ok(Value::Boolean(b))
        } else if value_type == TOKEN_TYPE_COLOR {
            let s = prefixed_hex("#", data);
            proof { reveal_strlit("#"); }
            assert(s@ == color_text(data as nat));
            Ok(Value::Color(s))
        } else if value_type == TOKEN_TYPE_COLOR2 {
            let s = prefixed_hex("#", data);
            proof { reveal_strlit("#"); }
            assert(s@ == color_text(data as nat));
            Ok(Value::Color2(s))
        } else {
            Ok(Value::Unknown)
        }
    }
}

impl Value {
    /// The text of a value, as the rendered document shows it.
    pub open spec fn text(&self) -> Seq<char> {
        match self {
            Value::String(s) => s@,
            Value::Dimension(s) => s@,
            Value::Fraction(s) => s@,
            Value::Float(d) => decimal(*d as nat),
            Value::Integer(i) => decimal(*i as nat),
            Value::Flags(i) => decimal(*i as nat),
            Value::Boolean(b) => if *b {
                seq!['t', 'r', 'u', 'e']
            } else {
                seq!['f', 'a', 'l', 's', 'e']
            },
            Value::Color(s) => s@,
            Value::Color2(s) => s@,
            Value::ReferenceId(s) => s@,
            Value::AttributeReferenceId(s) => s@,
            Value::Unknown => seq!['U', 'n', 'k', 'n', 'o', 'w', 'n'],
        }
    }

    /// The text of the value. A float is written as the integer it was
    /// widened from, which is how a whole-valued float prints.
    pub fn to_string(&self) -> (r: String)
        ensures
            r@ == self.text(),
    {
        match self {
            Value::String(s) => {
                let r: &String = s;
                r.clone()
            },
            Value::Dimension(s) => s.clone(),
            Value::Fraction(s) => s.clone(),
            Value::Float(d) => decimal_string(*d as u64),
            Value::Integer(i) => decimal_string(*i),
            Value::Flags(i) => decimal_string(*i),
            Value::Boolean(b) => {
                if *b {
                    proof { reveal_strlit("true"); }
                    "true".to_string()
                } else {
                    proof { reveal_strlit("false"); }
                    "false".to_string()
                }
            },
            Value::Color(s) => s.clone(),
            Value::Color2(s) => s.clone(),
            Value::ReferenceId(s) => s.clone(),
            Value::AttributeReferenceId(s) => s.clone(),
            Value::Unknown => {
                proof { reveal_strlit("Unknown"); }
                "Unknown".to_string()
            },
        }
    }
}

/// The text of an optional shared string.
pub open spec fn option_text(o: Option<Rc<String>>) -> Option<Seq<char>> {
    match o {
        Some(s) => Some(s@),
        None => None,
    }
}

/// A resolved attribute: its name, its namespace and prefix when it has
/// them, and its value.
pub struct Attribute {
    name: Rc<String>,
    namespace: Option<Rc<String>>,
    prefix: Option<Rc<String>>,
    value: Value,
}

impl Attribute {
    pub closed spec fn spec_name(&self) -> Seq<char> {
        self.name@
    }

    pub closed spec fn spec_namespace(&self) -> Option<Seq<char>> {
        option_text(self.namespace)
    }

    pub closed spec fn spec_prefix(&self) -> Option<Seq<char>> {
        option_text(self.prefix)
    }

    pub closed spec fn spec_value(&self) -> Value {
        self.value
    }

    pub fn new(
        name: Rc<String>,
        value: Value,
        namespace: Option<Rc<String>>,
        prefix: Option<Rc<String>>,
    ) -> (r: Self)
        ensures
            r.spec_name() == name@,
            r.spec_value() == value,
            r.spec_namespace() == option_text(namespace),
            r.spec_prefix() == option_text(prefix),
    {
        Attribute { name, namespace, prefix, value }
    }

    pub fn get_name(&self) -> (r: Rc<String>)
        ensures
            r@ == self.spec_name(),
    {
        self.name.clone()
    }

    /// The text of the attribute's value.
    pub fn get_value(&self) -> (r: String)
        ensures
            r@ == self.spec_value().text(),
    {
        self.value.to_string()
    }

    pub fn get_prefix(&self) -> (r: Option<Rc<String>>)
        ensures
            option_text(r) == self.spec_prefix(),
    {
        match &self.prefix {
            Some(p) => Some(p.clone()),
            None => None,
        }
    }
}

/// A resolved value is owed on every type code and datum but two: a string
/// index past the end of the pool, and a dimension whose unit index is six
/// or more. The first of these fails with `StringIndexOutOfBounds`.
pub proof fn lemma_resolve_total(
    value_type: u32,
    data: u32,
    strings: Seq<Seq<char>>,
    r: Result<Value, Error>,
)
    requires
        resolves_to(value_type, data, strings, r),
    ensures
        (value_type == TOKEN_TYPE_STRING && data >= strings.len()) ==> r == Err::<Value, Error>(
            Error::StringIndexOutOfBounds,
        ),
        !(value_type == TOKEN_TYPE_STRING && data >= strings.len()) && !(value_type
            == TOKEN_TYPE_DIMENSION && data % 256 >= 6) ==> r is Ok,
{
}

/// Namespace bindings of a document: prefix and URI, each prefix once.
pub type Namespaces = Vec<(Rc<String>, Rc<String>)>;

/// The size that a document's outer chunk declares.
pub struct Header {
    pub size: u32,
}

/// The header fields of a string pool chunk.
pub struct HeaderStringTable {
    pub chunk: u32,
    pub string_amount: u32,
    pub style_amount: u32,
    pub flags: u32,
    pub string_offset: u32,
    pub style_offset: u32,
}

/// The header of a resource id map chunk.
pub struct HeaderResourceTable {
    pub chunk: u32,
}

/// The resource ids of a resource id map, in order.
pub struct ResourceTable {
    pub resources: Vec<u32>,
}

/// The ids that a resource id map body holds: one per four bytes.
pub open spec fn ids_of(body: Seq<u8>) -> Seq<u32> {
    Seq::new(body.len() / 4, |i: int| u32_at(body, 4 * i) as u32)
}

/// The body of a resource id map of `ids`.
pub open spec fn ids_body(ids: Seq<u32>) -> Seq<u8>
    decreases ids.len(),
{
    if ids.len() == 0 {
        Seq::empty()
    } else {
        ids_body(ids.drop_last()) + le32(ids.last() as nat)
    }
}

/// The chunk of a resource id map of `ids`.
pub open spec fn resource_map_chunk(ids: Seq<u32>) -> ChunkView {
    ChunkView { token: TOKEN_RESOURCE_MAP, header_size: BASE_HEADER_SIZE, extra: Seq::empty(), body: ids_body(ids) }
}

/// What reading a resource id map at the start of `b` gives.
pub open spec fn resource_map_decoded(b: Seq<u8>) -> Result<Seq<u32>, Error> {
    match decoded(b) {
        Err(e) => Err(e),
        Ok(c) => if c.token != TOKEN_RESOURCE_MAP || c.header_size != BASE_HEADER_SIZE || c.body.len()
            % 4 != 0 {
            Err(Error::MalformedHeader)
        } else {
            Ok(ids_of(c.body))
        },
    }
}

proof fn lemma_ids_body(ids: Seq<u32>)
    ensures
        ids_body(ids).len() == 4 * ids.len(),
        ids_of(ids_body(ids)) == ids,
    decreases ids.len(),
{
    if ids.len() > 0 {
        let dl = ids.drop_last();
        lemma_ids_body(dl);
        let b = ids_body(ids);
        crate::chunk::lemma_le32(ids.last() as nat);
        assert forall|i: int| 0 <= i < ids.len() implies u32_at(b, 4 * i) == ids[i] by {
            if i < dl.len() {
                assert(u32_at(b, 4 * i) == u32_at(ids_body(dl), 4 * i));
                assert(ids_of(ids_body(dl))[i] == dl[i]);
            } else {
                assert(u32_at(b, 4 * i) == u32_at(le32(ids.last() as nat), 0));
            }
        }
        assert(ids_of(b) =~= ids);
    } else {
        assert(ids_of(ids_body(ids)) =~= ids);
    }
}

proof fn lemma_body_of_ids(body: Seq<u8>)
    requires
        body.len() % 4 == 0,
    ensures
        ids_body(ids_of(body)) == body,
    decreases body.len(),
{
    if body.len() > 0 {
        let n = body.len() as int;
        let front = body.subrange(0, n - 4);
        lemma_body_of_ids(front);
        assert(ids_of(body).drop_last() =~= ids_of(front));
        crate::chunk::lemma_u32_at(body, n - 4);
        assert(ids_body(ids_of(body)) =~= body);
    } else {
        assert(ids_body(ids_of(body)) =~= body);
    }
}

/// Reading back a written resource id map gives its ids, and writing the
/// ids of a map that was read gives back the bytes it was read from.
pub proof fn lemma_resource_map_round_trip(ids: Seq<u32>, b: Seq<u8>)
    requires
        8 + 4 * ids.len() <= u32::MAX,
    ensures
        resource_map_decoded(chunk_bytes(resource_map_chunk(ids))) == Ok::<Seq<u32>, Error>(ids),
        resource_map_decoded(b) is Ok ==> chunk_bytes(resource_map_chunk(resource_map_decoded(b)->Ok_0))
            == b.subrange(0, crate::chunk::declared_total(b) as int),
{
    lemma_ids_body(ids);
    lemma_decode_encode(resource_map_chunk(ids));
    if resource_map_decoded(b) is Ok {
        let c = decoded(b)->Ok_0;
        lemma_encode_decode(b);
        lemma_body_of_ids(c.body);
        assert(c.extra =~= Seq::<u8>::empty());
        assert(resource_map_chunk(ids_of(c.body)) == c);
    }
}

impl ResourceTable {
    /// Reads the resource id map at `pos`. Fails with the chunk errors of
    /// `RawChunk::decode`, and with `MalformedHeader` where the chunk is
    /// not a resource id map, has extra header bytes, or its body is not
    /// whole ids.
    pub fn decode(bytes: &[u8], pos: usize) -> (r: Result<ResourceTable, Error>)
        requires
            pos <= bytes@.len(),
        ensures
            match resource_map_decoded(bytes@.skip(pos as int)) {
                Ok(ids) => r matches Ok(t) && t.resources@ == ids,
                Err(e) => r matches Err(e2) && e2 == e,
            },
    {
        let c = match RawChunk::decode_expecting(bytes, pos, TOKEN_RESOURCE_MAP) {
            Ok(c) => c,
            Err(e) => return Err(e),
        };
        let body = c.body.as_slice();
        if c.header_size != BASE_HEADER_SIZE || body.len() % 4 != 0 {
            return Err(Error::MalformedHeader);
        }
        let blen = body.len();
        let n = blen / 4;
        let mut resources: Vec<u32> = Vec::new();
        let mut i: usize = 0;
        while i < n
            invariant
                blen == body@.len(),
                n == body@.len() / 4,
                i <= n,
                resources@.len() == i,
                forall|j: int| 0 <= j < i ==> resources@[j] == u32_at(body@, 4 * j),
            decreases n - i,
        {
            assert(4 * i + 4 <= body@.len()) by (nonlinear_arith)
                requires i < n, n == body@.len() / 4;
            resources.push(read_u32(body, 4 * i));
            i += 1;
        }
        let t = ResourceTable { resources };
        proof {
            assert(t.resources@ =~= ids_of(c.body@));
        }
        Ok(t)
    }

    /// Writes the resource id map: an eight-byte header and each id in
    /// four little-endian bytes. Fails with `MalformedHeader` where the
    /// chunk would pass 32 bits of size.
    pub fn to_vec(&self) -> (r: Result<Vec<u8>, Error>)
        ensures
            match r {
                Ok(b) => 8 + 4 * self.resources@.len() <= u32::MAX
                    && b@ == chunk_bytes(resource_map_chunk(self.resources@)),
                Err(e) => 8 + 4 * self.resources@.len() > u32::MAX && e == Error::MalformedHeader,
            },
    {
        let mut body: Vec<u8> = Vec::new();
        let mut i: usize = 0;
        while i < self.resources.len()
            invariant
                i <= self.resources@.len(),
                body@ == ids_body(self.resources@.take(i as int)),
            decreases self.resources@.len() - i,
        {
            push_u32(&mut body, self.resources[i]);
            i += 1;
            proof {
                assert(self.resources@.take(i as int).drop_last() =~= self.resources@.take(i - 1));
            }
        }
        proof {
            assert(self.resources@.take(i as int) =~= self.resources@);
            lemma_ids_body(self.resources@);
        }
        let extra: Vec<u8> = Vec::new();
        let r = encode_chunk(TOKEN_RESOURCE_MAP, BASE_HEADER_SIZE, extra.as_slice(), body.as_slice());
        proof {
            assert(extra@ =~= Seq::<u8>::empty());
        }
        r
    }
}

/// The header of a namespace chunk.
pub struct HeaderNamespace {
    pub chunk: u32,
}

/// A decoded binary XML document.
pub struct Document {
    pub header: Header,
    pub header_string_table: HeaderStringTable,
    pub header_resource_table: HeaderResourceTable,
    pub header_namespace: HeaderNamespace,
    pub string_table: StringTable,
    pub resource_table: ResourceTable,
    pub resources: Namespaces,
    pub root_element: Element,
}

/// A package of a resource table, with its type-name and key-name pools
/// once they have been read.
pub struct Package {
    pub name: String,
    pub type_string_table: Option<StringTable>,
    pub key_string_table: Option<StringTable>,
}

impl Package {
    /// A package with neither pool read yet.
    pub fn new(name: String) -> (r: Self)
        ensures
            r.name == name,
            r.type_string_table is None,
            r.key_string_table is None,
    {
        Package { name, type_string_table: None, key_string_table: None }
    }
}

} // verus!
