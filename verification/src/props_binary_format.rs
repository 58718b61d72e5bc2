//! Binary encoding of node properties.
//!
//! Layout: an eight-byte header (property count, total size, both
//! little-endian `u32`), then one entry per property: name length (`u16`),
//! name bytes (UTF-8), property type code (one byte), value size (`u32`),
//! value bytes.

use vstd::prelude::*;

verus! {

use vstd::bytes::{
    spec_u16_to_le_bytes,
    spec_u16_from_le_bytes,
    spec_u32_to_le_bytes,
    spec_u32_from_le_bytes,
    u16_to_le_bytes,
    u16_from_le_bytes,
    u32_to_le_bytes,
    u32_from_le_bytes,
};
use vstd::slice::{slice_subrange, slice_to_vec};
use vstd::utf8::{valid_utf8, decode_utf8, encode_utf8};
use vstd::string::StringSliceAdditionalSpecFns;

/// Property type identifiers for binary encoding.
#[derive(Debug, Clone, Copy, PartialEq, Eq, Structural)]
pub enum PropType {
    Float32,
    Float64,
    Int32,
    Uint32,
    Int16,
    Uint16,
    Int8,
    Uint8,
    Bool,
    String,
    Array,
}

impl PropType {
    /// The one-byte code a property type is written as.
    pub open spec fn spec_code(self) -> u8 {
        match self {
            PropType::Float32 => 0,
            PropType::Float64 => 1,
            PropType::Int32 => 2,
            PropType::Uint32 => 3,
            PropType::Int16 => 4,
            PropType::Uint16 => 5,
            PropType::Int8 => 6,
            PropType::Uint8 => 7,
            PropType::Bool => 8,
            PropType::String => 9,
            PropType::Array => 10,
        }
    }

    /// The property type a byte decodes to, if any.
    pub open spec fn spec_from_u8(value: u8) -> Option<PropType> {
        if value == 0 {
            Some(PropType::Float32)
        } else if value == 1 {
            Some(PropType::Float64)
        } else if value == 2 {
            Some(PropType::Int32)
        } else if value == 3 {
            Some(PropType::Uint32)
        } else if value == 4 {
            Some(PropType::Int16)
        } else if value == 5 {
            Some(PropType::Uint16)
        } else if value == 6 {
            Some(PropType::Int8)
        } else if value == 7 {
            Some(PropType::Uint8)
        } else if value == 8 {
            Some(PropType::Bool)
        } else if value == 9 {
            Some(PropType::String)
        } else if value == 10 {
            Some(PropType::Array)
        } else {
            None
        }
    }

    /// Decodes a type code.
    pub fn from_u8(value: u8) -> (r: Option<Self>)
        ensures
            r == Self::spec_from_u8(value),
    {
        match value {
            0 => Some(PropType::Float32),
            1 => Some(PropType::Float64),
            2 => Some(PropType::Int32),
            3 => Some(PropType::Uint32),
            4 => Some(PropType::Int16),
            5 => Some(PropType::Uint16),
            6 => Some(PropType::Int8),
            7 => Some(PropType::Uint8),
            8 => Some(PropType::Bool),
            9 => Some(PropType::String),
            10 => Some(PropType::Array),
            _ => None,
        }
    }

    /// The one-byte code this type is written as.
    pub fn code(&self) -> (r: u8)
        ensures
            r == self.spec_code(),
    {
        match self {
            PropType::Float32 => 0,
            PropType::Float64 => 1,
            PropType::Int32 => 2,
            PropType::Uint32 => 3,
            PropType::Int16 => 4,
            PropType::Uint16 => 5,
            PropType::Int8 => 6,
            PropType::Uint8 => 7,
            PropType::Bool => 8,
            PropType::String => 9,
            PropType::Array => 10,
        }
    }

    /// Fixed byte width of a value of this type; zero for the
    /// variable-length types (strings and arrays).
    pub open spec fn spec_byte_size(self) -> usize {
        match self {
            PropType::Float32 => 4,
            PropType::Float64 => 8,
            PropType::Int32 => 4,
            PropType::Uint32 => 4,
            PropType::Int16 => 2,
            PropType::Uint16 => 2,
            PropType::Int8 => 1,
            PropType::Uint8 => 1,
            PropType::Bool => 1,
            PropType::String => 0,
            PropType::Array => 0,
        }
    }

    /// Fixed byte width of a value of this type.
    pub fn byte_size(&self) -> (r: usize)
        ensures
            r == self.spec_byte_size(),
    {
        match self {
            PropType::Float32 => 4,
            PropType::Float64 => 8,
            PropType::Int32 => 4,
            PropType::Uint32 => 4,
            PropType::Int16 => 2,
            PropType::Uint16 => 2,
            PropType::Int8 => 1,
            PropType::Uint8 => 1,
            PropType::Bool => 1,
            PropType::String => 0,
            PropType::Array => 0,
        }
    }

    /// Law: decoding a type's code gives the type back, for every type.
    pub proof fn lemma_code_roundtrip(self)
        ensures
            Self::spec_from_u8(self.spec_code()) == Some(self),
    {
    }
}

/// Relies on `String::from_utf8`: returns the string of exactly these
/// bytes when they are valid UTF-8, and nothing otherwise.
#[verifier::external_body]
fn string_from_utf8(bytes: Vec<u8>) -> (r: Option<String>)
    ensures
        r is Some <==> valid_utf8(bytes@),
        r is Some ==> r->0@ == decode_utf8(bytes@),
{
    String::from_utf8(bytes).ok()
}

/// The bytes one property entry is written as.
pub open spec fn spec_prop_entry(name: Seq<char>, t: PropType, value: Seq<u8>) -> Seq<u8> {
    spec_u16_to_le_bytes(encode_utf8(name).len() as u16) + encode_utf8(name) + seq![t.spec_code()]
        + spec_u32_to_le_bytes(value.len() as u32) + value
}

/// Binary format encoder for node properties.
pub struct PropsBinaryFormat {
    buffer: Vec<u8>,
    cursor: usize,
}

impl PropsBinaryFormat {
    /// The bytes written so far.
    pub closed spec fn bytes(self) -> Seq<u8> {
        self.buffer@
    }

    /// Create a new binary format encoder.
    pub fn new() -> (r: Self)
        ensures
            r.bytes() =~= Seq::<u8>::empty(),
    {
        Self { buffer: Vec::with_capacity(1024), cursor: 0 }
    }

    /// Create from an existing buffer.
    pub fn from_buffer(buffer: Vec<u8>) -> (r: Self)
        ensures
            r.bytes() == buffer@,
    {
        Self { buffer, cursor: 0 }
    }

    /// Start over with a header for `property_count` properties; the
    /// total-size field is left zero until `finalize`.
    pub fn init_header(&mut self, property_count: u32)
        ensures
            final(self).bytes() =~= spec_u32_to_le_bytes(property_count) + seq![
                0u8,
                0u8,
                0u8,
                0u8,
            ],
    {
        self.buffer.clear();
        self.cursor = 0;
        let mut cb = u32_to_le_bytes(property_count);
        self.buffer.append(&mut cb);
        self.buffer.push(0);
        self.buffer.push(0);
        self.buffer.push(0);
        self.buffer.push(0);
        self.cursor = 8;
    }

    /// Append one property entry: name length, name bytes, type code,
    /// value size, value bytes. The name must fit the `u16` length field
    /// and the value the `u32` one.
    pub fn write_property(&mut self, name: &str, prop_type: PropType, value: &[u8])
        requires
            name.spec_bytes().len() <= 0xFFFF,
            value@.len() <= 0xFFFF_FFFF,
        ensures
            final(self).bytes() == old(self).bytes() + spec_prop_entry(name@, prop_type, value@),
    {
        let name_bytes = name.as_bytes();
        let name_len = name_bytes.len() as u16;
        let mut lb = u16_to_le_bytes(name_len);
        self.buffer.append(&mut lb);
        self.buffer.extend_from_slice(name_bytes);
        self.buffer.push(prop_type.code());
        let value_size = value.len() as u32;
        let mut sb = u32_to_le_bytes(value_size);
        self.buffer.append(&mut sb);
        self.buffer.extend_from_slice(value);
        self.cursor = self.buffer.len();
        proof {
            assert(self.buffer@ =~= old(self).bytes() + spec_prop_entry(name@, prop_type, value@));
        }
    }

    /// Append an Int32 property (little-endian two's complement).
    pub fn write_int32(&mut self, name: &str, value: i32)
        requires
            name.spec_bytes().len() <= 0xFFFF,
        ensures
            final(self).bytes() == old(self).bytes() + spec_prop_entry(
                name@,
                PropType::Int32,
                spec_u32_to_le_bytes(value as u32),
            ),
    {
        let bytes = u32_to_le_bytes(value as u32);
        self.write_property(name, PropType::Int32, bytes.as_slice());
    }

    /// Append a Uint32 property.
    pub fn write_uint32(&mut self, name: &str, value: u32)
        requires
            name.spec_bytes().len() <= 0xFFFF,
        ensures
            final(self).bytes() == old(self).bytes() + spec_prop_entry(
                name@,
                PropType::Uint32,
                spec_u32_to_le_bytes(value),
            ),
    {
        let bytes = u32_to_le_bytes(value);
        self.write_property(name, PropType::Uint32, bytes.as_slice());
    }

    /// Append a Bool property: one byte, one for true.
    pub fn write_bool(&mut self, name: &str, value: bool)
        requires
            name.spec_bytes().len() <= 0xFFFF,
        ensures
            final(self).bytes() == old(self).bytes() + spec_prop_entry(
                name@,
                PropType::Bool,
                seq![if value { 1u8 } else { 0u8 }],
            ),
    {
        let byte: u8 = if value {
            1
        } else {
            0
        };
        let mut bytes: Vec<u8> = Vec::new();
        bytes.push(byte);
        proof {
            assert(bytes@ =~= seq![if value { 1u8 } else { 0u8 }]);
        }
        self.write_property(name, PropType::Bool, bytes.as_slice());
    }

    /// Append a String property: the value's UTF-8 bytes.
    pub fn write_string(&mut self, name: &str, value: &str)
        requires
            name.spec_bytes().len() <= 0xFFFF,
            value.spec_bytes().len() <= 0xFFFF_FFFF,
        ensures
            final(self).bytes() == old(self).bytes() + spec_prop_entry(
                name@,
                PropType::String,
                encode_utf8(value@),
            ),
    {
        self.write_property(name, PropType::String, value.as_bytes());
    }

    /// Fill the header's total-size field with the final length and hand
    /// the buffer over. Requires an initialized header (at least the
    /// eight header bytes) and a total that fits the `u32` field.
    pub fn finalize(self) -> (r: Vec<u8>)
        requires
            8 <= self.bytes().len() <= 0xFFFF_FFFF,
        ensures
            r@ =~= self.bytes().take(4) + spec_u32_to_le_bytes(self.bytes().len() as u32)
                + self.bytes().skip(8),
    {
        let mut buffer = self.buffer;
        let total_size = buffer.len() as u32;
        let tb = u32_to_le_bytes(total_size);
        buffer[4] = tb[0];
        buffer[5] = tb[1];
        buffer[6] = tb[2];
        buffer[7] = tb[3];
        proof {
            vstd::bytes::lemma_auto_spec_u32_to_from_le_bytes();
        }
        buffer
    }

    /// The buffer written so far.
    pub fn buffer(&self) -> (r: &[u8])
        ensures
            r@ == self.bytes(),
    {
        self.buffer.as_slice()
    }

    /// The buffer's length in bytes.
    pub fn len(&self) -> (r: usize)
        ensures
            r == self.bytes().len(),
    {
        self.buffer.len()
    }
}

/// One parse step over the entry layout: what `read_property` returns
/// and where it leaves the cursor, for any buffer and start position.
/// `None` with the cursor after the last fully validated field mirrors
/// each early exit of the reader.
pub open spec fn spec_read_prop(b: Seq<u8>, c: int) -> (Option<(Seq<char>, PropType, Seq<u8>)>, int) {
    if c >= b.len() {
        (None, c)
    } else if c + 2 > b.len() {
        (None, c)
    } else {
        let nl = spec_u16_from_le_bytes(b.subrange(c, c + 2)) as int;
        let c2 = c + 2;
        if c2 + nl > b.len() {
            (None, c2)
        } else {
            let nb = b.subrange(c2, c2 + nl);
            if !valid_utf8(nb) {
                (None, c2)
            } else {
                let c3 = c2 + nl;
                if c3 >= b.len() {
                    (None, c3)
                } else {
                    match PropType::spec_from_u8(b[c3]) {
                        None => (None, c3),
                        Some(t) => {
                            let c4 = c3 + 1;
                            if c4 + 4 > b.len() {
                                (None, c4)
                            } else {
                                let vs = spec_u32_from_le_bytes(b.subrange(c4, c4 + 4)) as int;
                                let c5 = c4 + 4;
                                if c5 + vs > b.len() {
                                    (None, c5)
                                } else {
                                    (Some((decode_utf8(nb), t, b.subrange(c5, c5 + vs))), c5 + vs)
                                }
                            }
                        },
                    }
                }
            }
        }
    }
}

/// The message `read_property` reports for each early exit of
/// [`spec_read_prop`], branch for branch.
pub open spec fn spec_read_prop_err(b: Seq<u8>, c: int) -> Seq<char> {
    if c >= b.len() {
        "End of buffer"@
    } else if c + 2 > b.len() {
        "Invalid name length"@
    } else {
        let nl = spec_u16_from_le_bytes(b.subrange(c, c + 2)) as int;
        let c2 = c + 2;
        if c2 + nl > b.len() {
            "Invalid name bytes"@
        } else {
            let nb = b.subrange(c2, c2 + nl);
            if !valid_utf8(nb) {
                "Invalid UTF-8 in name"@
            } else {
                let c3 = c2 + nl;
                if c3 >= b.len() {
                    "Invalid property type"@
                } else {
                    match PropType::spec_from_u8(b[c3]) {
                        None => "Unknown property type"@,
                        Some(t) => {
                            let c4 = c3 + 1;
                            if c4 + 4 > b.len() {
                                "Invalid value size"@
                            } else {
                                let vs = spec_u32_from_le_bytes(b.subrange(c4, c4 + 4)) as int;
                                let c5 = c4 + 4;
                                if c5 + vs > b.len() {
                                    "Invalid value bytes"@
                                } else {
                                    Seq::empty()
                                }
                            }
                        },
                    }
                }
            }
        }
    }
}

/// Binary format decoder for node properties.
pub struct PropsBinaryDecoder {
    buffer: Vec<u8>,
    cursor: usize,
    property_count: u32,
    total_size: u32,
}

impl PropsBinaryDecoder {
    /// The bytes being decoded.
    pub closed spec fn bytes(self) -> Seq<u8> {
        self.buffer@
    }

    /// Read position within the buffer.
    pub closed spec fn spec_cursor(self) -> int {
        self.cursor as int
    }

    /// Property count read from the header.
    pub closed spec fn spec_property_count(self) -> u32 {
        self.property_count
    }

    /// Total size read from the header.
    pub closed spec fn spec_total_size(self) -> u32 {
        self.total_size
    }

    /// Create a decoder over a buffer: fails exactly when the buffer
    /// cannot hold the eight-byte header, and otherwise reads the
    /// property count and total size from it and stands at the first
    /// entry.
    pub fn new(buffer: Vec<u8>) -> (r: Result<Self, &'static str>)
        ensures
            buffer@.len() < 8 ==> match r {
                Ok(_) => false,
                Err(m) => m@ == "Buffer too small for header"@,
            },
            buffer@.len() >= 8 ==> match r {
                Ok(d) => {
                    &&& d.bytes() == buffer@
                    &&& d.spec_cursor() == 8
                    &&& d.spec_property_count() == spec_u32_from_le_bytes(buffer@.subrange(0, 4))
                    &&& d.spec_total_size() == spec_u32_from_le_bytes(buffer@.subrange(4, 8))
                },
                Err(_) => false,
            },
    {
        if buffer.len() < 8 {
            return Err("Buffer too small for header");
        }
        let property_count = u32_from_le_bytes(slice_subrange(buffer.as_slice(), 0, 4));
        let total_size = u32_from_le_bytes(slice_subrange(buffer.as_slice(), 4, 8));
        Ok(Self { buffer, cursor: 8, property_count, total_size })
    }

    /// Property count from the header.
    pub fn property_count(&self) -> (r: u32)
        ensures
            r == self.spec_property_count(),
    {
        self.property_count
    }

    /// Read the next property entry at the cursor: returns the name,
    /// type and value bytes exactly as [`spec_read_prop`] gives them,
    /// and leaves the cursor where it says — after the entry on success,
    /// after the last fully validated field on failure.
    pub fn read_property(&mut self) -> (r: Result<(String, PropType, Vec<u8>), &'static str>)
        ensures
            final(self).bytes() == old(self).bytes(),
            final(self).spec_property_count() == old(self).spec_property_count(),
            final(self).spec_total_size() == old(self).spec_total_size(),
            ({
                let (res, after) = spec_read_prop(old(self).bytes(), old(self).spec_cursor());
                &&& final(self).spec_cursor() == after
                &&& match res {
                    Some((nm, t, v)) => match r {
                        Ok(out) => out.0@ == nm && out.1 == t && out.2@ == v,
                        Err(_) => false,
                    },
                    None => match r {
                        Ok(_) => false,
                        Err(m) => m@ == spec_read_prop_err(
                            old(self).bytes(),
                            old(self).spec_cursor(),
                        ),
                    },
                }
            }),
    {
        let blen = self.buffer.len();
        if self.cursor >= blen {
            return Err("End of buffer");
        }
        if blen - self.cursor < 2 {
            return Err("Invalid name length");
        }
        let name_len = u16_from_le_bytes(
            slice_subrange(self.buffer.as_slice(), self.cursor, self.cursor + 2),
        ) as usize;
        self.cursor = self.cursor + 2;

        if blen - self.cursor < name_len {
            return Err("Invalid name bytes");
        }
        let name_bytes = slice_to_vec(
            slice_subrange(self.buffer.as_slice(), self.cursor, self.cursor + name_len),
        );
        let name = match string_from_utf8(name_bytes) {
            Some(n) => n,
            None => {
                return Err("Invalid UTF-8 in name");
            },
        };
        self.cursor = self.cursor + name_len;

        if self.cursor >= blen {
            return Err("Invalid property type");
        }
        let prop_type = match PropType::from_u8(self.buffer[self.cursor]) {
            Some(t) => t,
            None => {
                return Err("Unknown property type");
            },
        };
        self.cursor = self.cursor + 1;

        if blen - self.cursor < 4 {
            return Err("Invalid value size");
        }
        let value_size = u32_from_le_bytes(
            slice_subrange(self.buffer.as_slice(), self.cursor, self.cursor + 4),
        ) as usize;
        self.cursor = self.cursor + 4;

        if blen - self.cursor < value_size {
            return Err("Invalid value bytes");
        }
        let value = slice_to_vec(
            slice_subrange(self.buffer.as_slice(), self.cursor, self.cursor + value_size),
        );
        self.cursor = self.cursor + value_size;

        Ok((name, prop_type, value))
    }

    /// Read an Int32 value from an entry's value bytes: exactly four
    /// bytes, little-endian two's complement.
    pub fn read_int32(bytes: &[u8]) -> (r: Result<i32, &'static str>)
        ensures
            bytes@.len() == 4 ==> r == Ok::<i32, &'static str>(
                spec_u32_from_le_bytes(bytes@) as i32,
            ),
            bytes@.len() != 4 ==> match r {
                Ok(_) => false,
                Err(m) => m@ == "Invalid Int32 size"@,
            },
    {
        if bytes.len() != 4 {
            return Err("Invalid Int32 size");
        }
        Ok(u32_from_le_bytes(bytes) as i32)
    }

    /// Read a Uint32 value from an entry's value bytes.
    pub fn read_uint32(bytes: &[u8]) -> (r: Result<u32, &'static str>)
        ensures
            bytes@.len() == 4 ==> r == Ok::<u32, &'static str>(spec_u32_from_le_bytes(bytes@)),
            bytes@.len() != 4 ==> match r {
                Ok(_) => false,
                Err(m) => m@ == "Invalid Uint32 size"@,
            },
    {
        if bytes.len() != 4 {
            return Err("Invalid Uint32 size");
        }
        Ok(u32_from_le_bytes(bytes))
    }

    /// Read a Bool value from an entry's value bytes: one byte, any
    /// non-zero meaning true.
    pub fn read_bool(bytes: &[u8]) -> (r: Result<bool, &'static str>)
        ensures
            bytes@.len() == 1 ==> r == Ok::<bool, &'static str>(bytes@[0] != 0),
            bytes@.len() != 1 ==> match r {
                Ok(_) => false,
                Err(m) => m@ == "Invalid Bool size"@,
            },
    {
        if bytes.len() != 1 {
            return Err("Invalid Bool size");
        }
        Ok(bytes[0] != 0)
    }

    /// Read a String value from an entry's value bytes: succeeds exactly
    /// when they are valid UTF-8.
    pub fn read_string(bytes: &[u8]) -> (r: Result<String, &'static str>)
        ensures
            valid_utf8(bytes@) ==> match r {
                Ok(s) => s@ == decode_utf8(bytes@),
                Err(_) => false,
            },
            !valid_utf8(bytes@) ==> match r {
                Ok(_) => false,
                Err(m) => m@ == "Invalid UTF-8 in string"@,
            },
    {
        match string_from_utf8(slice_to_vec(bytes)) {
            Some(s) => Ok(s),
            None => Err("Invalid UTF-8 in string"),
        }
    }
}

/// Law: an entry written by the encoder reads back as written — the
/// name, the type and the value bytes survive the round trip, and the
/// cursor ends exactly past the entry.
pub proof fn lemma_prop_entry_roundtrip(
    prefix: Seq<u8>,
    name: Seq<char>,
    t: PropType,
    value: Seq<u8>,
    rest: Seq<u8>,
)
    requires
        encode_utf8(name).len() <= 0xFFFF,
        value.len() <= 0xFFFF_FFFF,
    ensures
        ({
            let b = prefix + spec_prop_entry(name, t, value) + rest;
            let c = prefix.len() as int;
            spec_read_prop(b, c) == (
                Some((name, t, value)),
                c + spec_prop_entry(name, t, value).len(),
            )
        }),
{
    broadcast use vstd::utf8::encode_utf8_valid_utf8;
    broadcast use vstd::utf8::encode_utf8_decode_utf8;

    vstd::bytes::lemma_auto_spec_u16_to_from_le_bytes();
    vstd::bytes::lemma_auto_spec_u32_to_from_le_bytes();
    let e = spec_prop_entry(name, t, value);
    let b = prefix + e + rest;
    let c = prefix.len() as int;
    let nb = encode_utf8(name);
    let nl = nb.len() as int;
    assert(b.subrange(c, c + 2) =~= spec_u16_to_le_bytes(nl as u16));
    assert(spec_u16_from_le_bytes(b.subrange(c, c + 2)) == nl);
    let c2 = c + 2;
    assert(b.subrange(c2, c2 + nl) =~= nb);
    let c3 = c2 + nl;
    assert(b[c3] == t.spec_code());
    t.lemma_code_roundtrip();
    let c4 = c3 + 1;
    assert(b.subrange(c4, c4 + 4) =~= spec_u32_to_le_bytes(value.len() as u32));
    let vs = value.len() as int;
    let c5 = c4 + 4;
    assert(b.subrange(c5, c5 + vs) =~= value);
    assert(c5 + vs == c + e.len());
}

} // verus!
