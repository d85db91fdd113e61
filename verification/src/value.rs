//! The value codec: a closed set of primitive values carried in records,
//! serialized as a one-byte type tag followed by a fixed little-endian
//! body.  Strings carry a one-byte length prefix and at most 255 bytes of
//! UTF-8.
//!
//! Floating-point values are carried as their IEEE 754 bit patterns, which
//! is exactly what the wire format stores; the boundary that produces or
//! consumes `f32`/`f64` converts with `to_bits`/`from_bits`.

use vstd::prelude::*;
use vstd::bytes::lemma_auto_spec_u16_to_from_le_bytes;
use vstd::bytes::lemma_auto_spec_u32_to_from_le_bytes;
use vstd::bytes::lemma_auto_spec_u64_to_from_le_bytes;
use vstd::bytes::spec_u16_from_le_bytes;
use vstd::bytes::spec_u16_to_le_bytes;
use vstd::bytes::spec_u32_from_le_bytes;
use vstd::bytes::spec_u32_to_le_bytes;
use vstd::bytes::spec_u64_from_le_bytes;
use vstd::bytes::spec_u64_to_le_bytes;
use vstd::slice::slice_subrange;
use vstd::slice::slice_to_vec;
use crate::error::DatabaseError;
use crate::wire::push_u16;
use crate::wire::push_u32;
use crate::wire::push_u64;
use crate::wire::read_u16;
use crate::wire::read_u32;
use crate::wire::read_u64;

verus! {

/// A primitive database value.
#[derive(Debug, Clone, PartialEq)]
pub enum Value {
    /// One unsigned byte.
    Byte(u8),
    /// A 16-bit signed integer.
    Short(i16),
    /// A 32-bit signed integer.
    Int(i32),
    /// A 64-bit signed integer.
    Long(i64),
    /// A 32-bit IEEE 754 number, carried as its bit pattern.
    Float(u32),
    /// A 64-bit IEEE 754 number, carried as its bit pattern.
    Double(u64),
    /// A truth value.
    Boolean(bool),
    /// A string of at most 255 UTF-8 bytes.
    Str(Vec<u8>),
}

impl Value {
    /// A value the codec can carry: strings hold at most 255 bytes.
    pub open spec fn wf(&self) -> bool {
        match self {
            Value::Str(s) => s@.len() <= 255,
            _ => true,
        }
    }

    /// The one-byte type tag of this value on the wire.
    pub open spec fn tag(&self) -> u8 {
        match self {
            Value::Byte(_) => 0,
            Value::Short(_) => 1,
            Value::Int(_) => 2,
            Value::Long(_) => 3,
            Value::Float(_) => 4,
            Value::Double(_) => 5,
            Value::Boolean(_) => 6,
            Value::Str(_) => 7,
        }
    }

    /// The type tag of this value.
    pub fn type_id(&self) -> (r: u8)
        ensures
            r == self.tag(),
    {
        match self {
            Value::Byte(_) => 0,
            Value::Short(_) => 1,
            Value::Int(_) => 2,
            Value::Long(_) => 3,
            Value::Float(_) => 4,
            Value::Double(_) => 5,
            Value::Boolean(_) => 6,
            Value::Str(_) => 7,
        }
    }

    /// The nominal serialized size of this value's type: exact for the
    /// fixed-width types, the 256-byte worst case for strings.
    pub fn type_size(&self) -> (r: usize)
        ensures
            r == (match self {
                Value::Byte(_) => 2int,
                Value::Short(_) => 3int,
                Value::Int(_) => 5int,
                Value::Long(_) => 9int,
                Value::Float(_) => 5int,
                Value::Double(_) => 9int,
                Value::Boolean(_) => 2int,
                Value::Str(_) => 256int,
            }),
    {
        match self {
            Value::Byte(_) => 2,
            Value::Short(_) => 3,
            Value::Int(_) => 5,
            Value::Long(_) => 9,
            Value::Float(_) => 5,
            Value::Double(_) => 9,
            Value::Boolean(_) => 2,
            Value::Str(_) => 256,
        }
    }

    /// The name of this value's type.
    pub fn kind_name(&self) -> (r: &'static str)
        ensures
            self matches Value::Byte(_) ==> r@ == "byte"@,
            self matches Value::Short(_) ==> r@ == "short"@,
            self matches Value::Int(_) ==> r@ == "int"@,
            self matches Value::Long(_) ==> r@ == "long"@,
            self matches Value::Float(_) ==> r@ == "float"@,
            self matches Value::Double(_) ==> r@ == "double"@,
            self matches Value::Boolean(_) ==> r@ == "boolean"@,
            self matches Value::Str(_) ==> r@ == "string"@,
    {
        match self {
            Value::Byte(_) => "byte",
            Value::Short(_) => "short",
            Value::Int(_) => "int",
            Value::Long(_) => "long",
            Value::Float(_) => "float",
            Value::Double(_) => "double",
            Value::Boolean(_) => "boolean",
            Value::Str(_) => "string",
        }
    }
}

/// The wire form of a value: its tag, then its little-endian body; a
/// string's body is its length byte and its bytes.
pub open spec fn value_bytes(v: Value) -> Seq<u8> {
    match v {
        Value::Byte(x) => seq![0u8, x],
        Value::Short(x) => seq![1u8] + spec_u16_to_le_bytes(x as u16),
        Value::Int(x) => seq![2u8] + spec_u32_to_le_bytes(x as u32),
        Value::Long(x) => seq![3u8] + spec_u64_to_le_bytes(x as u64),
        Value::Float(bits) => seq![4u8] + spec_u32_to_le_bytes(bits),
        Value::Double(bits) => seq![5u8] + spec_u64_to_le_bytes(bits),
        Value::Boolean(b) => seq![
            6u8,
            if b {
                1u8
            } else {
                0u8
            },
        ],
        Value::Str(s) => seq![7u8, s@.len() as u8] + s@,
    }
}

/// A buffer that opens with a complete value: a known tag whose whole
/// body is present.
pub open spec fn value_parse_some(bytes: Seq<u8>) -> bool {
    &&& bytes.len() >= 1
    &&& match bytes[0] {
        0 => bytes.len() >= 2,
        1 => bytes.len() >= 3,
        2 => bytes.len() >= 5,
        3 => bytes.len() >= 9,
        4 => bytes.len() >= 5,
        5 => bytes.len() >= 9,
        6 => bytes.len() >= 2,
        7 => bytes.len() >= 2 && bytes.len() >= 2 + bytes[1],
        _ => false,
    }
}

/// Field-for-field meaning of a decoded value: `v` is the value read from
/// the head of `bytes` and `n` is how many bytes it took.
pub open spec fn value_parse_ok(bytes: Seq<u8>, v: Value, n: int) -> bool {
    &&& bytes.len() >= 1
    &&& match bytes[0] {
        0 => v == Value::Byte(bytes[1]) && n == 2,
        1 => v == Value::Short(spec_u16_from_le_bytes(bytes.subrange(1, 3)) as i16) && n == 3,
        2 => v == Value::Int(spec_u32_from_le_bytes(bytes.subrange(1, 5)) as i32) && n == 5,
        3 => v == Value::Long(spec_u64_from_le_bytes(bytes.subrange(1, 9)) as i64) && n == 9,
        4 => v == Value::Float(spec_u32_from_le_bytes(bytes.subrange(1, 5))) && n == 5,
        5 => v == Value::Double(spec_u64_from_le_bytes(bytes.subrange(1, 9))) && n == 9,
        6 => v == Value::Boolean(bytes[1] != 0) && n == 2,
        7 => (v matches Value::Str(s) && s@ == bytes.subrange(2, 2 + bytes[1])) && n == 2
            + bytes[1],
        _ => false,
    }
}

impl Value {
    /// Serializes the value to its wire form.
    pub fn serialize(&self) -> (r: Vec<u8>)
        requires
            self.wf(),
        ensures
            r@ == value_bytes(*self),
    {
        let mut out: Vec<u8> = Vec::new();
        match self {
            Value::Byte(x) => {
                out.push(0);
                out.push(*x);
                proof {
                    assert(out@ =~= value_bytes(*self));
                }
            },
            Value::Short(x) => {
                out.push(1);
                push_u16(&mut out, #[verifier::truncate] (*x as u16));
                proof {
                    assert(out@ =~= value_bytes(*self));
                }
            },
            Value::Int(x) => {
                out.push(2);
                push_u32(&mut out, #[verifier::truncate] (*x as u32));
                proof {
                    assert(out@ =~= value_bytes(*self));
                }
            },
            Value::Long(x) => {
                out.push(3);
                push_u64(&mut out, #[verifier::truncate] (*x as u64));
                proof {
                    assert(out@ =~= value_bytes(*self));
                }
            },
            Value::Float(bits) => {
                out.push(4);
                push_u32(&mut out, *bits);
                proof {
                    assert(out@ =~= value_bytes(*self));
                }
            },
            Value::Double(bits) => {
                out.push(5);
                push_u64(&mut out, *bits);
                proof {
                    assert(out@ =~= value_bytes(*self));
                }
            },
            Value::Boolean(b) => {
                out.push(6);
                out.push(if *b {
                    1
                } else {
                    0
                });
                proof {
                    assert(out@ =~= value_bytes(*self));
                }
            },
            Value::Str(s) => {
                out.push(7);
                out.push(s.len() as u8);
                let mut j: usize = 0;
                while j < s.len()
                    invariant
                        j <= s@.len() <= 255,
                        self matches Value::Str(s2) && s2@ == s@,
                        out@ == seq![7u8, s@.len() as u8] + s@.subrange(0, j as int),
                    decreases s@.len() - j,
                {
                    out.push(s[j]);
                    j = j + 1;
                    proof {
                        assert(out@ =~= seq![7u8, s@.len() as u8] + s@.subrange(0, j as int));
                    }
                }
                proof {
                    assert(s@.subrange(0, s@.len() as int) =~= s@);
                }
            },
        }
        out
    }

    /// Decodes the value at the head of `bytes`, returning it and the
    /// number of bytes it occupied.  An empty buffer, an unknown tag, or a
    /// body cut short is invalid data.  A string body is taken as raw
    /// bytes: whether they are valid UTF-8 is checked by the boundary
    /// that turns them into text, not here.
    pub fn deserialize(bytes: &[u8]) -> (r: Result<(Value, usize), DatabaseError>)
        ensures
            value_parse_some(bytes@) ==> (r matches Ok((v, n)) && value_parse_ok(
                bytes@,
                v,
                n as int,
            ) && 0 < n <= bytes@.len()),
            !value_parse_some(bytes@) ==> r == Err::<(Value, usize), DatabaseError>(
                DatabaseError::InvalidData,
            ),
    {
        let blen: usize = bytes.len();
        if blen == 0 {
            return Err(DatabaseError::InvalidData);
        }
        match bytes[0] {
            0 => {
                if blen < 2 {
                    return Err(DatabaseError::InvalidData);
                }
                Ok((Value::Byte(bytes[1]), 2))
            },
            1 => {
                if blen < 3 {
                    return Err(DatabaseError::InvalidData);
                }
                let raw: u16 = read_u16(bytes, 1);
                Ok((Value::Short(#[verifier::truncate] (raw as i16)), 3))
            },
            2 => {
                if blen < 5 {
                    return Err(DatabaseError::InvalidData);
                }
                let raw: u32 = read_u32(bytes, 1);
                Ok((Value::Int(#[verifier::truncate] (raw as i32)), 5))
            },
            3 => {
                if blen < 9 {
                    return Err(DatabaseError::InvalidData);
                }
                let raw: u64 = read_u64(bytes, 1);
                Ok((Value::Long(#[verifier::truncate] (raw as i64)), 9))
            },
            4 => {
                if blen < 5 {
                    return Err(DatabaseError::InvalidData);
                }
                Ok((Value::Float(read_u32(bytes, 1)), 5))
            },
            5 => {
                if blen < 9 {
                    return Err(DatabaseError::InvalidData);
                }
                Ok((Value::Double(read_u64(bytes, 1)), 9))
            },
            6 => {
                if blen < 2 {
                    return Err(DatabaseError::InvalidData);
                }
                Ok((Value::Boolean(bytes[1] != 0), 2))
            },
            7 => {
                if blen < 2 {
                    return Err(DatabaseError::InvalidData);
                }
                let slen: usize = bytes[1] as usize;
                if blen < 2 + slen {
                    return Err(DatabaseError::InvalidData);
                }
                let s: Vec<u8> = slice_to_vec(slice_subrange(bytes, 2, 2 + slen));
                Ok((Value::Str(s), 2 + slen))
            },
            _ => Err(DatabaseError::InvalidData),
        }
    }
}

/// Decoding inverts encoding for values: the wire form of a well-formed
/// value decodes to that value, consuming exactly the wire form's length.
pub proof fn lemma_value_roundtrip(v: Value)
    requires
        v.wf(),
    ensures
        value_parse_some(value_bytes(v)),
        value_parse_ok(value_bytes(v), v, value_bytes(v).len() as int),
{
    lemma_auto_spec_u16_to_from_le_bytes();
    lemma_auto_spec_u32_to_from_le_bytes();
    lemma_auto_spec_u64_to_from_le_bytes();
    let b = value_bytes(v);
    match v {
        Value::Byte(x) => {},
        Value::Short(x) => {
            assert(b.subrange(1, 3) =~= spec_u16_to_le_bytes(x as u16));
            assert(((x as u16) as i16) == x) by (bit_vector);
        },
        Value::Int(x) => {
            assert(b.subrange(1, 5) =~= spec_u32_to_le_bytes(x as u32));
            assert(((x as u32) as i32) == x) by (bit_vector);
        },
        Value::Long(x) => {
            assert(b.subrange(1, 9) =~= spec_u64_to_le_bytes(x as u64));
            assert(((x as u64) as i64) == x) by (bit_vector);
        },
        Value::Float(bits) => {
            assert(b.subrange(1, 5) =~= spec_u32_to_le_bytes(bits));
        },
        Value::Double(bits) => {
            assert(b.subrange(1, 9) =~= spec_u64_to_le_bytes(bits));
        },
        Value::Boolean(x) => {},
        Value::Str(s) => {
            assert(b[1] == s@.len() as u8);
            assert(b.subrange(2, 2 + b[1]) =~= s@);
        },
    }
}

/// `v1` and `v2` carry the same contents: equal outright, or strings
/// holding the same bytes.
pub open spec fn value_like(v1: Value, v2: Value) -> bool {
    match (v1, v2) {
        (Value::Str(s1), Value::Str(s2)) => s1@ == s2@,
        _ => v1 == v2,
    }
}

/// Two values decoded from the same bytes are the same value (up to the
/// bytes a string holds), decoded at the same length.
pub proof fn lemma_value_parse_unique(bytes: Seq<u8>, v1: Value, n1: int, v2: Value, n2: int)
    requires
        value_parse_ok(bytes, v1, n1),
        value_parse_ok(bytes, v2, n2),
    ensures
        n1 == n2,
        value_like(v1, v2),
{
}

} // verus!
