//! Typed values: what a dataset item or a record field decodes to, and their
//! big-endian wire bodies.
use vstd::prelude::*;
use vstd::utf8::{decode_utf8, encode_utf8, is_scalar, valid_utf8};

use crate::be::{put_be, put_bytes, splice, be_bytes, be_value, lemma_be_value_bound, lemma_pow256_values, read_be, write_be};
use crate::error::ParseError;

verus! {

/// A decoded value. Floating-point values are carried as their IEEE 754 bit patterns.
#[derive(Debug, PartialEq, Eq)]
pub enum Value {
    U8(u8),
    U16(u16),
    U32(u32),
    U64(u64),
    I8(i8),
    I16(i16),
    I32(i32),
    I64(i64),
    F32(u32),
    F64(u64),
    Bool(bool),
    Char(char),
    String(String),
    Bytes(Vec<u8>),
    /// Microseconds since the Unix epoch.
    Timestamp(u64),
    Duration { secs: u64, nanos: u32 },
    Unit,
}

/// The mathematical content of a [`Value`].
pub enum Datum {
    U8(u8),
    U16(u16),
    U32(u32),
    U64(u64),
    I8(i8),
    I16(i16),
    I32(i32),
    I64(i64),
    F32(u32),
    F64(u64),
    Bool(bool),
    Char(char),
    String(Seq<char>),
    Bytes(Seq<u8>),
    Timestamp(u64),
    Duration { secs: u64, nanos: u32 },
    Unit,
}

/// The type that a payload is decoded as.
#[derive(Debug, Clone, Copy, PartialEq, Eq, Structural)]
pub enum Kind {
    U8,
    U16,
    U32,
    U64,
    I8,
    I16,
    I32,
    I64,
    F32,
    F64,
    Bool,
    Char,
    String,
    Bytes,
    Timestamp,
    Duration,
    Unit,
}

impl View for Value {
    type V = Datum;

    open spec fn view(&self) -> Datum {
        match self {
            Value::U8(x) => Datum::U8(*x),
            Value::U16(x) => Datum::U16(*x),
            Value::U32(x) => Datum::U32(*x),
            Value::U64(x) => Datum::U64(*x),
            Value::I8(x) => Datum::I8(*x),
            Value::I16(x) => Datum::I16(*x),
            Value::I32(x) => Datum::I32(*x),
            Value::I64(x) => Datum::I64(*x),
            Value::F32(x) => Datum::F32(*x),
            Value::F64(x) => Datum::F64(*x),
            Value::Bool(x) => Datum::Bool(*x),
            Value::Char(x) => Datum::Char(*x),
            Value::String(s) => Datum::String(s@),
            Value::Bytes(b) => Datum::Bytes(b@),
            Value::Timestamp(x) => Datum::Timestamp(*x),
            Value::Duration { secs, nanos } => Datum::Duration { secs: *secs, nanos: *nanos },
            Value::Unit => Datum::Unit,
        }
    }
}

/// The view of a decoding result.
pub open spec fn datum_result(r: Result<Value, ParseError>) -> Result<Datum, ParseError> {
    match r {
        Ok(v) => Ok(v@),
        Err(e) => Err(e),
    }
}

/// The largest subsecond nanosecond count of a duration, plus one.
pub const NANOS_PER_SEC: u32 = 1_000_000_000;

/// The wire body of a value: big-endian for numbers, UTF-8 for strings, raw for bytes.
pub open spec fn body(d: Datum) -> Seq<u8> {
    match d {
        Datum::U8(x) => seq![x],
        Datum::U16(x) => be_bytes(x as nat, 2),
        Datum::U32(x) => be_bytes(x as nat, 4),
        Datum::U64(x) => be_bytes(x as nat, 8),
        Datum::I8(x) => seq![x as u8],
        Datum::I16(x) => be_bytes((x as u16) as nat, 2),
        Datum::I32(x) => be_bytes((x as u32) as nat, 4),
        Datum::I64(x) => be_bytes((x as u64) as nat, 8),
        Datum::F32(x) => be_bytes(x as nat, 4),
        Datum::F64(x) => be_bytes(x as nat, 8),
        Datum::Bool(b) => seq![if b { 1u8 } else { 0u8 }],
        Datum::Char(c) => be_bytes((c as u32) as nat, 4),
        Datum::String(s) => encode_utf8(s),
        Datum::Bytes(b) => b,
        Datum::Timestamp(x) => be_bytes(x as nat, 8),
        Datum::Duration { secs, nanos } => be_bytes(secs as nat, 8) + be_bytes(nanos as nat, 4),
        Datum::Unit => seq![],
    }
}

/// The kind that a value decodes back as.
pub open spec fn kind_of(d: Datum) -> Kind {
    match d {
        Datum::U8(_) => Kind::U8,
        Datum::U16(_) => Kind::U16,
        Datum::U32(_) => Kind::U32,
        Datum::U64(_) => Kind::U64,
        Datum::I8(_) => Kind::I8,
        Datum::I16(_) => Kind::I16,
        Datum::I32(_) => Kind::I32,
        Datum::I64(_) => Kind::I64,
        Datum::F32(_) => Kind::F32,
        Datum::F64(_) => Kind::F64,
        Datum::Bool(_) => Kind::Bool,
        Datum::Char(_) => Kind::Char,
        Datum::String(_) => Kind::String,
        Datum::Bytes(_) => Kind::Bytes,
        Datum::Timestamp(_) => Kind::Timestamp,
        Datum::Duration { .. } => Kind::Duration,
        Datum::Unit => Kind::Unit,
    }
}

impl Kind {
    /// The body width of a fixed-width kind; `None` for strings and bytes.
    pub open spec fn spec_width(self) -> Option<nat> {
        match self {
            Kind::U8 | Kind::I8 | Kind::Bool => Some(1),
            Kind::U16 | Kind::I16 => Some(2),
            Kind::U32 | Kind::I32 | Kind::F32 | Kind::Char => Some(4),
            Kind::U64 | Kind::I64 | Kind::F64 | Kind::Timestamp => Some(8),
            Kind::Duration => Some(12),
            Kind::Unit => Some(0),
            Kind::String | Kind::Bytes => None,
        }
    }

    /// The body width of a fixed-width kind; `None` for strings and bytes.
    pub fn width(&self) -> (r: Option<usize>)
        ensures
            r matches Some(w) ==> self.spec_width() == Some(w as nat),
            r is None ==> self.spec_width() is None,
    {
        match self {
            Kind::U8 | Kind::I8 | Kind::Bool => Some(1),
            Kind::U16 | Kind::I16 => Some(2),
            Kind::U32 | Kind::I32 | Kind::F32 | Kind::Char => Some(4),
            Kind::U64 | Kind::I64 | Kind::F64 | Kind::Timestamp => Some(8),
            Kind::Duration => Some(12),
            Kind::Unit => Some(0),
            Kind::String | Kind::Bytes => None,
        }
    }
}

/// Decodes the payload `p` as `k`. A fixed-width kind takes exactly its width.
pub open spec fn decode_kind(k: Kind, p: Seq<u8>) -> Result<Datum, ParseError> {
    if k.spec_width() is Some && p.len() != k.spec_width()->Some_0 {
        Err(ParseError::UnexpectedLength(p.len() as usize))
    } else {
        match k {
            Kind::U8 => Ok(Datum::U8(p[0])),
            Kind::U16 => Ok(Datum::U16(be_value(p) as u16)),
            Kind::U32 => Ok(Datum::U32(be_value(p) as u32)),
            Kind::U64 => Ok(Datum::U64(be_value(p) as u64)),
            Kind::I8 => Ok(Datum::I8(p[0] as i8)),
            Kind::I16 => Ok(Datum::I16((be_value(p) as u16) as i16)),
            Kind::I32 => Ok(Datum::I32((be_value(p) as u32) as i32)),
            Kind::I64 => Ok(Datum::I64((be_value(p) as u64) as i64)),
            Kind::F32 => Ok(Datum::F32(be_value(p) as u32)),
            Kind::F64 => Ok(Datum::F64(be_value(p) as u64)),
            Kind::Bool => Ok(Datum::Bool(p[0] != 0)),
            Kind::Char => {
                if is_scalar(be_value(p) as u32) {
                    Ok(Datum::Char((be_value(p) as u32) as char))
                } else {
                    Err(ParseError::Encoding)
                }
            },
            Kind::String => {
                if valid_utf8(p) {
                    Ok(Datum::String(decode_utf8(p)))
                } else {
                    Err(ParseError::Encoding)
                }
            },
            Kind::Bytes => Ok(Datum::Bytes(p)),
            Kind::Timestamp => Ok(Datum::Timestamp(be_value(p) as u64)),
            Kind::Duration => {
                if be_value(p.subrange(8, 12)) < NANOS_PER_SEC {
                    Ok(
                        Datum::Duration {
                            secs: be_value(p.subrange(0, 8)) as u64,
                            nanos: be_value(p.subrange(8, 12)) as u32,
                        },
                    )
                } else {
                    Err(ParseError::Encoding)
                }
            },
            Kind::Unit => Ok(Datum::Unit),
        }
    }
}

/// Relies on `String::from_utf8`: it accepts exactly the valid UTF-8 byte sequences and
/// the string holds the characters that they encode.
#[verifier::external_body]
fn string_from_utf8(bytes: Vec<u8>) -> (r: Option<String>)
    ensures
        r is Some <==> valid_utf8(bytes@),
        r matches Some(s) ==> s@ == decode_utf8(bytes@),
{
    String::from_utf8(bytes).ok()
}

/// Relies on `char::from_u32`: it accepts exactly the Unicode scalar values.
#[verifier::external_body]
fn char_from_u32(v: u32) -> (r: Option<char>)
    ensures
        r is Some <==> is_scalar(v),
        r matches Some(c) ==> c == v as char,
{
    char::from_u32(v)
}

impl Value {
    /// Decodes `p` as `k`: `UnexpectedLength` when a fixed-width kind gets another
    /// length, `Encoding` for invalid UTF-8, an invalid char code or too many nanoseconds.
    pub fn decode(k: Kind, p: &[u8]) -> (r: Result<Value, ParseError>)
        ensures
            datum_result(r) == decode_kind(k, p@),
    {
        proof {
            lemma_pow256_values();
            lemma_be_value_bound(p@);
            assert(p@.subrange(0, p@.len() as int) =~= p@);
        }
        match k.width() {
            Some(w) => {
                if p.len() != w {
                    return Err(ParseError::UnexpectedLength(p.len()));
                }
            },
            None => {},
        }
        match k {
            Kind::U8 => Ok(Value::U8(p[0])),
            Kind::U16 => Ok(Value::U16(read_be(p, 0, 2) as u16)),
            Kind::U32 => Ok(Value::U32(read_be(p, 0, 4) as u32)),
            Kind::U64 => Ok(Value::U64(read_be(p, 0, 8))),
            Kind::I8 => Ok(Value::I8(p[0] as i8)),
            Kind::I16 => Ok(Value::I16(read_be(p, 0, 2) as u16 as i16)),
            Kind::I32 => Ok(Value::I32(read_be(p, 0, 4) as u32 as i32)),
            Kind::I64 => Ok(Value::I64(read_be(p, 0, 8) as i64)),
            Kind::F32 => Ok(Value::F32(read_be(p, 0, 4) as u32)),
            Kind::F64 => Ok(Value::F64(read_be(p, 0, 8))),
            Kind::Bool => Ok(Value::Bool(p[0] != 0)),
            Kind::Char => {
                let v = read_be(p, 0, 4) as u32;
                match char_from_u32(v) {
                    Some(c) => Ok(Value::Char(c)),
                    None => Err(ParseError::Encoding),
                }
            },
            Kind::String => {
                let bytes = vstd::slice::slice_to_vec(p);
                match string_from_utf8(bytes) {
                    Some(s) => Ok(Value::String(s)),
                    None => Err(ParseError::Encoding),
                }
            },
            Kind::Bytes => Ok(Value::Bytes(vstd::slice::slice_to_vec(p))),
            Kind::Timestamp => Ok(Value::Timestamp(read_be(p, 0, 8))),
            Kind::Duration => {
                let secs = read_be(p, 0, 8);
                let nanos = read_be(p, 8, 4);
                proof {
                    lemma_be_value_bound(p@.subrange(8, 12));
                }
                if nanos < NANOS_PER_SEC as u64 {
                    Ok(Value::Duration { secs, nanos: nanos as u32 })
                } else {
                    Err(ParseError::Encoding)
                }
            },
            Kind::Unit => Ok(Value::Unit),
        }
    }

    /// Appends the body of this value and returns its length.
    pub fn to_bytes(&self, buf: &mut Vec<u8>) -> (r: usize)
        ensures
            final(buf)@ == old(buf)@ + body(self@),
            r == body(self@).len(),
    {
        let start = buf.len();
        match self {
            Value::U8(x) => buf.push(*x),
            Value::U16(x) => write_be(buf, *x as u64, 2),
            Value::U32(x) => write_be(buf, *x as u64, 4),
            Value::U64(x) => write_be(buf, *x, 8),
            Value::I8(x) => buf.push(*x as u8),
            Value::I16(x) => write_be(buf, *x as u16 as u64, 2),
            Value::I32(x) => write_be(buf, *x as u32 as u64, 4),
            Value::I64(x) => write_be(buf, *x as u64, 8),
            Value::F32(x) => write_be(buf, *x as u64, 4),
            Value::F64(x) => write_be(buf, *x, 8),
            Value::Bool(b) => buf.push(if *b { 1 } else { 0 }),
            Value::Char(c) => write_be(buf, *c as u32 as u64, 4),
            Value::String(s) => buf.extend_from_slice(s.as_str().as_bytes()),
            Value::Bytes(b) => buf.extend_from_slice(b.as_slice()),
            Value::Timestamp(x) => write_be(buf, *x, 8),
            Value::Duration { secs, nanos } => {
                write_be(buf, *secs, 8);
                write_be(buf, *nanos as u64, 4);
            },
            Value::Unit => {},
        }
        proof {
            assert(buf@ =~= old(buf)@ + body(self@));
        }
        buf.len() - start
    }

    /// Writes the body of this value into `buf` at `at` and returns its length.
    pub fn write_into(&self, buf: &mut [u8], at: usize) -> (r: usize)
        requires
            at + body(self@).len() <= old(buf)@.len(),
        ensures
            final(buf)@ == splice(old(buf)@, at as int, body(self@)),
            r == body(self@).len(),
    {
        proof {
            lemma_body_len(self@);
        }
        assert(buf@.len() == buf.len());
        let n = self.len();
        match self {
            Value::U8(x) => put_be(buf, at, *x as u64, 1),
            Value::U16(x) => put_be(buf, at, *x as u64, 2),
            Value::U32(x) => put_be(buf, at, *x as u64, 4),
            Value::U64(x) => put_be(buf, at, *x, 8),
            Value::I8(x) => put_be(buf, at, *x as u8 as u64, 1),
            Value::I16(x) => put_be(buf, at, *x as u16 as u64, 2),
            Value::I32(x) => put_be(buf, at, *x as u32 as u64, 4),
            Value::I64(x) => put_be(buf, at, *x as u64, 8),
            Value::F32(x) => put_be(buf, at, *x as u64, 4),
            Value::F64(x) => put_be(buf, at, *x, 8),
            Value::Bool(b) => put_be(buf, at, if *b { 1 } else { 0 }, 1),
            Value::Char(c) => put_be(buf, at, *c as u32 as u64, 4),
            Value::String(st) => put_bytes(buf, at, st.as_str().as_bytes()),
            Value::Bytes(b) => put_bytes(buf, at, b.as_slice()),
            Value::Timestamp(x) => put_be(buf, at, *x, 8),
            Value::Duration { secs, nanos } => {
                proof {
                    crate::be::lemma_be_bytes_len(*secs as nat, 8);
                    crate::be::lemma_be_bytes_len(*nanos as nat, 4);
                }
                put_be(buf, at, *secs, 8);
                put_be(buf, at + 8, *nanos as u64, 4);
                proof {
                    crate::be::lemma_splice_twice(
                        old(buf)@,
                        at as int,
                        be_bytes(*secs as nat, 8),
                        be_bytes(*nanos as nat, 4),
                    );
                }
            },
            Value::Unit => {
                assert(splice(old(buf)@, at as int, Seq::<u8>::empty()) =~= old(buf)@);
            },
        }
        proof {
            match self@ {
                Datum::U8(x) => lemma_be_bytes_one(x),
                Datum::I8(x) => lemma_be_bytes_one(x as u8),
                Datum::Bool(b) => lemma_be_bytes_one(if b { 1u8 } else { 0u8 }),
                _ => {},
            }
        }
        n
    }

    /// The length of the body of this value.
    pub fn len(&self) -> (r: usize)
        ensures
            r == body(self@).len(),
    {
        match self {
            Value::U8(_) | Value::I8(_) | Value::Bool(_) => 1,
            Value::U16(x) => {
                proof { crate::be::lemma_be_bytes_len(*x as nat, 2); }
                2
            },
            Value::I16(x) => {
                proof { crate::be::lemma_be_bytes_len((*x as u16) as nat, 2); }
                2
            },
            Value::U32(x) | Value::F32(x) => {
                proof { crate::be::lemma_be_bytes_len(*x as nat, 4); }
                4
            },
            Value::I32(x) => {
                proof { crate::be::lemma_be_bytes_len((*x as u32) as nat, 4); }
                4
            },
            Value::Char(c) => {
                proof { crate::be::lemma_be_bytes_len((*c as u32) as nat, 4); }
                4
            },
            Value::U64(x) | Value::F64(x) | Value::Timestamp(x) => {
                proof { crate::be::lemma_be_bytes_len(*x as nat, 8); }
                8
            },
            Value::I64(x) => {
                proof { crate::be::lemma_be_bytes_len((*x as u64) as nat, 8); }
                8
            },
            Value::Duration { secs, nanos } => {
                proof {
                    crate::be::lemma_be_bytes_len(*secs as nat, 8);
                    crate::be::lemma_be_bytes_len(*nanos as nat, 4);
                }
                12
            },
            Value::String(s) => s.as_str().as_bytes().len(),
            Value::Bytes(b) => b.len(),
            Value::Unit => 0,
        }
    }

    pub fn as_i8(x: &[u8]) -> (r: Self)
        requires
            x@.len() >= 1,
        ensures
            r@ == Datum::I8(x@[0] as i8),
    {
        Value::I8(x[0] as i8)
    }

    pub fn as_i16(x: &[u8]) -> (r: Self)
        requires
            x@.len() >= 2,
        ensures
            r@ == Datum::I16((be_value(x@.subrange(0, 2)) as u16) as i16),
    {
        Value::I16(read_be(x, 0, 2) as u16 as i16)
    }

    pub fn as_i32(x: &[u8]) -> (r: Self)
        requires
            x@.len() >= 4,
        ensures
            r@ == Datum::I32((be_value(x@.subrange(0, 4)) as u32) as i32),
    {
        Value::I32(read_be(x, 0, 4) as u32 as i32)
    }

    pub fn as_i64(x: &[u8]) -> (r: Self)
        requires
            x@.len() >= 8,
        ensures
            r@ == Datum::I64((be_value(x@.subrange(0, 8)) as u64) as i64),
    {
        Value::I64(read_be(x, 0, 8) as i64)
    }

    pub fn as_u8(x: &[u8]) -> (r: Self)
        requires
            x@.len() >= 1,
        ensures
            r@ == Datum::U8(x@[0]),
    {
        Value::U8(x[0])
    }

    pub fn as_u16(x: &[u8]) -> (r: Self)
        requires
            x@.len() >= 2,
        ensures
            r@ == Datum::U16(be_value(x@.subrange(0, 2)) as u16),
    {
        Value::U16(read_be(x, 0, 2) as u16)
    }

    pub fn as_u32(x: &[u8]) -> (r: Self)
        requires
            x@.len() >= 4,
        ensures
            r@ == Datum::U32(be_value(x@.subrange(0, 4)) as u32),
    {
        Value::U32(read_be(x, 0, 4) as u32)
    }

    pub fn as_u64(x: &[u8]) -> (r: Self)
        requires
            x@.len() >= 8,
        ensures
            r@ == Datum::U64(be_value(x@.subrange(0, 8)) as u64),
    {
        Value::U64(read_be(x, 0, 8))
    }

    /// The whole slice as a string; `Encoding` when it is not valid UTF-8.
    pub fn as_string(x: &[u8]) -> (r: Result<Self, ParseError>)
        ensures
            datum_result(r) == decode_kind(Kind::String, x@),
    {
        Value::decode(Kind::String, x)
    }

    /// The first 8 bytes as microseconds since the Unix epoch.
    pub fn as_timestamp(x: &[u8]) -> (r: Result<Self, ParseError>)
        requires
            x@.len() >= 8,
        ensures
            datum_result(r) == Ok::<Datum, ParseError>(Datum::Timestamp(be_value(x@.subrange(0, 8)) as u64)),
    {
        Ok(Value::Timestamp(read_be(x, 0, 8)))
    }

    /// 8 bytes of seconds, then 4 bytes of subsecond nanoseconds; `Encoding` when the
    /// nanoseconds reach a second.
    pub fn as_duration(x: &[u8]) -> (r: Result<Self, ParseError>)
        requires
            x@.len() >= 12,
        ensures
            datum_result(r) == decode_kind(Kind::Duration, x@.subrange(0, 12)),
    {
        let head = &x[0..12];
        Value::decode(Kind::Duration, head)
    }
}

impl From<u8> for Value {
    fn from(x: u8) -> (r: Value)
        ensures
            r@ == Datum::U8(x),
    {
        Value::U8(x)
    }
}

impl vstd::std_specs::convert::FromSpecImpl<u8> for Value {
    open spec fn obeys_from_spec() -> bool {
        true
    }

    open spec fn from_spec(x: u8) -> Value {
        Value::U8(x)
    }
}

} // verus!

verus! {

/// Decoding the body of a value as its own kind gives the value back (a duration's
/// nanoseconds must stay under a second).
pub proof fn lemma_decode_body(d: Datum)
    requires
        d matches Datum::Duration { nanos, .. } ==> nanos < NANOS_PER_SEC,
    ensures
        decode_kind(kind_of(d), body(d)) == Ok::<Datum, ParseError>(d),
{
    lemma_pow256_values();
    match d {
        Datum::U8(x) => {},
        Datum::U16(x) => {
            crate::be::lemma_be_round_trip(x as nat, 2);
        },
        Datum::U32(x) => {
            crate::be::lemma_be_round_trip(x as nat, 4);
        },
        Datum::U64(x) => {
            crate::be::lemma_be_round_trip(x as nat, 8);
        },
        Datum::I8(x) => {
            assert((x as u8) as i8 == x) by (bit_vector);
        },
        Datum::I16(x) => {
            crate::be::lemma_be_round_trip((x as u16) as nat, 2);
            assert((x as u16) as i16 == x) by (bit_vector);
        },
        Datum::I32(x) => {
            crate::be::lemma_be_round_trip((x as u32) as nat, 4);
            assert((x as u32) as i32 == x) by (bit_vector);
        },
        Datum::I64(x) => {
            crate::be::lemma_be_round_trip((x as u64) as nat, 8);
            assert((x as u64) as i64 == x) by (bit_vector);
        },
        Datum::F32(x) => {
            crate::be::lemma_be_round_trip(x as nat, 4);
        },
        Datum::F64(x) => {
            crate::be::lemma_be_round_trip(x as nat, 8);
        },
        Datum::Bool(b) => {},
        Datum::Char(c) => {
            crate::be::lemma_be_round_trip((c as u32) as nat, 4);
            vstd::utf8::char_is_scalar(c);
            vstd::utf8::char_u32_cast(c, c as u32);
        },
        Datum::String(s) => {
            vstd::utf8::encode_utf8_valid_utf8(s);
            vstd::utf8::encode_utf8_decode_utf8(s);
        },
        Datum::Bytes(b) => {},
        Datum::Timestamp(x) => {
            crate::be::lemma_be_round_trip(x as nat, 8);
        },
        Datum::Duration { secs, nanos } => {
            crate::be::lemma_be_round_trip(secs as nat, 8);
            crate::be::lemma_be_round_trip(nanos as nat, 4);
            let p = body(d);
            assert(p.subrange(0, 8) =~= be_bytes(secs as nat, 8));
            assert(p.subrange(8, 12) =~= be_bytes(nanos as nat, 4));
        },
        Datum::Unit => {},
    }
}

proof fn lemma_be_bytes_one(y: u8)
    ensures
        be_bytes(y as nat, 1) == seq![y],
{
    let n = y as nat;
    assert(n % 256 == n);
    assert(n / 256 == 0);
    assert(be_bytes(0, 0) =~= Seq::<u8>::empty());
    assert(be_bytes(n, 1) =~= seq![y]);
}

/// The body of a fixed-width value is as long as its kind's width.
pub proof fn lemma_body_len(d: Datum)
    ensures
        kind_of(d).spec_width() matches Some(w) ==> body(d).len() == w,
{
    match d {
        Datum::U16(x) => crate::be::lemma_be_bytes_len(x as nat, 2),
        Datum::U32(x) => crate::be::lemma_be_bytes_len(x as nat, 4),
        Datum::U64(x) => crate::be::lemma_be_bytes_len(x as nat, 8),
        Datum::I16(x) => crate::be::lemma_be_bytes_len((x as u16) as nat, 2),
        Datum::I32(x) => crate::be::lemma_be_bytes_len((x as u32) as nat, 4),
        Datum::I64(x) => crate::be::lemma_be_bytes_len((x as u64) as nat, 8),
        Datum::F32(x) => crate::be::lemma_be_bytes_len(x as nat, 4),
        Datum::F64(x) => crate::be::lemma_be_bytes_len(x as nat, 8),
        Datum::Char(c) => crate::be::lemma_be_bytes_len((c as u32) as nat, 4),
        Datum::Timestamp(x) => crate::be::lemma_be_bytes_len(x as nat, 8),
        Datum::Duration { secs, nanos } => {
            crate::be::lemma_be_bytes_len(secs as nat, 8);
            crate::be::lemma_be_bytes_len(nanos as nat, 4);
        },
        _ => {},
    }
}

} // verus!
