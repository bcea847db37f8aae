//! The record serializer: a record declaration and field values to a KLV frame.
use vstd::prelude::*;

use crate::ber::{ber_encode, LengthOctet, MAX_CONTENT_LEN};
use crate::decl::{opt_view, tags_before, views, FieldDecl, Presence, RecordDecl};
use crate::error::ParseError;
use crate::value::{body, Datum, Value};

verus! {

/// The bytes of one written field: the tag, then a zero length for an absent value, or
/// the BER length and the body of a present one.
pub open spec fn field_piece(tag: u8, v: Option<Datum>) -> Result<Seq<u8>, ParseError> {
    match v {
        None => Ok(seq![tag, 0u8]),
        Some(d) => {
            if body(d).len() > MAX_CONTENT_LEN {
                Err(ParseError::Encoding)
            } else {
                Ok(seq![tag] + ber_encode(body(d).len()) + body(d))
            }
        },
    }
}

/// The bytes a field contributes: nothing when it is skipped while absent.
pub open spec fn ser_step(f: FieldDecl, v: Option<Datum>) -> Result<Seq<u8>, ParseError> {
    if f.presence == Presence::SkipIfNone && v is None {
        Ok(seq![])
    } else {
        field_piece(f.tag, v)
    }
}

/// Writes the fields from the `i`-th on after `out`, in declaration order; a tag that an
/// earlier field declared fails with `DuplicateTag`.
pub open spec fn ser_from(fields: Seq<FieldDecl>, vals: Seq<Option<Datum>>, i: int, out: Seq<u8>) -> Result<
    Seq<u8>,
    ParseError,
>
    decreases fields.len() - i,
{
    if i < 0 || i >= fields.len() {
        Ok(out)
    } else if tags_before(fields, i).contains(fields[i].tag) {
        Err(ParseError::DuplicateTag(fields[i].tag))
    } else {
        match ser_step(fields[i], vals[i]) {
            Err(e) => Err(e),
            Ok(p) => ser_from(fields, vals, i + 1, out + p),
        }
    }
}

/// The frame of a record: `InvalidKey` unless the name is 16 bytes long, then the
/// fields' errors, then `Encoding` when the fields outgrow a BER length.
pub open spec fn spec_to_bytes(name: Seq<u8>, fields: Seq<FieldDecl>, vals: Seq<Option<Datum>>) -> Result<
    Seq<u8>,
    ParseError,
> {
    if name.len() != 16 {
        Err(ParseError::InvalidKey)
    } else {
        match ser_from(fields, vals, 0, seq![]) {
            Err(e) => Err(e),
            Ok(out) => {
                if out.len() > MAX_CONTENT_LEN {
                    Err(ParseError::Encoding)
                } else {
                    Ok(name + ber_encode(out.len()) + out)
                }
            },
        }
    }
}

/// A serialization session: the universal key, the fields written so far and the tags
/// seen so far.
pub struct Serializer {
    universal_key: Vec<u8>,
    output: Vec<u8>,
    keys: Vec<u8>,
}

impl View for Serializer {
    type V = (Seq<u8>, Seq<u8>, Seq<u8>);

    closed spec fn view(&self) -> (Seq<u8>, Seq<u8>, Seq<u8>) {
        (self.universal_key@, self.output@, self.keys@)
    }
}

fn contains_tag(keys: &Vec<u8>, t: u8) -> (r: bool)
    ensures
        r == keys@.contains(t),
{
    let mut i: usize = 0;
    while i < keys.len()
        invariant
            0 <= i <= keys@.len(),
            forall|j: int| 0 <= j < i ==> keys@[j] != t,
        decreases keys@.len() - i,
    {
        if keys[i] == t {
            assert(keys@[i as int] == t);
            return true;
        }
        i += 1;
    }
    false
}

impl Serializer {
    /// An empty session.
    pub fn new() -> (r: Self)
        ensures
            r@ == (Seq::<u8>::empty(), Seq::<u8>::empty(), Seq::<u8>::empty()),
    {
        Serializer { universal_key: Vec::new(), output: Vec::new(), keys: Vec::new() }
    }

    /// Enters a record named `name`: `InvalidKey` unless it is 16 bytes long.
    pub fn serialize_struct(&mut self, name: &[u8]) -> (r: Result<(), ParseError>)
        requires
            old(self)@.0.len() == 0,
        ensures
            name@.len() != 16 ==> r == Err::<(), ParseError>(ParseError::InvalidKey) && final(self)@
                == old(self)@,
            name@.len() == 16 ==> r is Ok && final(self)@ == (name@, old(self)@.1, old(self)@.2),
    {
        if name.len() != 16 {
            return Err(ParseError::InvalidKey);
        }
        self.universal_key.extend_from_slice(name);
        assert(self.universal_key@ =~= name@);
        Ok(())
    }

    /// Writes the BER length and the body of a present value: `Encoding` when the body
    /// is longer than a BER length carries.
    pub fn serialize_value(&mut self, v: &Value) -> (r: Result<(), ParseError>)
        ensures
            body(v@).len() > MAX_CONTENT_LEN ==> r == Err::<(), ParseError>(ParseError::Encoding)
                && final(self)@ == old(self)@,
            body(v@).len() <= MAX_CONTENT_LEN ==> r is Ok && final(self)@ == (
                old(self)@.0,
                old(self)@.1 + ber_encode(body(v@).len()) + body(v@),
                old(self)@.2,
            ),
    {
        let len = v.len();
        if len > MAX_CONTENT_LEN {
            return Err(ParseError::Encoding);
        }
        LengthOctet::length_to_buf(&mut self.output, len);
        v.to_bytes(&mut self.output);
        assert(self.output@ =~= old(self)@.1 + ber_encode(body(v@).len()) + body(v@));
        Ok(())
    }

    /// Writes the zero length of an absent value.
    pub fn serialize_none(&mut self)
        ensures
            final(self)@ == (old(self)@.0, old(self)@.1.push(0u8), old(self)@.2),
    {
        self.output.push(0);
    }

    /// Writes one field: `DuplicateTag` when its tag was seen before, nothing when it is
    /// skipped while absent, else its tag and value.
    pub fn serialize_field(&mut self, f: FieldDecl, v: &Option<Value>) -> (r: Result<(), ParseError>)
        ensures
            r is Err ==> final(self)@ == old(self)@,
            old(self)@.2.contains(f.tag) ==> r == Err::<(), ParseError>(ParseError::DuplicateTag(f.tag)),
            !old(self)@.2.contains(f.tag) ==> match ser_step(f, opt_view(*v)) {
                Err(e) => r == Err::<(), ParseError>(e),
                Ok(p) => r is Ok && final(self)@ == (old(self)@.0, old(self)@.1 + p, old(self)@.2.push(
                    f.tag,
                )),
            },
    {
        if contains_tag(&self.keys, f.tag) {
            return Err(ParseError::DuplicateTag(f.tag));
        }
        match v {
            None => {
                if f.presence == Presence::SkipIfNone {
                    self.keys.push(f.tag);
                    assert(self.output@ =~= old(self)@.1 + Seq::<u8>::empty());
                    return Ok(());
                }
                self.keys.push(f.tag);
                self.output.push(f.tag);
                self.serialize_none();
                assert(self.output@ =~= old(self)@.1 + seq![f.tag, 0u8]);
                Ok(())
            },
            Some(x) => {
                if x.len() > MAX_CONTENT_LEN {
                    return Err(ParseError::Encoding);
                }
                self.keys.push(f.tag);
                self.output.push(f.tag);
                let r = self.serialize_value(x);
                assert(self.output@ =~= old(self)@.1 + (seq![f.tag] + ber_encode(body(x@).len())
                    + body(x@)));
                r
            },
        }
    }

    /// The frame: the key, the BER length of the fields, the fields; `Encoding` when the
    /// fields are longer than a BER length carries.
    pub fn concat(self) -> (r: Result<Vec<u8>, ParseError>)
        ensures
            self@.1.len() > MAX_CONTENT_LEN ==> r == Err::<Vec<u8>, ParseError>(ParseError::Encoding),
            self@.1.len() <= MAX_CONTENT_LEN ==> (r matches Ok(b) && b@ == self@.0 + ber_encode(
                self@.1.len(),
            ) + self@.1),
    {
        let Serializer { universal_key: mut key, output, keys: _ } = self;
        if output.len() > MAX_CONTENT_LEN {
            return Err(ParseError::Encoding);
        }
        LengthOctet::length_to_buf(&mut key, output.len());
        key.extend_from_slice(output.as_slice());
        Ok(key)
    }
}

/// Serializes a record of the type `decl` whose field values are `values`, in
/// declaration order.
pub fn to_bytes(decl: &RecordDecl, values: &[Option<Value>]) -> (r: Result<Vec<u8>, ParseError>)
    requires
        values@.len() == decl.fields@.len(),
    ensures
        match spec_to_bytes(decl.name@, decl.fields@, views(values@)) {
            Ok(b) => r matches Ok(x) && x@ == b,
            Err(e) => r == Err::<Vec<u8>, ParseError>(e),
        },
{
    let ghost fields = decl.fields@;
    let ghost vals = views(values@);
    let mut se = Serializer::new();
    match se.serialize_struct(decl.name.as_slice()) {
        Err(e) => return Err(e),
        Ok(()) => {},
    }
    let mut i: usize = 0;
    assert(tags_before(fields, 0) =~= Seq::<u8>::empty());
    while i < decl.fields.len()
        invariant
            0 <= i <= fields.len(),
            fields == decl.fields@,
            vals == views(values@),
            values@.len() == fields.len(),
            decl.name@.len() == 16,
            se@.0 == decl.name@,
            se@.2 == tags_before(fields, i as int),
            ser_from(fields, vals, 0, seq![]) == ser_from(fields, vals, i as int, se@.1),
        decreases fields.len() - i,
    {
        let f = decl.fields[i];
        assert(vals[i as int] == opt_view(values@[i as int]));
        match se.serialize_field(f, &values[i]) {
            Err(e) => return Err(e),
            Ok(()) => {},
        }
        assert(tags_before(fields, i + 1) =~= tags_before(fields, i as int).push(f.tag));
        i += 1;
    }
    se.concat()
}

} // verus!
