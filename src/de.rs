//! The record deserializer: a KLV frame to the field values of a record declaration.
use vstd::prelude::*;

use crate::ber::{ber_decode, parse_length};
use crate::decl::{opt_view, views, FieldDecl, Presence, RecordDecl};
use crate::error::ParseError;
use crate::value::{datum_result, decode_kind, Datum, Value};

verus! {

/// The index of the first field from the `i`-th on whose tag is `t`.
pub open spec fn find_from(fields: Seq<FieldDecl>, t: u8, i: int) -> Option<int>
    decreases fields.len() - i,
{
    if i < 0 || i >= fields.len() {
        None
    } else if fields[i].tag == t {
        Some(i)
    } else {
        find_from(fields, t, i + 1)
    }
}

pub proof fn lemma_find_from_range(fields: Seq<FieldDecl>, t: u8, i: int)
    ensures
        find_from(fields, t, i) matches Some(j) ==> i <= j < fields.len() && fields[j].tag == t,
    decreases fields.len() - i,
{
    if 0 <= i < fields.len() && fields[i].tag != t {
        lemma_find_from_range(fields, t, i + 1);
    }
}

/// Takes one record `(tag, payload)` into the slots: an unknown tag is skipped, an empty
/// payload leaves an optional field absent, any other payload is decoded as the field's
/// kind.
pub open spec fn de_step(fields: Seq<FieldDecl>, tag: u8, payload: Seq<u8>, slots: Seq<Option<Datum>>) -> Result<
    Seq<Option<Datum>>,
    ParseError,
> {
    match find_from(fields, tag, 0) {
        None => Ok(slots),
        Some(j) => {
            if fields[j].presence != Presence::Required && payload.len() == 0 {
                Ok(slots.update(j, None))
            } else {
                match decode_kind(fields[j].kind, payload) {
                    Err(e) => Err(e),
                    Ok(d) => Ok(slots.update(j, Some(d))),
                }
            }
        },
    }
}

/// Takes the records of the content `c` (tag, BER length, payload) into the slots, in
/// the order in which they arrive; a record that runs past the end of the content is
/// `BufferTooShort`.
pub open spec fn de_content(fields: Seq<FieldDecl>, c: Seq<u8>, slots: Seq<Option<Datum>>) -> Result<
    Seq<Option<Datum>>,
    ParseError,
>
    decreases c.len(),
{
    if c.len() == 0 {
        Ok(slots)
    } else {
        match ber_decode(c.subrange(1, c.len() as int)) {
            Err(e) => Err(e),
            Ok((ll, l)) => {
                if 1 + ll + l > c.len() {
                    Err(ParseError::BufferTooShort)
                } else {
                    match de_step(fields, c[0], c.subrange(1 + ll, 1 + ll + l), slots) {
                        Err(e) => Err(e),
                        Ok(s2) => de_content(fields, c.subrange(1 + ll + l, c.len() as int), s2),
                    }
                }
            },
        }
    }
}

/// The tag of the first required field from the `j`-th on whose slot is empty.
pub open spec fn first_missing(fields: Seq<FieldDecl>, slots: Seq<Option<Datum>>, j: int) -> Option<u8>
    decreases fields.len() - j,
{
    if j < 0 || j >= fields.len() {
        None
    } else if fields[j].presence == Presence::Required && slots[j] is None {
        Some(fields[j].tag)
    } else {
        first_missing(fields, slots, j + 1)
    }
}

/// No field has a value yet.
pub open spec fn empty_slots(n: nat) -> Seq<Option<Datum>> {
    Seq::new(n, |j: int| None)
}

/// Reads the frame at the start of `s` as a record named `name` with the given fields:
/// the field values and where the frame ends. `BufferTooShort` for a short key,
/// `InvalidKey` for another key, the length's and the records' errors, then
/// `MissingField` for the first required field that did not arrive.
pub open spec fn spec_struct(name: Seq<u8>, fields: Seq<FieldDecl>, s: Seq<u8>) -> Result<
    (Seq<Option<Datum>>, int),
    ParseError,
> {
    if s.len() < 16 {
        Err(ParseError::BufferTooShort)
    } else if s.subrange(0, 16) != name {
        Err(ParseError::InvalidKey)
    } else {
        match ber_decode(s.subrange(16, s.len() as int)) {
            Err(e) => Err(e),
            Ok((ll, cl)) => {
                if 16 + ll + cl > s.len() {
                    Err(ParseError::BufferTooShort)
                } else {
                    match de_content(
                        fields,
                        s.subrange(16 + ll, 16 + ll + cl),
                        empty_slots(fields.len()),
                    ) {
                        Err(e) => Err(e),
                        Ok(slots) => match first_missing(fields, slots, 0) {
                            Some(t) => Err(ParseError::MissingField(t)),
                            None => Ok((slots, 16 + ll + cl)),
                        },
                    }
                }
            },
        }
    }
}

/// Reads `s` as one whole frame of a record named `name`: `TrailingBytes` when bytes
/// follow the frame.
pub open spec fn spec_from_bytes(name: Seq<u8>, fields: Seq<FieldDecl>, s: Seq<u8>) -> Result<
    Seq<Option<Datum>>,
    ParseError,
> {
    match spec_struct(name, fields, s) {
        Err(e) => Err(e),
        Ok((slots, end)) => {
            if end != s.len() {
                Err(ParseError::TrailingBytes)
            } else {
                Ok(slots)
            }
        },
    }
}

/// A deserialization session over an input.
pub struct Deserializer<'de> {
    input: &'de [u8],
    position: usize,
}

fn bytes_eq(a: &[u8], b: &[u8]) -> (r: bool)
    ensures
        r == (a@ == b@),
{
    if a.len() != b.len() {
        return false;
    }
    let mut i: usize = 0;
    while i < a.len()
        invariant
            a@.len() == b@.len(),
            0 <= i <= a@.len(),
            a@.subrange(0, i as int) == b@.subrange(0, i as int),
        decreases a@.len() - i,
    {
        if a[i] != b[i] {
            return false;
        }
        assert(a@.subrange(0, i + 1) =~= b@.subrange(0, i + 1)) by {
            assert(a@.subrange(0, i as int) =~= b@.subrange(0, i as int));
        }
        i += 1;
    }
    assert(a@ =~= a@.subrange(0, a@.len() as int));
    assert(b@ =~= b@.subrange(0, b@.len() as int));
    true
}

fn find_field(fields: &Vec<FieldDecl>, t: u8) -> (r: Option<usize>)
    ensures
        r is None ==> find_from(fields@, t, 0) is None,
        r matches Some(j) ==> find_from(fields@, t, 0) == Some(j as int),
{
    let mut i: usize = 0;
    while i < fields.len()
        invariant
            0 <= i <= fields@.len(),
            find_from(fields@, t, 0) == find_from(fields@, t, i as int),
        decreases fields@.len() - i,
    {
        if fields[i].tag == t {
            return Some(i);
        }
        i += 1;
    }
    None
}

impl<'de> Deserializer<'de> {
    #[verifier::type_invariant]
    closed spec fn inv(&self) -> bool {
        self.position <= self.input@.len()
    }

    /// The unread rest of the input.
    pub closed spec fn rest_of(&self) -> Seq<u8> {
        self.input@.subrange(self.position as int, self.input@.len() as int)
    }

    /// A session at the start of `input`.
    pub fn from_bytes(input: &'de [u8]) -> (r: Self)
        ensures
            r.input_of() == input@,
            r.position_of() == 0,
            r.rest_of() == input@,
    {
        Deserializer { input, position: 0 }
    }

    /// The input of the session.
    pub closed spec fn input_of(&self) -> Seq<u8> {
        self.input@
    }

    /// How far the session has read.
    pub closed spec fn position_of(&self) -> int {
        self.position as int
    }

    /// Reads the frame that starts where the session stands as a record of the type
    /// `decl`; on success the session stands at the end of the frame.
    pub fn deserialize_struct(&mut self, decl: &RecordDecl) -> (r: Result<Vec<Option<Value>>, ParseError>)
        ensures
            final(self).input_of() == old(self).input_of(),
            match spec_struct(decl.name@, decl.fields@, old(self).rest_of()) {
                Err(e) => r == Err::<Vec<Option<Value>>, ParseError>(e),
                Ok((slots, end)) => r matches Ok(v) && views(v@) == slots && final(self).position_of()
                    == old(self).position_of() + end,
            },
    {
        proof {
            use_type_invariant(&*self);
        }
        let start = self.position;
        let input = &self.input[start..self.input.len()];
        let n = input.len();
        let ghost s = input@;
        assert(s == old(self).rest_of());
        let ghost fields = decl.fields@;
        if n < 16 {
            return Err(ParseError::BufferTooShort);
        }
        if !bytes_eq(&input[0..16], decl.name.as_slice()) {
            return Err(ParseError::InvalidKey);
        }
        let (ll, cl) = match parse_length(&input[16..n]) {
            Ok(x) => x,
            Err(e) => return Err(e),
        };
        if cl > n - 16 - ll {
            return Err(ParseError::BufferTooShort);
        }
        let end = 16 + ll + cl;
        assert(ber_decode(s.subrange(16, s.len() as int)) == Ok::<(usize, usize), ParseError>((ll, cl)));
        assert(s.subrange(0, 16) == decl.name@);
        let mut slots: Vec<Option<Value>> = Vec::new();
        let mut k: usize = 0;
        while k < decl.fields.len()
            invariant
                0 <= k <= fields.len(),
                fields == decl.fields@,
                slots@.len() == k,
                views(slots@) =~= empty_slots(k as nat),
            decreases fields.len() - k,
        {
            let ghost before = slots@;
            slots.push(None);
            assert forall|i: int| 0 <= i < k + 1 implies views(slots@)[i] == empty_slots(
                (k + 1) as nat,
            )[i] by {
                if i < k {
                    assert(slots@[i] == before[i]);
                    assert(views(before)[i] == empty_slots(k as nat)[i]);
                }
            }
            k += 1;
        }
        let ghost content = s.subrange(16 + ll, end as int);
        let mut pos = 16 + ll;
        assert(s.subrange(pos as int, end as int) == content);
        while pos < end
            invariant
                s == input@,
                n == s.len(),
                16 + ll <= pos <= end <= n,
                end == 16 + ll + cl,
                old(self).rest_of() == s,
                old(self).position_of() == start,
                old(self).input_of().len() == start + n,
                n >= 16,
                s.subrange(0, 16) == decl.name@,
                ber_decode(s.subrange(16, s.len() as int)) == Ok::<(usize, usize), ParseError>((ll, cl)),
                content == s.subrange(16 + ll, end as int),
                fields == decl.fields@,
                slots@.len() == fields.len(),
                de_content(fields, content, empty_slots(fields.len())) == de_content(
                    fields,
                    s.subrange(pos as int, end as int),
                    views(slots@),
                ),
            decreases end - pos,
        {
            let ghost c = s.subrange(pos as int, end as int);
            let tag = input[pos];
            assert(c.subrange(1, c.len() as int) =~= s.subrange(pos + 1, end as int));
            let (l2, plen) = match parse_length(&input[pos + 1..end]) {
                Ok(x) => x,
                Err(e) => {
                    assert(de_content(fields, c, views(slots@)) == Err::<Seq<Option<Datum>>, ParseError>(e));
                    return Err(e);
                },
            };
            if plen > end - pos - 1 || l2 > end - pos - 1 - plen {
                assert(de_content(fields, c, views(slots@)) == Err::<Seq<Option<Datum>>, ParseError>(
                    ParseError::BufferTooShort,
                ));
                return Err(ParseError::BufferTooShort);
            }
            let pstart = pos + 1 + l2;
            let pend = pstart + plen;
            let payload = &input[pstart..pend];
            assert(payload@ =~= c.subrange(1 + l2, 1 + l2 + plen));
            assert(c[0] == tag);
            match find_field(&decl.fields, tag) {
                None => {},
                Some(j) => {
                    proof {
                        lemma_find_from_range(fields, tag, 0);
                    }
                    let f = decl.fields[j];
                    if f.presence != Presence::Required && plen == 0 {
                        let ghost before = views(slots@);
                        slots[j] = None;
                        assert(views(slots@) =~= before.update(j as int, None));
                    } else {
                        match Value::decode(f.kind, payload) {
                            Err(e) => return Err(e),
                            Ok(v) => {
                                let ghost before = views(slots@);
                                slots[j] = Some(v);
                                assert(views(slots@) =~= before.update(j as int, Some(v@)));
                            },
                        }
                    }
                },
            }
            assert(c.subrange(1 + l2 + plen, c.len() as int) =~= s.subrange(pend as int, end as int));
            pos = pend;
        }
        assert(s.subrange(end as int, end as int).len() == 0);
        let mut j: usize = 0;
        while j < decl.fields.len()
            invariant
                0 <= j <= fields.len(),
                fields == decl.fields@,
                slots@.len() == fields.len(),
                end == 16 + ll + cl,
                end <= n,
                old(self).rest_of() == s,
                old(self).position_of() == start,
                old(self).input_of().len() == start + n,
                n >= 16,
                s == input@,
                n == s.len(),
                s.subrange(0, 16) == decl.name@,
                ber_decode(s.subrange(16, s.len() as int)) == Ok::<(usize, usize), ParseError>((ll, cl)),
                content == s.subrange(16 + ll, end as int),
                de_content(fields, content, empty_slots(fields.len())) == Ok::<Seq<Option<Datum>>, ParseError>(views(slots@)),
                first_missing(fields, views(slots@), 0) == first_missing(fields, views(slots@), j as int),
            decreases fields.len() - j,
        {
            let f = decl.fields[j];
            assert(views(slots@)[j as int] == opt_view(slots@[j as int]));
            if f.presence == Presence::Required && slots[j].is_none() {
                return Err(ParseError::MissingField(f.tag));
            }
            j += 1;
        }
        self.position = start + end;
        Ok(slots)
    }
}

/// Reads `s` as one whole frame of a record of the type `decl`.
pub fn from_bytes(decl: &RecordDecl, s: &[u8]) -> (r: Result<Vec<Option<Value>>, ParseError>)
    ensures
        match spec_from_bytes(decl.name@, decl.fields@, s@) {
            Err(e) => r == Err::<Vec<Option<Value>>, ParseError>(e),
            Ok(slots) => r matches Ok(v) && views(v@) == slots,
        },
{
    let mut de = Deserializer::from_bytes(s);
    assert(s@.subrange(0, s@.len() as int) =~= s@);
    match de.deserialize_struct(decl) {
        Err(e) => Err(e),
        Ok(v) => {
            if de.position == s.len() {
                Ok(v)
            } else {
                Err(ParseError::TrailingBytes)
            }
        },
    }
}

} // verus!
