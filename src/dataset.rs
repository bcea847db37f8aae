//! Datasets: a universal key and a set of one-byte tags, each with its own decoding;
//! records viewed through a dataset, and the encoder of a whole frame.
use vstd::prelude::*;

use crate::be::{lemma_splice_twice, put_bytes, splice};
use crate::ber::{ber_encode, length_into, LengthOctet, MAX_CONTENT_LEN};
use crate::global::KEY_LEN;
use crate::error::ParseError;
use crate::record::{lemma_short_records_push, records_of, short_record, short_records};
use crate::value::{body, datum_result, Datum, Value};

verus! {

/// A dataset: the universal key that fronts its frames, the mapping between tag bytes
/// and tags, the length each tag accepts and the decoding of each tag's content.
///
/// The specification functions have hidden defaults so that a dataset can also be
/// implemented outside verified code; a verified implementation defines them, and the
/// executable methods must agree with them.
pub trait DataSet: Sized {
    /// The universal key.
    closed spec fn spec_key() -> Seq<u8> {
        Seq::empty()
    }

    /// The tag for a byte, if the dataset defines one.
    closed spec fn spec_from_byte(b: u8) -> Option<Self> {
        None
    }

    /// The byte of a tag.
    closed spec fn spec_as_byte(&self) -> u8 {
        0
    }

    /// Whether a content of `len` bytes is acceptable for this tag.
    closed spec fn spec_expect_length(&self, len: nat) -> bool {
        true
    }

    /// What a content decodes to under this tag.
    closed spec fn spec_value(&self, v: Seq<u8>) -> Result<Datum, ParseError> {
        Err(ParseError::Encoding)
    }

    fn key() -> (r: [u8; 16])
        ensures
            r@ == Self::spec_key(),
    ;

    /// The tag for a byte; a tag found for `b` has `b` as its byte.
    fn from_byte(b: u8) -> (r: Option<Self>)
        ensures
            r == Self::spec_from_byte(b),
            r matches Some(k) ==> k.spec_as_byte() == b,
    ;

    fn as_byte(&self) -> (r: u8)
        ensures
            r == self.spec_as_byte(),
    ;

    fn expect_length(&self, len: usize) -> (r: bool)
        ensures
            r == self.spec_expect_length(len as nat),
    ;

    fn value(&self, v: &[u8]) -> (r: Result<Value, ParseError>)
        requires
            self.spec_expect_length(v@.len()),
        ensures
            datum_result(r) == self.spec_value(v@),
    ;
}

/// What the record `(tag byte, content)` decodes to under the dataset `K`.
pub open spec fn spec_parse<K: DataSet>(rec: (u8, Seq<u8>)) -> Result<Datum, ParseError> {
    match K::spec_from_byte(rec.0) {
        None => Err(ParseError::UnknownTag(rec.0)),
        Some(k) => {
            if !k.spec_expect_length(rec.1.len()) {
                Err(ParseError::UnexpectedLength(rec.1.len() as usize))
            } else {
                k.spec_value(rec.1)
            }
        },
    }
}

/// One record viewed through the dataset `K`.
pub struct KLV<'buf, K> {
    buf: &'buf [u8],
    _phantom: core::marker::PhantomData<K>,
}

impl<'buf, K> View for KLV<'buf, K> {
    type V = (u8, Seq<u8>);

    /// The tag byte and the content.
    closed spec fn view(&self) -> (u8, Seq<u8>) {
        (self.buf@[0], self.buf@.subrange(2, 2 + self.buf@[1]))
    }
}

impl<'buf, K> KLV<'buf, K> {
    #[verifier::type_invariant]
    closed spec fn inv(&self) -> bool {
        self.buf@.len() >= 2 && 2 + self.buf@[1] <= self.buf@.len()
    }
}

impl<'buf, K: DataSet> KLV<'buf, K> {
    /// A record over `buf`, which starts with a whole record.
    pub fn from_bytes(buf: &'buf [u8]) -> (r: Self)
        requires
            buf@.len() >= 2,
            2 + buf@[1] <= buf@.len(),
        ensures
            r@ == (buf@[0], buf@.subrange(2, 2 + buf@[1])),
    {
        KLV { buf, _phantom: core::marker::PhantomData }
    }

    /// A record over `buf`, or `BufferTooShort` when `buf` does not hold a whole record.
    pub fn try_from_bytes(buf: &'buf [u8]) -> (r: Result<Self, ParseError>)
        ensures
            buf@.len() < 2 || 2 + buf@[1] > buf@.len() ==> r matches Err(ParseError::BufferTooShort),
            buf@.len() >= 2 && 2 + buf@[1] <= buf@.len() ==> (r matches Ok(x) && x@ == (
                buf@[0],
                buf@.subrange(2, 2 + buf@[1]),
            )),
    {
        if buf.len() < 2 || buf[1] as usize > buf.len() - 2 {
            Err(ParseError::BufferTooShort)
        } else {
            Ok(Self::from_bytes(buf))
        }
    }

    /// The tag, or `UnknownTag` when the dataset does not define the tag byte.
    pub fn key(&self) -> (r: Result<K, ParseError>)
        ensures
            K::spec_from_byte(self@.0) matches Some(k) ==> r == Ok::<K, ParseError>(k),
            r matches Ok(k) ==> k.spec_as_byte() == self@.0,
            K::spec_from_byte(self@.0) is None ==> r == Err::<K, ParseError>(
                ParseError::UnknownTag(self@.0),
            ),
    {
        proof {
            use_type_invariant(self);
        }
        match K::from_byte(self.buf[0]) {
            Some(k) => Ok(k),
            None => Err(ParseError::UnknownTag(self.buf[0])),
        }
    }

    /// The declared content length.
    pub fn len(&self) -> (r: usize)
        ensures
            r == self@.1.len(),
    {
        proof {
            use_type_invariant(self);
        }
        self.buf[1] as usize
    }

    /// Whether the content is empty.
    pub fn is_empty(&self) -> (r: bool)
        ensures
            r == (self@.1.len() == 0),
    {
        self.len() == 0
    }

    /// The content.
    pub fn content(&self) -> (r: &'buf [u8])
        ensures
            r@ == self@.1,
    {
        proof {
            use_type_invariant(self);
        }
        let end = 2 + self.buf[1] as usize;
        &self.buf[2..end]
    }

    /// Decodes the content under its tag: `UnknownTag`, `UnexpectedLength` when the tag
    /// does not accept the length, or what the tag's decoding gives.
    pub fn parse(&self) -> (r: Result<Value, ParseError>)
        ensures
            datum_result(r) == spec_parse::<K>(self@),
    {
        match self.key() {
            Ok(key) => {
                let len = self.len();
                if !key.expect_length(len) {
                    Err(ParseError::UnexpectedLength(len))
                } else {
                    key.value(self.content())
                }
            },
            Err(e) => Err(e),
        }
    }

    /// `None` when the dataset does not define the tag byte, else what [`KLV::parse`]
    /// gives for the record.
    pub fn value(&self) -> (r: Option<Result<Value, ParseError>>)
        ensures
            r is None <==> K::spec_from_byte(self@.0) is None,
            r matches Some(x) ==> datum_result(x) == spec_parse::<K>(self@),
    {
        match self.key() {
            Err(_) => None,
            Ok(_) => Some(self.parse()),
        }
    }
}

/// Walks a run of short-form records, viewing each through the dataset `K`.
pub struct KLVReader<'buf, K> {
    buf: &'buf [u8],
    current: usize,
    _phantom: core::marker::PhantomData<K>,
}

impl<'buf, K> KLVReader<'buf, K> {
    #[verifier::type_invariant]
    closed spec fn inv(&self) -> bool {
        self.current <= self.buf@.len()
    }
}

impl<'buf, K: DataSet> KLVReader<'buf, K> {
    /// The records still to come.
    pub closed spec fn remaining(&self) -> Seq<(u8, Seq<u8>)> {
        records_of(self.buf@.subrange(self.current as int, self.buf@.len() as int))
    }

    /// A reader at the start of `buf`.
    pub fn from_bytes(buf: &'buf [u8]) -> (r: Self)
        ensures
            r.remaining() == records_of(buf@),
    {
        let r = KLVReader { buf, current: 0, _phantom: core::marker::PhantomData };
        assert(buf@.subrange(0, buf@.len() as int) =~= buf@);
        r
    }

    /// The next record, or `None` when the run has ended or the rest is truncated.
    pub fn next(&mut self) -> (r: Option<KLV<'buf, K>>)
        ensures
            old(self).remaining().len() == 0 ==> r is None && final(self).remaining().len() == 0,
            old(self).remaining().len() > 0 ==> (r matches Some(x) && x@ == old(self).remaining()[0]
                && final(self).remaining() == old(self).remaining().drop_first()),
    {
        proof {
            use_type_invariant(&*self);
        }
        let n = self.buf.len();
        let cur = self.current;
        let ghost rest = self.buf@.subrange(cur as int, n as int);
        if n - cur < 2 {
            self.current = n;
            assert(self.buf@.subrange(n as int, n as int).len() == 0);
            return None;
        }
        let len = self.buf[cur + 1] as usize;
        assert(rest[1] == len);
        if len > n - cur - 2 {
            self.current = n;
            assert(self.buf@.subrange(n as int, n as int).len() == 0);
            return None;
        }
        let end = cur + 2 + len;
        self.current = end;
        let rec = KLV { buf: &self.buf[cur..end], _phantom: core::marker::PhantomData };
        proof {
            assert(rest.subrange(2 + len, rest.len() as int) =~= self.buf@.subrange(end as int, n as int));
            assert(rec.buf@.subrange(2, 2 + len) =~= rest.subrange(2, 2 + len));
            assert(records_of(rest).drop_first() =~= records_of(self.buf@.subrange(end as int, n as int)));
        }
        Some(rec)
    }
}

/// The `(tag byte, body)` pairs of dataset records.
pub open spec fn tagged<K: DataSet>(records: Seq<(K, Value)>) -> Seq<(u8, Seq<u8>)> {
    records.map_values(|r: (K, Value)| (r.0.spec_as_byte(), body(r.1@)))
}

/// Whether the records fit the short form (every body at most 255 bytes) and their
/// run fits a BER length.
pub open spec fn encodable<K: DataSet>(records: Seq<(K, Value)>) -> bool {
    &&& forall|i: int| 0 <= i < records.len() ==> body((#[trigger] records[i]).1@).len() <= 255
    &&& short_records(tagged(records)).len() <= MAX_CONTENT_LEN
}

/// The frame that [`encode`] writes for `records`.
pub open spec fn spec_frame<K: DataSet>(records: Seq<(K, Value)>) -> Seq<u8> {
    let content = short_records(tagged(records));
    K::spec_key() + ber_encode(content.len()) + content
}

/// The length of the run of records, or `None` when they are not encodable.
fn contents_len<K: DataSet>(records: &[(K, Value)]) -> (r: Option<usize>)
    ensures
        encodable(records@) ==> r == Some(short_records(tagged(records@)).len() as usize),
        !encodable(records@) ==> r is None,
{
    let mut size: usize = 0;
    let mut i: usize = 0;
    while i < records.len()
        invariant
            0 <= i <= records@.len(),
            size == short_records(tagged(records@.take(i as int))).len(),
            size <= MAX_CONTENT_LEN,
            forall|j: int| 0 <= j < i ==> body((#[trigger] records@[j]).1@).len() <= 255,
        decreases records@.len() - i,
    {
        let len = records[i].1.len();
        proof {
            assert(tagged(records@.take(i + 1)) =~= tagged(records@.take(i as int)).push(
                (records@[i as int].0.spec_as_byte(), body(records@[i as int].1@)),
            ));
            lemma_short_records_push(
                tagged(records@.take(i as int)),
                (records@[i as int].0.spec_as_byte(), body(records@[i as int].1@)),
            );
            crate::record::lemma_short_records_append(
                tagged(records@.take(i + 1)),
                tagged(records@.skip(i + 1)),
            );
            assert(records@ =~= records@.take(i + 1) + records@.skip(i + 1));
            assert(tagged(records@) =~= tagged(records@.take(i + 1)) + tagged(records@.skip(i + 1)));
        }
        if len > 255 {
            return None;
        }
        if 2 + len > MAX_CONTENT_LEN - size {
            return None;
        }
        size = size + 2 + len;
        i = i + 1;
    }
    assert(records@.take(i as int) =~= records@);
    Some(size)
}

/// Whether the records are encodable.
pub fn is_encodable<K: DataSet>(records: &[(K, Value)]) -> (r: bool)
    ensures
        r == encodable(records@),
{
    contents_len(records).is_some()
}

/// The number of bytes that [`encode`] writes for `records`.
pub fn encode_len<K: DataSet>(records: &[(K, Value)]) -> (r: usize)
    requires
        encodable(records@),
        spec_frame(records@).len() <= usize::MAX,
    ensures
        r == spec_frame(records@).len(),
{
    let key = K::key();
    assert(key@.len() == 16);
    match contents_len(records) {
        Some(n) => {
            proof {
                crate::ber::lemma_length_round_trip(n as nat, seq![]);
            }
            16 + LengthOctet::encode_len(n) + n
        },
        None => 0,
    }
}

/// Writes the frame of `records` at the start of `buf` and returns its length:
/// `Encoding` when the records are not encodable, `WriteFailed` when `buf` is too small
/// (`buf` is then left as it was).
pub fn encode<K: DataSet>(buf: &mut [u8], records: &[(K, Value)]) -> (r: Result<usize, ParseError>)
    ensures
        !encodable(records@) ==> r == Err::<usize, ParseError>(ParseError::Encoding) && final(buf)@
            == old(buf)@,
        encodable(records@) && spec_frame(records@).len() > old(buf)@.len() ==> r == Err::<
            usize,
            ParseError,
        >(ParseError::WriteFailed) && final(buf)@ == old(buf)@,
        encodable(records@) && spec_frame(records@).len() <= old(buf)@.len() ==> r == Ok::<
            usize,
            ParseError,
        >(spec_frame(records@).len() as usize) && final(buf)@ == spec_frame(records@) + old(
            buf,
        )@.skip(spec_frame(records@).len() as int),
{
    let clen = match contents_len(records) {
        Some(n) => n,
        None => return Err(ParseError::Encoding),
    };
    let key = K::key();
    let ll = LengthOctet::encode_len(clen);
    proof {
        crate::ber::lemma_length_round_trip(clen as nat, seq![]);
    }
    if buf.len() < KEY_LEN + ll || clen > buf.len() - KEY_LEN - ll {
        return Err(ParseError::WriteFailed);
    }
    let ghost o = old(buf)@;
    let ghost all = tagged(records@);
    let ghost head = K::spec_key() + ber_encode(clen as nat);
    put_bytes(buf, 0, &key);
    length_into(buf, KEY_LEN, clen);
    proof {
        assert(splice(o, 0, K::spec_key()) == splice(o, 0, key@));
        lemma_splice_twice(o, 0, K::spec_key(), ber_encode(clen as nat));
        assert(short_records(tagged(records@.take(0))) =~= Seq::<u8>::empty());
        assert(head + Seq::<u8>::empty() =~= head);
    }
    let mut pos = KEY_LEN + ll;
    let mut i: usize = 0;
    while i < records.len()
        invariant
            0 <= i <= records@.len(),
            encodable(records@),
            all == tagged(records@),
            head == K::spec_key() + ber_encode(clen as nat),
            head.len() == KEY_LEN + ll,
            clen == short_records(all).len(),
            o == old(buf)@,
            buf@.len() == o.len(),
            head.len() + clen <= o.len(),
            pos == head.len() + short_records(tagged(records@.take(i as int))).len(),
            buf@ == splice(o, 0, head + short_records(tagged(records@.take(i as int)))),
        decreases records@.len() - i,
    {
        let (k, v) = (&records[i].0, &records[i].1);
        let ghost rec = (k.spec_as_byte(), body(v@));
        let ghost done = head + short_records(tagged(records@.take(i as int)));
        proof {
            assert(tagged(records@.take(i + 1)) =~= tagged(records@.take(i as int)).push(rec));
            lemma_short_records_push(tagged(records@.take(i as int)), rec);
            crate::record::lemma_short_records_append(
                tagged(records@.take(i + 1)),
                tagged(records@.skip(i + 1)),
            );
            assert(records@ =~= records@.take(i + 1) + records@.skip(i + 1));
            assert(all =~= tagged(records@.take(i + 1)) + tagged(records@.skip(i + 1)));
            assert(body(records@[i as int].1@).len() <= 255);
            assert(buf@.len() == buf.len());
        }
        let len = v.len();
        let ghost b0 = buf@;
        buf[pos] = k.as_byte();
        buf[pos + 1] = len as u8;
        let ghost b1 = buf@;
        assert(b1 =~= splice(b0, pos as int, seq![rec.0, len as u8]));
        v.write_into(buf, pos + 2);
        proof {
            assert(buf@ =~= splice(b0, pos as int, short_record(rec)));
            lemma_splice_twice(o, 0, done, short_record(rec));
            assert(done + short_record(rec) =~= head + short_records(tagged(records@.take(i + 1))));
        }
        pos = pos + 2 + len;
        i = i + 1;
    }
    proof {
        assert(records@.take(i as int) =~= records@);
        assert(head + short_records(all) == spec_frame(records@));
        assert(splice(o, 0, spec_frame(records@)) =~= spec_frame(records@) + o.skip(
            spec_frame(records@).len() as int,
        ));
    }
    Ok(pos)
}

} // verus!
