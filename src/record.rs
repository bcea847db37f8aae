//! Short-form records (one tag octet, one length octet, the content) and the reader
//! that walks a run of them.
use vstd::prelude::*;

verus! {

/// The records that a reader yields from `s`, in order, as `(tag, content)`. The walk
/// stops at the end of `s`, and also where a header or a content would run past it.
pub open spec fn records_of(s: Seq<u8>) -> Seq<(u8, Seq<u8>)>
    decreases s.len(),
{
    if s.len() < 2 || 2 + s[1] > s.len() {
        seq![]
    } else {
        seq![(s[0], s.subrange(2, 2 + s[1]))] + records_of(s.subrange(2 + s[1], s.len() as int))
    }
}

/// The short-form encoding of one record.
pub open spec fn short_record(r: (u8, Seq<u8>)) -> Seq<u8> {
    seq![r.0, r.1.len() as u8] + r.1
}

/// The short-form encodings of `recs`, one after the other.
pub open spec fn short_records(recs: Seq<(u8, Seq<u8>)>) -> Seq<u8>
    decreases recs.len(),
{
    if recs.len() == 0 {
        seq![]
    } else {
        short_record(recs[0]) + short_records(recs.drop_first())
    }
}

/// Encoding two runs of records one after the other is encoding their concatenation.
pub proof fn lemma_short_records_append(a: Seq<(u8, Seq<u8>)>, b: Seq<(u8, Seq<u8>)>)
    ensures
        short_records(a + b) == short_records(a) + short_records(b),
    decreases a.len(),
{
    if a.len() == 0 {
        assert(a + b =~= b);
        assert(short_records(a) + short_records(b) =~= short_records(b));
    } else {
        lemma_short_records_append(a.drop_first(), b);
        assert((a + b).drop_first() =~= a.drop_first() + b);
        assert((a + b)[0] == a[0]);
        assert(short_records(a + b) =~= short_record(a[0]) + (short_records(a.drop_first()) + short_records(b)));
    }
}

/// Encoding one more record appends its encoding.
pub proof fn lemma_short_records_push(a: Seq<(u8, Seq<u8>)>, r: (u8, Seq<u8>))
    ensures
        short_records(a.push(r)) == short_records(a) + short_record(r),
{
    lemma_short_records_append(a, seq![r]);
    assert(a.push(r) =~= a + seq![r]);
    assert(seq![r].drop_first() =~= Seq::<(u8, Seq<u8>)>::empty());
    assert(short_records(Seq::<(u8, Seq<u8>)>::empty()) =~= Seq::<u8>::empty());
    assert(seq![r][0] == r);
    assert(short_records(seq![r]) =~= short_record(r) + Seq::<u8>::empty());
}

/// One record: a tag octet, a length octet, and at least that many content octets.
#[derive(Debug)]
pub struct KLVRaw<'buf> {
    buf: &'buf [u8],
}

impl<'buf> View for KLVRaw<'buf> {
    type V = (u8, Seq<u8>);

    /// The tag and the content.
    closed spec fn view(&self) -> (u8, Seq<u8>) {
        (self.buf@[0], self.buf@.subrange(2, 2 + self.buf@[1]))
    }
}

impl<'buf> KLVRaw<'buf> {
    #[verifier::type_invariant]
    closed spec fn inv(&self) -> bool {
        self.buf@.len() >= 2 && 2 + self.buf@[1] <= self.buf@.len()
    }

    /// A record over `buf`, which starts with a whole record.
    pub fn from_bytes(buf: &'buf [u8]) -> (r: Self)
        requires
            buf@.len() >= 2,
            2 + buf@[1] <= buf@.len(),
        ensures
            r@ == (buf@[0], buf@.subrange(2, 2 + buf@[1])),
    {
        Self { buf }
    }

    /// The tag.
    pub fn key(&self) -> (r: u8)
        ensures
            r == self@.0,
    {
        proof {
            use_type_invariant(self);
        }
        self.buf[0]
    }

    /// The declared content length.
    pub fn len(&self) -> (r: usize)
        ensures
            r == self@.1.len(),
    {
        proof {
            use_type_invariant(self);
        }
        self.buf[1] as usize
    }

    /// The content.
    pub fn content(&self) -> (r: &'buf [u8])
        ensures
            r@ == self@.1,
    {
        proof {
            use_type_invariant(self);
        }
        let end = 2 + self.buf[1] as usize;
        &self.buf[2..end]
    }

    /// The content, under the name that callers of the value accessor know.
    pub fn value(&self) -> (r: &'buf [u8])
        ensures
            r@ == self@.1,
    {
        self.content()
    }
}

/// Walks a run of short-form records from its start.
pub struct KLVRawReader<'buf> {
    buf: &'buf [u8],
    current: usize,
}

impl<'buf> KLVRawReader<'buf> {
    #[verifier::type_invariant]
    closed spec fn inv(&self) -> bool {
        self.current <= self.buf@.len()
    }

    /// The records still to come.
    pub closed spec fn remaining(&self) -> Seq<(u8, Seq<u8>)> {
        records_of(self.buf@.subrange(self.current as int, self.buf@.len() as int))
    }

    /// A reader at the start of `buf`.
    pub fn from_bytes(buf: &'buf [u8]) -> (r: Self)
        ensures
            r.remaining() == records_of(buf@),
    {
        let r = Self { buf, current: 0 };
        assert(buf@.subrange(0, buf@.len() as int) =~= buf@);
        r
    }

    /// The next record, or `None` when the run has ended or the rest is truncated.
    pub fn next(&mut self) -> (r: Option<KLVRaw<'buf>>)
        ensures
            old(self).remaining().len() == 0 ==> r is None && final(self).remaining().len() == 0,
            old(self).remaining().len() > 0 ==> (r matches Some(x) && x@ == old(self).remaining()[0]
                && final(self).remaining() == old(self).remaining().drop_first()),
    {
        proof {
            use_type_invariant(&*self);
        }
        let n = self.buf.len();
        let cur = self.current;
        let ghost rest = self.buf@.subrange(cur as int, n as int);
        if n - cur < 2 {
            self.current = n;
            assert(self.buf@.subrange(n as int, n as int).len() == 0);
            return None;
        }
        let len = self.buf[cur + 1] as usize;
        assert(rest[1] == len);
        if len > n - cur - 2 {
            self.current = n;
            assert(self.buf@.subrange(n as int, n as int).len() == 0);
            return None;
        }
        let end = cur + 2 + len;
        self.current = end;
        let raw = KLVRaw { buf: &self.buf[cur..end] };
        proof {
            assert(rest.subrange(2 + len, rest.len() as int) =~= self.buf@.subrange(end as int, n as int));
            assert(raw.buf@.subrange(2, 2 + len) =~= rest.subrange(2, 2 + len));
            assert(records_of(rest).drop_first() =~= records_of(self.buf@.subrange(end as int, n as int)));
        }
        Some(raw)
    }
}

/// A run of records written in short form reads back as the same records, in the same
/// order, when each content is at most 255 bytes long.
pub proof fn lemma_records_round_trip(recs: Seq<(u8, Seq<u8>)>)
    requires
        forall|i: int| 0 <= i < recs.len() ==> (#[trigger] recs[i]).1.len() <= 255,
    ensures
        records_of(short_records(recs)) == recs,
    decreases recs.len(),
{
    if recs.len() == 0 {
        assert(records_of(seq![]) == Seq::<(u8, Seq<u8>)>::empty());
        assert(recs =~= Seq::<(u8, Seq<u8>)>::empty());
    } else {
        let rest = recs.drop_first();
        assert forall|i: int| 0 <= i < rest.len() implies (#[trigger] rest[i]).1.len() <= 255 by {
            assert(rest[i] == recs[i + 1]);
        }
        lemma_records_round_trip(rest);
        let s = short_records(recs);
        let (t, v) = recs[0];
        let l = v.len() as int;
        assert(recs[0].1.len() <= 255);
        assert(s[1] == l);
        assert(s[0] == t);
        assert(s.subrange(2, 2 + l) =~= v);
        assert(s.subrange(2 + l, s.len() as int) =~= short_records(rest));
        assert(recs =~= seq![recs[0]] + rest);
    }
}

} // verus!
