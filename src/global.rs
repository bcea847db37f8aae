//! The outer frame: a 16-byte universal key, a BER length and the content.
use vstd::prelude::*;

use crate::ber::{ber_decode, ber_encode, lemma_length_round_trip, parse_length, LengthOctet, MAX_CONTENT_LEN};
use crate::error::ParseError;

verus! {

/// The length of a universal key.
pub const KEY_LEN: usize = 16;

/// The shortest frame: a key, one length octet and one more byte.
pub const MINIMUM_LEN: usize = 18;

/// Where the content of the frame `s` lies, as `(start, end)`, as its length field gives
/// it: an error when the length field is unsupported or its octets are cut short. The
/// end may lie past the end of `s`; `BufferTooShort` comes only where it exceeds every
/// possible buffer size.
pub open spec fn spec_content_range(s: Seq<u8>) -> Result<(usize, usize), ParseError> {
    match ber_decode(s.subrange(16, s.len() as int)) {
        Ok((ll, cl)) => {
            if 16 + ll + cl <= usize::MAX {
                Ok(((16 + ll) as usize, (16 + ll + cl) as usize))
            } else {
                Err(ParseError::BufferTooShort)
            }
        },
        Err(e) => Err(e),
    }
}

/// The content of the frame `s`, empty when its range is absent or runs past the end
/// of `s`.
pub open spec fn spec_content(s: Seq<u8>) -> Seq<u8> {
    match spec_content_range(s) {
        Ok((a, b)) => if b <= s.len() {
            s.subrange(a as int, b as int)
        } else {
            Seq::empty()
        },
        Err(_) => Seq::empty(),
    }
}

/// The frame that [`write_global`] writes.
pub open spec fn spec_global(key: Seq<u8>, content: Seq<u8>) -> Seq<u8> {
    key + ber_encode(content.len()) + content
}

/// A view over a whole outer frame; it holds at least [`MINIMUM_LEN`] bytes.
pub struct KLVGlobal<'buf> {
    buf: &'buf [u8],
}

impl<'buf> View for KLVGlobal<'buf> {
    type V = Seq<u8>;

    closed spec fn view(&self) -> Seq<u8> {
        self.buf@
    }
}

impl<'buf> KLVGlobal<'buf> {
    #[verifier::type_invariant]
    closed spec fn inv(&self) -> bool {
        self.buf@.len() >= MINIMUM_LEN
    }

    /// A view over `buf`, or `BufferTooShort` when it is shorter than a minimal frame.
    pub fn try_from_bytes(buf: &'buf [u8]) -> (r: Result<Self, ParseError>)
        ensures
            buf@.len() < MINIMUM_LEN ==> r == Err::<Self, ParseError>(ParseError::BufferTooShort),
            buf@.len() >= MINIMUM_LEN ==> (r matches Ok(g) && g@ == buf@),
    {
        if buf.len() < MINIMUM_LEN {
            Err(ParseError::BufferTooShort)
        } else {
            Ok(Self::from_bytes(buf))
        }
    }

    /// A view over `buf`, which holds at least a minimal frame.
    pub fn from_bytes(buf: &'buf [u8]) -> (r: Self)
        requires
            buf@.len() >= MINIMUM_LEN,
        ensures
            r@ == buf@,
    {
        Self { buf }
    }

    /// The universal key: the first 16 bytes.
    pub fn key(&self) -> (r: &'buf [u8])
        ensures
            r@ == self@.subrange(0, 16),
    {
        proof {
            use_type_invariant(self);
        }
        &self.buf[0..KEY_LEN]
    }

    /// Whether the universal key is `key`.
    pub fn key_is(&self, key: &[u8]) -> (r: bool)
        ensures
            r == (key@ == self@.subrange(0, 16)),
    {
        proof {
            use_type_invariant(self);
        }
        if key.len() != KEY_LEN {
            return false;
        }
        let mut i: usize = 0;
        while i < KEY_LEN
            invariant
                key@.len() == 16,
                self.buf@.len() >= 16,
                0 <= i <= 16,
                key@.subrange(0, i as int) == self.buf@.subrange(0, i as int),
            decreases 16 - i,
        {
            if key[i] != self.buf[i] {
                assert(key@[i as int] != self.buf@.subrange(0, 16)[i as int]);
                return false;
            }
            assert(key@.subrange(0, i + 1) =~= self.buf@.subrange(0, i + 1)) by {
                assert(key@.subrange(0, i as int) =~= self.buf@.subrange(0, i as int));
            }
            i += 1;
        }
        assert(key@ =~= key@.subrange(0, 16));
        true
    }

    /// Where the content lies, as `(start, end)`; an error when the length field is
    /// unsupported or cut short. The end may lie past the end of the frame.
    pub fn content_range(&self) -> (r: Result<(usize, usize), ParseError>)
        ensures
            r == spec_content_range(self@),
    {
        proof {
            use_type_invariant(self);
        }
        match parse_length(&self.buf[KEY_LEN..self.buf.len()]) {
            Ok((ll, cl)) => {
                if cl <= usize::MAX - KEY_LEN - ll {
                    Ok((KEY_LEN + ll, KEY_LEN + ll + cl))
                } else {
                    Err(ParseError::BufferTooShort)
                }
            },
            Err(e) => Err(e),
        }
    }

    /// The content, or an empty slice when [`KLVGlobal::content_range`] fails or the
    /// content runs past the end of the frame.
    pub fn content(&self) -> (r: &'buf [u8])
        ensures
            r@ == spec_content(self@),
    {
        match self.content_range() {
            Ok((start, end)) => {
                if end > self.buf.len() {
                    return &self.buf[0..0];
                }
                &self.buf[start..end]
            },
            Err(_) => &self.buf[0..0],
        }
    }
}

/// Appends a whole frame (`key`, the BER length of `content`, `content`) to `buf` and
/// returns the number of bytes written.
pub fn write_global(buf: &mut Vec<u8>, key: &[u8], content: &[u8]) -> (r: Result<usize, ParseError>)
    ensures
        key@.len() != 16 ==> r == Err::<usize, ParseError>(ParseError::InvalidKey) && final(buf)@
            == old(buf)@,
        key@.len() == 16 && content@.len() > MAX_CONTENT_LEN ==> r == Err::<usize, ParseError>(
            ParseError::Encoding,
        ) && final(buf)@ == old(buf)@,
        key@.len() == 16 && content@.len() <= MAX_CONTENT_LEN ==> r == Ok::<usize, ParseError>(
            spec_global(key@, content@).len() as usize,
        ) && final(buf)@ == old(buf)@ + spec_global(key@, content@),
{
    if key.len() != KEY_LEN {
        return Err(ParseError::InvalidKey);
    }
    if content.len() > MAX_CONTENT_LEN {
        return Err(ParseError::Encoding);
    }
    let start = buf.len();
    buf.extend_from_slice(key);
    LengthOctet::length_to_buf(buf, content.len());
    buf.extend_from_slice(content);
    proof {
        assert(buf@ =~= old(buf)@ + spec_global(key@, content@));
    }
    Ok(buf.len() - start)
}

/// A frame written from a 16-byte key and some content reads back as that key and
/// that content.
pub proof fn lemma_global_round_trip(key: Seq<u8>, content: Seq<u8>)
    requires
        key.len() == 16,
        content.len() <= MAX_CONTENT_LEN,
        spec_global(key, content).len() <= usize::MAX,
    ensures
        spec_global(key, content).subrange(0, 16) == key,
        spec_content(spec_global(key, content)) == content,
        spec_global(key, content).len() >= MINIMUM_LEN <==> content.len() > 0,
{
    let w = spec_global(key, content);
    let n = content.len();
    lemma_length_round_trip(n, content);
    assert(w.subrange(16, w.len() as int) =~= ber_encode(n) + content);
    assert(w.subrange(0, 16) =~= key);
    let ll = LengthOctet::spec_encode_len(n) as int;
    assert(w.subrange(16 + ll, 16 + ll + n) =~= content);
}

} // verus!
