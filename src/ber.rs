//! BER length octets: the length field of the outer frame and of the reflective records.
use vstd::prelude::*;

use crate::be::{put_be, splice, be_bytes, be_value, lemma_be_bytes_len, lemma_be_round_trip, lemma_be_value_bound, lemma_pow256_mono, lemma_pow256_values, read_be, write_be};
use crate::error::ParseError;

verus! {

/// How the first length octet reads.
#[derive(Debug, Clone, Copy, PartialEq, Eq, Structural)]
pub enum LengthOctet {
    /// Top bit clear: the length itself, 0 to 127.
    Short(u8),
    /// `0x80`: indefinite length, not supported for framing.
    Indefinite,
    /// `0x81` to `0xFE`: the number of big-endian length octets that follow.
    Long(u8),
    /// `0xFF`.
    Reserved,
}

/// The largest content length that a BER length field of this codec carries.
pub const MAX_CONTENT_LEN: usize = 0xFFFF_FFFF;

/// Shortest BER encoding of `n` (`n` at most `0xFFFF_FFFF`).
pub open spec fn ber_encode(n: nat) -> Seq<u8> {
    if n <= 127 {
        seq![n as u8]
    } else if n <= 0xFF {
        seq![0x81u8, n as u8]
    } else if n <= 0xFFFF {
        seq![0x82u8] + be_bytes(n, 2)
    } else {
        seq![0x84u8] + be_bytes(n, 4)
    }
}

/// Decodes the BER length at the start of `s`: the number of octets it takes and the
/// content length it gives.
pub open spec fn ber_decode(s: Seq<u8>) -> Result<(usize, usize), ParseError> {
    if s.len() == 0 {
        Err(ParseError::BufferTooShort)
    } else {
        match LengthOctet::spec_from_u8(s[0]) {
            LengthOctet::Short(x) => Ok((1, x as usize)),
            LengthOctet::Long(k) => {
                if k == 1 || k == 2 || k == 4 {
                    if s.len() < 1 + k {
                        Err(ParseError::BufferTooShort)
                    } else {
                        Ok(((1 + k) as usize, be_value(s.subrange(1, 1 + k)) as usize))
                    }
                } else {
                    Err(ParseError::UnsupportedLength)
                }
            },
            _ => Err(ParseError::UnsupportedLength),
        }
    }
}

impl LengthOctet {
    pub open spec fn spec_from_u8(b: u8) -> LengthOctet {
        if b < 128 {
            LengthOctet::Short(b)
        } else if b == 255 {
            LengthOctet::Reserved
        } else if b == 128 {
            LengthOctet::Indefinite
        } else {
            LengthOctet::Long((b - 128) as u8)
        }
    }

    /// The number of octets of the shortest BER encoding of `size`.
    pub open spec fn spec_encode_len(size: nat) -> nat {
        if size <= 127 {
            1
        } else if size <= 0xFF {
            2
        } else if size <= 0xFFFF {
            3
        } else {
            5
        }
    }

    /// Classifies a first length octet.
    pub fn from_u8(b: u8) -> (r: LengthOctet)
        ensures
            r == Self::spec_from_u8(b),
    {
        proof {
            assert((b & 0x80u8 != 0x80u8) == (b < 128u8)) by (bit_vector);
            assert(b >= 128u8 ==> b & 0x7Fu8 == b - 128u8) by (bit_vector);
            assert(b < 128u8 ==> b & 0x7Fu8 == b) by (bit_vector);
        }
        if b & 0x80 != 0x80 {
            LengthOctet::Short(b & 0x7F)
        } else if b == 255 {
            LengthOctet::Reserved
        } else if b == 128 {
            LengthOctet::Indefinite
        } else {
            LengthOctet::Long(b & 0x7F)
        }
    }

    /// The number of octets that [`LengthOctet::length_to_buf`] writes for `size`.
    pub fn encode_len(size: usize) -> (r: usize)
        ensures
            r == Self::spec_encode_len(size as nat),
    {
        if size <= 127 {
            1
        } else if size <= 0xFF {
            2
        } else if size <= 0xFFFF {
            3
        } else {
            5
        }
    }

    /// Appends the shortest BER encoding of `size` and returns its number of octets.
    pub fn length_to_buf(buf: &mut Vec<u8>, size: usize) -> (r: usize)
        requires
            size <= MAX_CONTENT_LEN,
        ensures
            final(buf)@ == old(buf)@ + ber_encode(size as nat),
            r == Self::spec_encode_len(size as nat),
            r == ber_encode(size as nat).len(),
    {
        proof {
            lemma_be_bytes_len(size as nat, 2);
            lemma_be_bytes_len(size as nat, 4);
        }
        if size <= 127 {
            buf.push(size as u8);
            proof {
                assert(final(buf)@ =~= old(buf)@ + ber_encode(size as nat));
            }
            1
        } else if size <= 0xFF {
            buf.push(0x81);
            buf.push(size as u8);
            proof {
                assert(final(buf)@ =~= old(buf)@ + ber_encode(size as nat));
            }
            2
        } else if size <= 0xFFFF {
            buf.push(0x82);
            write_be(buf, size as u64, 2);
            proof {
                assert(final(buf)@ =~= old(buf)@ + ber_encode(size as nat));
            }
            3
        } else {
            buf.push(0x84);
            write_be(buf, size as u64, 4);
            proof {
                assert(final(buf)@ =~= old(buf)@ + ber_encode(size as nat));
            }
            5
        }
    }
}

/// Writes the shortest BER encoding of `size` into `buf` at `at` and returns its number
/// of octets.
pub fn length_into(buf: &mut [u8], at: usize, size: usize) -> (r: usize)
    requires
        size <= MAX_CONTENT_LEN,
        at + LengthOctet::spec_encode_len(size as nat) <= old(buf)@.len(),
    ensures
        final(buf)@ == splice(old(buf)@, at as int, ber_encode(size as nat)),
        r == LengthOctet::spec_encode_len(size as nat),
        r == ber_encode(size as nat).len(),
{
    proof {
        lemma_be_bytes_len(size as nat, 2);
        lemma_be_bytes_len(size as nat, 4);
    }
    if size <= 127 {
        buf[at] = size as u8;
        assert(buf@ =~= splice(old(buf)@, at as int, ber_encode(size as nat)));
        1
    } else if size <= 0xFF {
        buf[at] = 0x81;
        buf[at + 1] = size as u8;
        assert(buf@ =~= splice(old(buf)@, at as int, ber_encode(size as nat)));
        2
    } else if size <= 0xFFFF {
        buf[at] = 0x82;
        put_be(buf, at + 1, size as u64, 2);
        assert(buf@ =~= splice(old(buf)@, at as int, ber_encode(size as nat)));
        3
    } else {
        buf[at] = 0x84;
        put_be(buf, at + 1, size as u64, 4);
        assert(buf@ =~= splice(old(buf)@, at as int, ber_encode(size as nat)));
        5
    }
}

/// Decodes the BER length at the start of `buf`: `(octets taken, content length)`.
pub fn parse_length(buf: &[u8]) -> (r: Result<(usize, usize), ParseError>)
    ensures
        r == ber_decode(buf@),
{
    if buf.len() == 0 {
        return Err(ParseError::BufferTooShort);
    }
    match LengthOctet::from_u8(buf[0]) {
        LengthOctet::Short(x) => Ok((1, x as usize)),
        LengthOctet::Long(k) => {
            if k == 1 || k == 2 || k == 4 {
                let k = k as usize;
                if buf.len() < 1 + k {
                    Err(ParseError::BufferTooShort)
                } else {
                    let v = read_be(buf, 1, k);
                    proof {
                        lemma_be_value_bound(buf@.subrange(1, 1 + k));
                        lemma_pow256_values();
                        lemma_pow256_mono(k as nat, 4);
                    }
                    Ok((1 + k, v as usize))
                }
            } else {
                Err(ParseError::UnsupportedLength)
            }
        },
        _ => Err(ParseError::UnsupportedLength),
    }
}

/// Encoding a length and decoding it again gives the length back, whatever follows it,
/// and the encoding takes the number of octets that the shortest form needs.
pub proof fn lemma_length_round_trip(n: nat, rest: Seq<u8>)
    requires
        n <= MAX_CONTENT_LEN,
    ensures
        ber_decode(ber_encode(n) + rest) == Ok::<(usize, usize), ParseError>(
            (LengthOctet::spec_encode_len(n) as usize, n as usize),
        ),
        ber_encode(n).len() == LengthOctet::spec_encode_len(n),
{
    lemma_pow256_values();
    let s = ber_encode(n) + rest;
    if n <= 127 {
    } else if n <= 0xFF {
        lemma_be_round_trip(n, 1);
        assert(be_bytes(n, 1) =~= seq![n as u8]);
        assert(s.subrange(1, 2) =~= seq![n as u8]);
    } else if n <= 0xFFFF {
        lemma_be_round_trip(n, 2);
        assert(s.subrange(1, 3) =~= be_bytes(n, 2));
    } else {
        lemma_be_round_trip(n, 4);
        assert(s.subrange(1, 5) =~= be_bytes(n, 4));
    }
}

/// No BER length field that this codec reads gives `n` in fewer octets than the
/// encoder writes.
pub proof fn lemma_length_minimal(s: Seq<u8>)
    requires
        ber_decode(s) is Ok,
    ensures
        ber_decode(s)->Ok_0.0 >= LengthOctet::spec_encode_len(ber_decode(s)->Ok_0.1 as nat),
{
    lemma_pow256_values();
    if s[0] >= 128 {
        let k = (s[0] - 128) as int;
        lemma_be_value_bound(s.subrange(1, 1 + k));
    }
}

} // verus!
