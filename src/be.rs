//! Big-endian integers over byte sequences.
use vstd::prelude::*;

verus! {

/// `256` raised to `w`.
pub open spec fn pow256(w: nat) -> nat
    decreases w,
{
    if w == 0 {
        1
    } else {
        256 * pow256((w - 1) as nat)
    }
}

/// The unsigned big-endian value of a byte sequence.
pub open spec fn be_value(s: Seq<u8>) -> nat
    decreases s.len(),
{
    if s.len() == 0 {
        0
    } else {
        be_value(s.drop_last()) * 256 + s.last() as nat
    }
}

/// The `w` low-order bytes of `n`, most significant first.
pub open spec fn be_bytes(n: nat, w: nat) -> Seq<u8>
    decreases w,
{
    if w == 0 {
        seq![]
    } else {
        be_bytes(n / 256, (w - 1) as nat).push((n % 256) as u8)
    }
}

pub proof fn lemma_pow256_values()
    ensures
        pow256(1) == 0x100,
        pow256(2) == 0x1_0000,
        pow256(4) == 0x1_0000_0000,
        pow256(8) == 0x1_0000_0000_0000_0000,
{
    reveal_with_fuel(pow256, 9);
}

pub proof fn lemma_pow256_mono(a: nat, b: nat)
    requires
        a <= b,
    ensures
        pow256(a) <= pow256(b),
        pow256(a) >= 1,
    decreases b,
{
    if b > 0 && a < b {
        lemma_pow256_mono(a, (b - 1) as nat);
    } else if a > 0 {
        lemma_pow256_mono((a - 1) as nat, (a - 1) as nat);
    }
}

pub proof fn lemma_be_value_bound(s: Seq<u8>)
    ensures
        be_value(s) < pow256(s.len()),
    decreases s.len(),
{
    if s.len() > 0 {
        lemma_be_value_bound(s.drop_last());
        let p = pow256((s.len() - 1) as nat);
        let v = be_value(s.drop_last());
        assert(v * 256 + s.last() < 256 * p) by (nonlinear_arith)
            requires
                v < p,
                s.last() < 256,
        ;
    }
}

pub proof fn lemma_be_bytes_len(n: nat, w: nat)
    ensures
        be_bytes(n, w).len() == w,
    decreases w,
{
    if w > 0 {
        lemma_be_bytes_len(n / 256, (w - 1) as nat);
    }
}

/// Writing `n` on `w` bytes and reading it back gives `n` when it fits.
pub proof fn lemma_be_round_trip(n: nat, w: nat)
    requires
        n < pow256(w),
    ensures
        be_value(be_bytes(n, w)) == n,
        be_bytes(n, w).len() == w,
    decreases w,
{
    lemma_be_bytes_len(n, w);
    if w > 0 {
        let p = pow256((w - 1) as nat);
        assert(n / 256 < p) by (nonlinear_arith)
            requires
                n < 256 * p,
        ;
        lemma_be_round_trip(n / 256, (w - 1) as nat);
        let s = be_bytes(n, w);
        assert(s.drop_last() =~= be_bytes(n / 256, (w - 1) as nat));
        assert((n / 256) * 256 + n % 256 == n) by (nonlinear_arith);
    }
}

/// The big-endian value of the `w` bytes of `b` that start at `at`.
pub fn read_be(b: &[u8], at: usize, w: usize) -> (r: u64)
    requires
        at + w <= b@.len(),
        w <= 8,
    ensures
        r == be_value(b@.subrange(at as int, at + w)),
    decreases w,
{
    if w == 0 {
        proof {
            assert(b@.subrange(at as int, at as int).len() == 0);
        }
        0
    } else {
        let hi = read_be(b, at, w - 1);
        assert(b@.len() == b.len());
        let lo = b[at + (w - 1)];
        proof {
            let s = b@.subrange(at as int, at + w);
            assert(s.drop_last() =~= b@.subrange(at as int, at + w - 1));
            lemma_be_value_bound(s.drop_last());
            lemma_pow256_mono((w - 1) as nat, 7);
            reveal_with_fuel(pow256, 8);
            assert(pow256(7) == 0x100_0000_0000_0000);
            assert(hi * 256 + lo < 0x1_0000_0000_0000_0000) by (nonlinear_arith)
                requires
                    hi < 0x100_0000_0000_0000,
                    lo < 256,
            ;
        }
        hi * 256 + lo as u64
    }
}

/// Appends the `w` low-order bytes of `n`, most significant first.
pub fn write_be(out: &mut Vec<u8>, n: u64, w: usize)
    ensures
        final(out)@ == old(out)@ + be_bytes(n as nat, w as nat),
    decreases w,
{
    if w == 0 {
        proof {
            assert(old(out)@ + be_bytes(n as nat, 0) =~= old(out)@);
        }
    } else {
        write_be(out, n / 256, w - 1);
        out.push((n % 256) as u8);
        proof {
            assert(be_bytes(n as nat, w as nat) == be_bytes((n / 256) as nat, (w - 1) as nat).push(
                (n % 256) as u8,
            ));
            assert(final(out)@ =~= old(out)@ + be_bytes(n as nat, w as nat));
        }
    }
}

/// `s` with the bytes from `at` on replaced by `b`.
pub open spec fn splice(s: Seq<u8>, at: int, b: Seq<u8>) -> Seq<u8> {
    s.subrange(0, at) + b + s.subrange(at + b.len(), s.len() as int)
}

/// Splicing `p` at `at` and then `q` right after it splices `p + q` at `at`.
pub proof fn lemma_splice_twice(s: Seq<u8>, at: int, p: Seq<u8>, q: Seq<u8>)
    requires
        0 <= at,
        at + p.len() + q.len() <= s.len(),
    ensures
        splice(splice(s, at, p), at + p.len(), q) == splice(s, at, p + q),
{
    assert(splice(splice(s, at, p), at + p.len(), q) =~= splice(s, at, p + q));
}

/// Writes the `w` low-order bytes of `n`, most significant first, into `buf` at `at`.
pub fn put_be(buf: &mut [u8], at: usize, n: u64, w: usize)
    requires
        at + w <= old(buf)@.len(),
    ensures
        final(buf)@ == splice(old(buf)@, at as int, be_bytes(n as nat, w as nat)),
    decreases w,
{
    proof {
        lemma_be_bytes_len(n as nat, w as nat);
    }
    if w == 0 {
        assert(splice(old(buf)@, at as int, be_bytes(n as nat, 0)) =~= old(buf)@);
    } else {
        proof {
            lemma_be_bytes_len((n / 256) as nat, (w - 1) as nat);
        }
        put_be(buf, at, n / 256, w - 1);
        assert(buf@.len() == buf.len());
        buf[at + (w - 1)] = (n % 256) as u8;
        proof {
            assert(be_bytes(n as nat, w as nat) == be_bytes((n / 256) as nat, (w - 1) as nat).push(
                (n % 256) as u8,
            ));
            assert(buf@ =~= splice(old(buf)@, at as int, be_bytes(n as nat, w as nat)));
        }
    }
}

/// Copies `src` into `buf` at `at`.
pub fn put_bytes(buf: &mut [u8], at: usize, src: &[u8])
    requires
        at + src@.len() <= old(buf)@.len(),
    ensures
        final(buf)@ == splice(old(buf)@, at as int, src@),
{
    let mut i: usize = 0;
    while i < src.len()
        invariant
            0 <= i <= src@.len(),
            at + src@.len() <= old(buf)@.len(),
            buf@ == splice(old(buf)@, at as int, src@.take(i as int)),
        decreases src@.len() - i,
    {
        assert(buf@.len() == buf.len());
        buf[at + i] = src[i];
        assert(buf@ =~= splice(old(buf)@, at as int, src@.take(i + 1)));
        i += 1;
    }
    assert(src@.take(i as int) =~= src@);
}

} // verus!
