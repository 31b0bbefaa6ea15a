//! Fixed-width integers on the wire, and a cursor over a byte slice.

use vstd::prelude::*;

verus! {

/// Byte `i` of `x`, counted from the least significant, for `i` below four.
#[verifier::opaque]
pub open spec fn byte_of(x: u32, i: int) -> u8 {
    if i == 0 {
        (x % 256) as u8
    } else if i == 1 {
        (x / 0x100 % 256) as u8
    } else if i == 2 {
        (x / 0x1_0000 % 256) as u8
    } else {
        (x / 0x100_0000 % 256) as u8
    }
}

/// The number with the bytes `b0` to `b3`, `b0` the least significant.
#[verifier::opaque]
pub open spec fn joined(b0: u8, b1: u8, b2: u8, b3: u8) -> u32 {
    (b0 as int + 0x100 * (b1 as int) + 0x1_0000 * (b2 as int) + 0x100_0000 * (b3 as int)) as u32
}

/// Taking a number apart and joining its bytes are inverse to each other.
pub proof fn lemma_bytes_joined(x: u32, b0: u8, b1: u8, b2: u8, b3: u8)
    ensures
        joined(byte_of(x, 0), byte_of(x, 1), byte_of(x, 2), byte_of(x, 3)) == x,
        byte_of(joined(b0, b1, b2, b3), 0) == b0,
        byte_of(joined(b0, b1, b2, b3), 1) == b1,
        byte_of(joined(b0, b1, b2, b3), 2) == b2,
        byte_of(joined(b0, b1, b2, b3), 3) == b3,
{
    reveal(byte_of);
    reveal(joined);
    let y = joined(b0, b1, b2, b3);
    let (a, b, c, d) = (b0 as int, b1 as int, b2 as int, b3 as int);
    assert(y == a + 0x100 * (b + 0x100 * (c + 0x100 * d)));
    assert(y % 256 == a);
    assert(y / 0x100 == b + 0x100 * (c + 0x100 * d));
    assert(y / 0x1_0000 == c + 0x100 * d);
    assert(y / 0x100_0000 == d);
}

/// The four bytes of `x`, least significant first.
pub open spec fn le32(x: u32) -> Seq<u8> {
    seq![byte_of(x, 0), byte_of(x, 1), byte_of(x, 2), byte_of(x, 3)]
}

/// The number whose little-endian bytes are the first four of `s`.
pub open spec fn le32_value(s: Seq<u8>) -> u32
    recommends
        s.len() >= 4,
{
    joined(s[0], s[1], s[2], s[3])
}

/// The low half of `x`.
#[verifier::opaque]
pub open spec fn low_half(x: u64) -> u32 {
    (x % 0x1_0000_0000) as u32
}

/// The high half of `x`.
#[verifier::opaque]
pub open spec fn high_half(x: u64) -> u32 {
    (x / 0x1_0000_0000) as u32
}

/// The number with the given halves.
#[verifier::opaque]
pub open spec fn of_halves(high: u32, low: u32) -> u64 {
    (low as int + 0x1_0000_0000 * (high as int)) as u64
}

/// Halving a number and putting the halves together are inverse to each other.
pub proof fn lemma_halves(x: u64, high: u32, low: u32)
    ensures
        of_halves(high_half(x), low_half(x)) == x,
        high_half(of_halves(high, low)) == high,
        low_half(of_halves(high, low)) == low,
{
    reveal(low_half);
    reveal(high_half);
    reveal(of_halves);
}

/// The eight bytes of `x`, least significant first.
pub open spec fn le64(x: u64) -> Seq<u8> {
    le32(low_half(x)) + le32(high_half(x))
}

/// The number whose little-endian bytes are the first eight of `s`.
pub open spec fn le64_value(s: Seq<u8>) -> u64
    recommends
        s.len() >= 8,
{
    of_halves(le32_value(s.skip(4)), le32_value(s))
}

/// The four bytes of `x`, most significant first.
pub open spec fn be32(x: u32) -> Seq<u8> {
    seq![byte_of(x, 3), byte_of(x, 2), byte_of(x, 1), byte_of(x, 0)]
}

/// The number whose big-endian bytes are the first four of `s`.
pub open spec fn be32_value(s: Seq<u8>) -> u32
    recommends
        s.len() >= 4,
{
    joined(s[3], s[2], s[1], s[0])
}

/// The eight bytes of `x`, most significant first.
pub open spec fn be64(x: u64) -> Seq<u8> {
    be32(high_half(x)) + be32(low_half(x))
}

/// The number whose big-endian bytes are the first eight of `s`.
pub open spec fn be64_value(s: Seq<u8>) -> u64
    recommends
        s.len() >= 8,
{
    of_halves(be32_value(s), be32_value(s.skip(4)))
}

/// Decoding undoes encoding, whatever follows the four bytes.
pub proof fn lemma_le32_round_trip(x: u32, rest: Seq<u8>)
    ensures
        le32(x).len() == 4,
        le32_value(le32(x) + rest) == x,
        (le32(x) + rest).skip(4) == rest,
{
    let s = le32(x) + rest;
    lemma_bytes_joined(x, 0, 0, 0, 0);
    assert(s[0] == le32(x)[0]);
    assert(s[1] == le32(x)[1]);
    assert(s[2] == le32(x)[2]);
    assert(s[3] == le32(x)[3]);
    assert(s.skip(4) =~= rest);
}

/// Decoding undoes encoding, whatever follows the eight bytes.
pub proof fn lemma_le64_round_trip(x: u64, rest: Seq<u8>)
    ensures
        le64(x).len() == 8,
        le64_value(le64(x) + rest) == x,
        (le64(x) + rest).skip(8) == rest,
{
    let lo = low_half(x);
    let hi = high_half(x);
    let s = le64(x) + rest;
    lemma_halves(x, 0, 0);
    lemma_le32_round_trip(lo, le32(hi) + rest);
    lemma_le32_round_trip(hi, rest);
    assert(s =~= le32(lo) + (le32(hi) + rest));
    assert(s.skip(4) =~= le32(hi) + rest);
    assert(s.skip(8) =~= rest);
}

/// Decoding undoes encoding, whatever follows the four bytes.
pub proof fn lemma_be32_round_trip(x: u32, rest: Seq<u8>)
    ensures
        be32(x).len() == 4,
        be32_value(be32(x) + rest) == x,
        (be32(x) + rest).skip(4) == rest,
{
    let s = be32(x) + rest;
    lemma_bytes_joined(x, 0, 0, 0, 0);
    assert(s[0] == be32(x)[0]);
    assert(s[1] == be32(x)[1]);
    assert(s[2] == be32(x)[2]);
    assert(s[3] == be32(x)[3]);
    assert(s.skip(4) =~= rest);
}

/// Encoding undoes decoding of exactly four bytes.
pub proof fn lemma_be32_of_value(s: Seq<u8>)
    requires
        s.len() == 4,
    ensures
        be32(be32_value(s)) == s,
{
    lemma_bytes_joined(0, s[3], s[2], s[1], s[0]);
    assert(be32(be32_value(s)) =~= s);
}

/// Decoding undoes encoding, whatever follows the eight bytes.
pub proof fn lemma_be64_round_trip(x: u64, rest: Seq<u8>)
    ensures
        be64(x).len() == 8,
        be64_value(be64(x) + rest) == x,
        (be64(x) + rest).skip(8) == rest,
{
    let lo = low_half(x);
    let hi = high_half(x);
    let s = be64(x) + rest;
    lemma_halves(x, 0, 0);
    lemma_be32_round_trip(hi, be32(lo) + rest);
    lemma_be32_round_trip(lo, rest);
    assert(s =~= be32(hi) + (be32(lo) + rest));
    assert(s.skip(4) =~= be32(lo) + rest);
    assert(s.skip(8) =~= rest);
}

/// Encoding undoes decoding of exactly eight bytes.
pub proof fn lemma_be64_of_value(s: Seq<u8>)
    requires
        s.len() == 8,
    ensures
        be64(be64_value(s)) == s,
{
    let hi = be32_value(s);
    let lo = be32_value(s.skip(4));
    lemma_halves(0, hi, lo);
    lemma_be32_of_value(s.take(4));
    lemma_be32_of_value(s.skip(4));
    assert(be32_value(s.take(4)) == hi);
    assert(be64(be64_value(s)) =~= s.take(4) + s.skip(4));
    assert(s.take(4) + s.skip(4) =~= s);
}

/// Appends the little-endian bytes of `x`.
pub fn put_u32(buf: &mut Vec<u8>, x: u32)
    ensures
        final(buf)@ == old(buf)@ + le32(x),
{
    proof {
        reveal(byte_of);
    }
    buf.push((x % 256) as u8);
    buf.push((x / 0x100 % 256) as u8);
    buf.push((x / 0x1_0000 % 256) as u8);
    buf.push((x / 0x100_0000 % 256) as u8);
    assert(buf@ =~= old(buf)@ + le32(x));
}

/// Appends the little-endian bytes of `x`.
pub fn put_u64(buf: &mut Vec<u8>, x: u64)
    ensures
        final(buf)@ == old(buf)@ + le64(x),
{
    proof {
        reveal(low_half);
        reveal(high_half);
    }
    put_u32(buf, (x % 0x1_0000_0000) as u32);
    put_u32(buf, (x / 0x1_0000_0000) as u32);
    assert(buf@ =~= old(buf)@ + le64(x));
}

/// Appends the big-endian bytes of `x`.
pub fn put_u32_be(buf: &mut Vec<u8>, x: u32)
    ensures
        final(buf)@ == old(buf)@ + be32(x),
{
    proof {
        reveal(byte_of);
    }
    buf.push((x / 0x100_0000 % 256) as u8);
    buf.push((x / 0x1_0000 % 256) as u8);
    buf.push((x / 0x100 % 256) as u8);
    buf.push((x % 256) as u8);
    assert(buf@ =~= old(buf)@ + be32(x));
}

/// Appends the big-endian bytes of `x`.
pub fn put_u64_be(buf: &mut Vec<u8>, x: u64)
    ensures
        final(buf)@ == old(buf)@ + be64(x),
{
    proof {
        reveal(low_half);
        reveal(high_half);
    }
    put_u32_be(buf, (x / 0x1_0000_0000) as u32);
    put_u32_be(buf, (x % 0x1_0000_0000) as u32);
    assert(buf@ =~= old(buf)@ + be64(x));
}

/// Appends a copy of `bytes`.
pub fn put_bytes(buf: &mut Vec<u8>, bytes: &[u8])
    ensures
        final(buf)@ == old(buf)@ + bytes@,
{
    buf.extend_from_slice(bytes);
}

/// The first `n` bytes of `s` and what follows them, where `s` is that long.
pub open spec fn split(s: Seq<u8>, n: int) -> Option<(Seq<u8>, Seq<u8>)> {
    if 0 <= n <= s.len() {
        Some((s.take(n), s.skip(n)))
    } else {
        None
    }
}

/// A read position in a byte slice. Every read either consumes exactly what
/// it returns or leaves the position where it was.
pub struct Reader<'a> {
    data: &'a [u8],
    pos: usize,
}

impl<'a> Reader<'a> {
    #[verifier::type_invariant]
    spec fn in_bounds(&self) -> bool {
        self.pos <= self.data@.len()
    }

    /// The bytes that have not been read yet.
    pub closed spec fn rest(&self) -> Seq<u8> {
        self.data@.skip(self.pos as int)
    }

    /// A reader at the start of `data`.
    pub fn new(data: &'a [u8]) -> (r: Self)
        ensures
            r.rest() == data@,
    {
        assert(data@.skip(0) =~= data@);
        Reader { data, pos: 0 }
    }

    /// How many bytes are left.
    pub fn remaining(&self) -> (n: usize)
        ensures
            n == self.rest().len(),
    {
        proof {
            use_type_invariant(self);
        }
        self.data.len() - self.pos
    }

    /// Reads one byte.
    pub fn u8(&mut self) -> (r: Option<u8>)
        ensures
            match r {
                Some(b) => {
                    &&& old(self).rest().len() >= 1
                    &&& b == old(self).rest()[0]
                    &&& final(self).rest() == old(self).rest().skip(1)
                },
                None => old(self).rest().len() < 1 && final(self).rest() == old(self).rest(),
            },
    {
        proof {
            use_type_invariant(&*self);
        }
        if self.data.len() - self.pos < 1 {
            return None;
        }
        let b = self.data[self.pos];
        self.pos = self.pos + 1;
        assert(self.rest() =~= old(self).rest().skip(1));
        Some(b)
    }

    /// Reads `n` bytes and hands them out as a slice of the input.
    pub fn take(&mut self, n: u64) -> (r: Option<&'a [u8]>)
        ensures
            match r {
                Some(b) => split(old(self).rest(), n as int) == Some((b@, final(self).rest())),
                None => split(old(self).rest(), n as int).is_none() && final(self).rest() == old(self).rest(),
            },
    {
        proof {
            use_type_invariant(&*self);
        }
        let left = self.data.len() - self.pos;
        if (left as u64) < n {
            return None;
        }
        let len = n as usize;
        let out = vstd::slice::slice_subrange(self.data, self.pos, self.pos + len);
        self.pos = self.pos + len;
        assert(out@ =~= old(self).rest().take(n as int));
        assert(self.rest() =~= old(self).rest().skip(n as int));
        Some(out)
    }

    /// Reads a little-endian `u32`.
    pub fn u32(&mut self) -> (r: Option<u32>)
        ensures
            match r {
                Some(x) => old(self).rest().len() >= 4 && x == le32_value(old(self).rest())
                    && final(self).rest() == old(self).rest().skip(4),
                None => old(self).rest().len() < 4 && final(self).rest() == old(self).rest(),
            },
    {
        match self.take(4) {
            None => None,
            Some(b) => {
                proof {
                    reveal(joined);
                }
                let x: u32 = b[0] as u32 + 0x100 * (b[1] as u32) + 0x1_0000 * (b[2] as u32)
                    + 0x100_0000 * (b[3] as u32);
                Some(x)
            },
        }
    }

    /// Reads a big-endian `u32`.
    pub fn u32_be(&mut self) -> (r: Option<u32>)
        ensures
            match r {
                Some(x) => old(self).rest().len() >= 4 && x == be32_value(old(self).rest())
                    && final(self).rest() == old(self).rest().skip(4),
                None => old(self).rest().len() < 4 && final(self).rest() == old(self).rest(),
            },
    {
        match self.take(4) {
            None => None,
            Some(b) => {
                proof {
                    reveal(joined);
                }
                let x: u32 = 0x100_0000 * (b[0] as u32) + 0x1_0000 * (b[1] as u32) + 0x100 * (
                b[2] as u32) + b[3] as u32;
                Some(x)
            },
        }
    }

    /// Reads a little-endian `u64`.
    pub fn u64(&mut self) -> (r: Option<u64>)
        ensures
            match r {
                Some(x) => old(self).rest().len() >= 8 && x == le64_value(old(self).rest())
                    && final(self).rest() == old(self).rest().skip(8),
                None => old(self).rest().len() < 8 && final(self).rest() == old(self).rest(),
            },
    {
        if self.remaining() < 8 {
            return None;
        }
        let lo = self.u32().unwrap();
        let hi = self.u32().unwrap();
        assert(self.rest() =~= old(self).rest().skip(8));
        proof {
            reveal(of_halves);
        }
        Some(lo as u64 + 0x1_0000_0000 * (hi as u64))
    }

    /// Reads a big-endian `u64`.
    pub fn u64_be(&mut self) -> (r: Option<u64>)
        ensures
            match r {
                Some(x) => old(self).rest().len() >= 8 && x == be64_value(old(self).rest())
                    && final(self).rest() == old(self).rest().skip(8),
                None => old(self).rest().len() < 8 && final(self).rest() == old(self).rest(),
            },
    {
        if self.remaining() < 8 {
            return None;
        }
        let hi = self.u32_be().unwrap();
        let lo = self.u32_be().unwrap();
        assert(self.rest() =~= old(self).rest().skip(8));
        proof {
            reveal(of_halves);
        }
        Some(0x1_0000_0000 * (hi as u64) + lo as u64)
    }
}

} // verus!
