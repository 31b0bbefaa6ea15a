//! The 32-bit cyclic redundancy check of the persistence file: the
//! reflected polynomial 0xEDB88320, all ones at the start and at the end.

use vstd::prelude::*;

verus! {

/// The reflected polynomial.
pub const POLYNOMIAL: u32 = 0xedb8_8320;

/// The register after one more bit has been shifted out.
pub open spec fn turned(c: u32) -> u32 {
    if c & 1 == 1 {
        (c >> 1) ^ POLYNOMIAL
    } else {
        c >> 1
    }
}

/// The register after `n` more bits have been shifted out.
pub open spec fn turned_times(c: u32, n: nat) -> u32
    decreases n,
{
    if n == 0 {
        c
    } else {
        turned(turned_times(c, (n - 1) as nat))
    }
}

/// The register after the byte `b` has gone in.
pub open spec fn fed(c: u32, b: u8) -> u32 {
    turned_times(c ^ (b as u32), 8)
}

/// The register after the first `n` bytes of `s` have gone in.
pub open spec fn register(s: Seq<u8>, n: nat) -> u32
    decreases n,
{
    if n == 0 {
        0xffff_ffff
    } else {
        fed(register(s, (n - 1) as nat), s[n - 1])
    }
}

/// The check value of `s`.
pub open spec fn crc32(s: Seq<u8>) -> u32 {
    register(s, s.len()) ^ 0xffff_ffff
}

/// The register depends only on the bytes that have gone in.
pub proof fn lemma_register_prefix(s: Seq<u8>, t: Seq<u8>, n: nat)
    requires
        n <= s.len(),
        n <= t.len(),
        s.take(n as int) == t.take(n as int),
    ensures
        register(s, n) == register(t, n),
    decreases n,
{
    if n > 0 {
        assert(s.take(n as int)[n - 1] == s[n - 1]);
        assert(t.take(n as int)[n - 1] == t[n - 1]);
        assert(s.take(n - 1) =~= s.take(n as int).take(n - 1));
        assert(t.take(n - 1) =~= t.take(n as int).take(n - 1));
        lemma_register_prefix(s, t, (n - 1) as nat);
    }
}

/// The check value of `data`.
pub fn checksum(data: &[u8]) -> (c: u32)
    ensures
        c == crc32(data@),
{
    let mut c: u32 = 0xffff_ffff;
    let mut i: usize = 0;
    while i < data.len()
        invariant
            i <= data@.len(),
            c == register(data@, i as nat),
        decreases data.len() - i,
    {
        let ghost start = c ^ (data@[i as int] as u32);
        c = c ^ (data[i] as u32);
        let mut bit: u8 = 0;
        while bit < 8
            invariant
                bit <= 8,
                c == turned_times(start, bit as nat),
            decreases 8 - bit,
        {
            c = if c & 1 == 1 {
                (c >> 1) ^ POLYNOMIAL
            } else {
                c >> 1
            };
            bit = bit + 1;
        }
        i = i + 1;
    }
    c ^ 0xffff_ffff
}

} // verus!
