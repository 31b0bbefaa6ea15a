//! Identifiers: sixteen bytes, a millisecond clock reading in the first
//! eight and entropy in the last eight, both most significant byte first, so
//! that byte order puts earlier identifiers first.

use vstd::prelude::*;
use vstd::string::StringExecFns;
use vstd::utf8::{is_ascii_chars, is_ascii_chars_encode_utf8};
use std::hash::{BuildHasher, DefaultHasher, Hasher, RandomState};
use std::time::{Duration, SystemTime, SystemTimeError};
use crate::text::{bytes_of, utf8};
use crate::wire::{
    be64, be64_value, lemma_be64_of_value, lemma_be64_round_trip, put_u64_be, Reader,
};

verus! {

/// `std::time::SystemTime`, a reading of the wall clock, carried through
/// as it is.
#[verifier::external_type_specification]
#[verifier::external_body]
pub struct ExSystemTime(std::time::SystemTime);

/// `std::time::SystemTimeError`, the failure of a measurement between two
/// readings, carried through as it is.
#[verifier::external_type_specification]
#[verifier::external_body]
pub struct ExSystemTimeError(std::time::SystemTimeError);

/// `SystemTime::now` reads the wall clock; nothing is known of the reading.
pub assume_specification[ SystemTime::now ]() -> (t: SystemTime);

/// Calls `SystemTime::duration_since` with the Unix epoch: the time from
/// the epoch to `t`, or an error where `t` lies before it. Nothing is
/// claimed of either.
#[verifier::external_body]
fn since_epoch(t: &SystemTime) -> (r: Result<Duration, SystemTimeError>) {
    t.duration_since(SystemTime::UNIX_EPOCH)
}

/// `Duration::as_millis` counts whole milliseconds; the count is not modelled.
pub assume_specification[ Duration::as_millis ](d: &Duration) -> (ms: u128);

/// `RandomState::new` draws hashing keys that are seeded once per process
/// and differ from one call to the next.
pub assume_specification[ RandomState::new ]() -> (s: RandomState);

/// `RandomState::build_hasher` makes a hasher from those keys; what it will
/// produce is not modelled.
pub assume_specification[ <RandomState as BuildHasher>::build_hasher ](s: &RandomState) -> (h:
    DefaultHasher);

/// A 128-bit identifier.
#[derive(Clone, Copy, Debug, PartialEq, Eq, Structural, Hash, PartialOrd, Ord)]
pub struct Id {
    /// Milliseconds since the Unix epoch at which the identifier was made.
    pub millis: u64,
    /// What tells apart identifiers made in the same millisecond.
    pub entropy: u64,
}

/// The clock reading that stands for a count of milliseconds since the
/// Unix epoch: the count as far as sixty-four bits hold it, and zero where
/// there is no count because the clock stands before the epoch.
pub open spec fn reading_of(elapsed: Option<u128>) -> u64 {
    match elapsed {
        Some(ms) => (ms % 0x1_0000_0000_0000_0000) as u64,
        None => 0,
    }
}

/// The clock reading that stands for a count of milliseconds since the
/// Unix epoch, or for the lack of one.
pub fn millis_of(elapsed: Option<u128>) -> (ms: u64)
    ensures
        ms == reading_of(elapsed),
{
    match elapsed {
        Some(ms) => (ms % 0x1_0000_0000_0000_0000) as u64,
        None => 0,
    }
}

/// Milliseconds since the Unix epoch by the wall clock, zero where the
/// clock stands before the epoch. The clock is read here and nowhere else;
/// what is made of its reading is [`millis_of`].
pub fn unix_millis() -> u64 {
    let t = SystemTime::now();
    let elapsed = match since_epoch(&t) {
        Ok(d) => Some(d.as_millis()),
        Err(_) => None,
    };
    millis_of(elapsed)
}

/// Sixty-four bits that differ from call to call and from process to process.
pub fn fresh_entropy() -> u64 {
    RandomState::new().build_hasher().finish()
}

impl Id {
    /// The sixteen bytes of the identifier.
    pub open spec fn bytes(self) -> Seq<u8> {
        be64(self.millis) + be64(self.entropy)
    }

    /// The identifier whose bytes are the first sixteen of `s`.
    pub open spec fn of_bytes(s: Seq<u8>) -> Id
        recommends
            s.len() >= 16,
    {
        Id { millis: be64_value(s), entropy: be64_value(s.skip(8)) }
    }

    /// The identifier as one number; byte order is the order of these numbers.
    pub open spec fn key(self) -> u128 {
        (self.millis as int * 0x1_0000_0000_0000_0000 + self.entropy as int) as u128
    }

    /// An identifier from a clock reading and entropy.
    pub fn from_parts(millis: u64, entropy: u64) -> (id: Id)
        ensures
            id == (Id { millis, entropy }),
    {
        Id { millis, entropy }
    }

    /// A new identifier, stamped with the current time.
    pub fn now() -> (id: Id) {
        let millis = unix_millis();
        let entropy = fresh_entropy();
        Id::from_parts(millis, entropy)
    }

    /// The all-zero identifier, which stands for "no identifier" on the wire.
    pub fn nil() -> (id: Id)
        ensures
            id == (Id { millis: 0, entropy: 0 }),
    {
        Id { millis: 0, entropy: 0 }
    }

    /// The identifier as one number, for use as a map key.
    pub fn as_u128(&self) -> (k: u128)
        ensures
            k == self.key(),
    {
        (self.millis as u128) * 0x1_0000_0000_0000_0000 + (self.entropy as u128)
    }

    /// The identifier with the given number.
    pub fn from_u128(k: u128) -> (id: Id)
        ensures
            id.key() == k,
    {
        Id {
            millis: (k / 0x1_0000_0000_0000_0000) as u64,
            entropy: (k % 0x1_0000_0000_0000_0000) as u64,
        }
    }

    /// Whether `self` comes strictly before `other` in byte order.
    pub fn precedes(&self, other: &Id) -> (b: bool)
        ensures
            b == (self.key() < other.key()),
    {
        self.millis < other.millis || (self.millis == other.millis && self.entropy < other.entropy)
    }

    /// The identifier with the given sixteen bytes.
    pub fn from_bytes(bytes: [u8; 16]) -> (id: Id)
        ensures
            id == Id::of_bytes(bytes@),
            id.bytes() == bytes@,
    {
        let mut r = Reader::new(bytes.as_slice());
        let millis = r.u64_be().unwrap();
        let entropy = r.u64_be().unwrap();
        proof {
            Id::lemma_bytes_of_bytes(bytes@);
        }
        Id { millis, entropy }
    }

    /// The sixteen bytes of the identifier.
    pub fn as_bytes(&self) -> (bytes: [u8; 16])
        ensures
            bytes@ == self.bytes(),
    {
        let mut out = Vec::new();
        put_u64_be(&mut out, self.millis);
        put_u64_be(&mut out, self.entropy);
        assert(out@ =~= self.bytes());
        proof {
            Id::lemma_of_bytes_bytes(*self, Seq::empty());
        }
        let bytes = [
            out[0],
            out[1],
            out[2],
            out[3],
            out[4],
            out[5],
            out[6],
            out[7],
            out[8],
            out[9],
            out[10],
            out[11],
            out[12],
            out[13],
            out[14],
            out[15],
        ];
        assert(bytes@ =~= self.bytes());
        bytes
    }

    /// Appends the sixteen bytes of the identifier to `buf`.
    pub fn write_to(&self, buf: &mut Vec<u8>)
        ensures
            final(buf)@ == old(buf)@ + self.bytes(),
    {
        put_u64_be(buf, self.millis);
        put_u64_be(buf, self.entropy);
        assert(buf@ =~= old(buf)@ + self.bytes());
    }

    /// Reads sixteen bytes as an identifier.
    pub fn read_from(r: &mut Reader) -> (id: Option<Id>)
        ensures
            match id {
                Some(id) => old(r).rest().len() >= 16 && id == Id::of_bytes(old(r).rest())
                    && final(r).rest() == old(r).rest().skip(16),
                None => old(r).rest().len() < 16 && final(r).rest() == old(r).rest(),
            },
    {
        if r.remaining() < 16 {
            return None;
        }
        let millis = r.u64_be().unwrap();
        let entropy = r.u64_be().unwrap();
        assert(r.rest() =~= old(r).rest().skip(16));
        Some(Id { millis, entropy })
    }

    /// An identifier is found again from its bytes, whatever follows them.
    pub proof fn lemma_of_bytes_bytes(id: Id, rest: Seq<u8>)
        ensures
            id.bytes().len() == 16,
            Id::of_bytes(id.bytes() + rest) == id,
            (id.bytes() + rest).skip(16) == rest,
    {
        let s = id.bytes() + rest;
        lemma_be64_round_trip(id.millis, be64(id.entropy) + rest);
        lemma_be64_round_trip(id.entropy, rest);
        assert(s =~= be64(id.millis) + (be64(id.entropy) + rest));
        assert(s.skip(16) =~= rest);
    }

    /// Sixteen bytes are found again from the identifier they make.
    pub proof fn lemma_bytes_of_bytes(s: Seq<u8>)
        requires
            s.len() == 16,
        ensures
            Id::of_bytes(s).bytes() == s,
    {
        lemma_be64_of_value(s.take(8));
        lemma_be64_of_value(s.skip(8));
        assert(be64_value(s.take(8)) == be64_value(s)) by {
            assert(s.take(8).skip(4) =~= s.skip(4).take(4));
            assert(s.take(8)[0] == s[0]);
            assert(s.skip(4)[0] == s[4]);
            assert(s.take(8).skip(4)[0] == s[4]);
        }
        assert(s.take(8) + s.skip(8) =~= s);
    }

    /// Byte order is the order of the numbers, and distinct identifiers
    /// have distinct numbers.
    pub proof fn lemma_key_injective(a: Id, b: Id)
        ensures
            a.key() == b.key() <==> a == b,
            a.key() < b.key() <==> (a.millis < b.millis || (a.millis == b.millis && a.entropy
                < b.entropy)),
    {
    }
}

/// Why a text is not the hexadecimal form of an identifier.
#[derive(Debug, Clone, Copy, PartialEq, Eq, Structural)]
pub enum HexError {
    /// The text has the given number of bytes, not thirty-two.
    Length(usize),
    /// The text holds the given byte, which is no hexadecimal digit.
    Character(u8),
}

/// The value of a hexadecimal digit, lower or upper case.
pub open spec fn nibble_of(c: u8) -> Option<u8> {
    if 0x30 <= c <= 0x39 {
        Some((c - 0x30) as u8)
    } else if 0x61 <= c <= 0x66 {
        Some((c - 0x61 + 10) as u8)
    } else if 0x41 <= c <= 0x46 {
        Some((c - 0x41 + 10) as u8)
    } else {
        None
    }
}

/// The first place from `i` on at which `s` holds no hexadecimal digit.
pub open spec fn first_bad(s: Seq<u8>, i: int) -> Option<int>
    decreases s.len() - i,
{
    if i < 0 || i >= s.len() {
        None
    } else if nibble_of(s[i]).is_none() {
        Some(i)
    } else {
        first_bad(s, i + 1)
    }
}

/// The sixteen bytes that thirty-two hexadecimal digits spell.
pub open spec fn hex_bytes(s: Seq<u8>) -> Seq<u8> {
    Seq::new(16, |i: int| (16 * nibble_of(s[2 * i]).unwrap() + nibble_of(s[2 * i + 1]).unwrap()) as u8)
}

/// The identifier that the bytes of a text spell in hexadecimal, or why
/// they spell none: they must be thirty-two digits, and the first byte
/// that is no digit is reported.
pub open spec fn parse_hex(s: Seq<u8>) -> Result<Id, HexError> {
    if s.len() != 32 {
        Err(HexError::Length(s.len() as usize))
    } else {
        match first_bad(s, 0) {
            Some(i) => Err(HexError::Character(s[i])),
            None => Ok(Id::of_bytes(hex_bytes(s))),
        }
    }
}

/// The character of a hexadecimal digit, in lower case.
pub open spec fn digit_char(n: u8) -> char {
    if n == 0 {
        '0'
    } else if n == 1 {
        '1'
    } else if n == 2 {
        '2'
    } else if n == 3 {
        '3'
    } else if n == 4 {
        '4'
    } else if n == 5 {
        '5'
    } else if n == 6 {
        '6'
    } else if n == 7 {
        '7'
    } else if n == 8 {
        '8'
    } else if n == 9 {
        '9'
    } else if n == 10 {
        'a'
    } else if n == 11 {
        'b'
    } else if n == 12 {
        'c'
    } else if n == 13 {
        'd'
    } else if n == 14 {
        'e'
    } else {
        'f'
    }
}

/// The thirty-two lowercase hexadecimal digits of sixteen bytes.
pub open spec fn hex_text(bytes: Seq<u8>) -> Seq<char> {
    Seq::new(
        32,
        |i: int|
            if i % 2 == 0 {
                digit_char(bytes[i / 2] / 16)
            } else {
                digit_char(bytes[i / 2] % 16)
            },
    )
}

/// The value of the hexadecimal digit `c`.
pub fn hex_char_to_nibble(c: u8) -> (r: Result<u8, HexError>)
    ensures
        match r {
            Ok(n) => nibble_of(c) == Some(n) && n < 16,
            Err(e) => nibble_of(c).is_none() && e == HexError::Character(c),
        },
{
    if 0x30 <= c && c <= 0x39 {
        Ok(c - 0x30)
    } else if 0x61 <= c && c <= 0x66 {
        Ok(c - 0x61 + 10)
    } else if 0x41 <= c && c <= 0x46 {
        Ok(c - 0x41 + 10)
    } else {
        Err(HexError::Character(c))
    }
}

/// Reads an identifier from its thirty-two hexadecimal digits.
pub fn parse_id_hex(hex: &str) -> (r: Result<Id, HexError>)
    ensures
        r == parse_hex(utf8(hex@)),
{
    let s = bytes_of(hex);
    if s.len() != 32 {
        return Err(HexError::Length(s.len()));
    }
    let mut bytes: Vec<u8> = Vec::new();
    let mut i: usize = 0;
    while i < 16
        invariant
            i <= 16,
            s@.len() == 32,
            s@ == utf8(hex@),
            first_bad(s@, 0) == first_bad(s@, 2 * i),
            bytes@ == hex_bytes(s@).take(i as int),
        decreases 16 - i,
    {
        let high = match hex_char_to_nibble(s[2 * i]) {
            Ok(n) => n,
            Err(e) => {
                assert(first_bad(s@, 2 * i) == Some(2 * i as int));
                return Err(e);
            },
        };
        let low = match hex_char_to_nibble(s[2 * i + 1]) {
            Ok(n) => n,
            Err(e) => {
                assert(first_bad(s@, 2 * i) == first_bad(s@, 2 * i + 1));
                assert(first_bad(s@, 2 * i + 1) == Some(2 * i + 1));
                return Err(e);
            },
        };
        assert(first_bad(s@, 2 * i) == first_bad(s@, 2 * i + 1));
        assert(first_bad(s@, 2 * i + 1) == first_bad(s@, 2 * i + 2));
        bytes.push(16 * high + low);
        assert(bytes@ =~= hex_bytes(s@).take(i + 1));
        i = i + 1;
    }
    assert(bytes@ =~= hex_bytes(s@));
    let mut r = Reader::new(bytes.as_slice());
    Ok(Id::read_from(&mut r).unwrap())
}

/// The text of one hexadecimal digit.
pub fn digit(n: u8) -> (s: &'static str)
    requires
        n < 16,
    ensures
        s@ == seq![digit_char(n)],
{
    proof {
        reveal_strlit("0");
        reveal_strlit("1");
        reveal_strlit("2");
        reveal_strlit("3");
        reveal_strlit("4");
        reveal_strlit("5");
        reveal_strlit("6");
        reveal_strlit("7");
        reveal_strlit("8");
        reveal_strlit("9");
        reveal_strlit("a");
        reveal_strlit("b");
        reveal_strlit("c");
        reveal_strlit("d");
        reveal_strlit("e");
        reveal_strlit("f");
    }
    let s = if n == 0 {
        "0"
    } else if n == 1 {
        "1"
    } else if n == 2 {
        "2"
    } else if n == 3 {
        "3"
    } else if n == 4 {
        "4"
    } else if n == 5 {
        "5"
    } else if n == 6 {
        "6"
    } else if n == 7 {
        "7"
    } else if n == 8 {
        "8"
    } else if n == 9 {
        "9"
    } else if n == 10 {
        "a"
    } else if n == 11 {
        "b"
    } else if n == 12 {
        "c"
    } else if n == 13 {
        "d"
    } else if n == 14 {
        "e"
    } else {
        "f"
    };
    assert(s@ =~= seq![digit_char(n)]);
    s
}

impl Id {
    /// The identifier as thirty-two lowercase hexadecimal digits.
    pub fn to_hex(&self) -> (s: String)
        ensures
            s@ == hex_text(self.bytes()),
    {
        let bytes = self.as_bytes();
        proof {
            Id::lemma_of_bytes_bytes(*self, Seq::empty());
        }
        let mut s = String::new();
        let mut i: usize = 0;
        while i < 16
            invariant
                i <= 16,
                bytes@.len() == 16,
                bytes@ == self.bytes(),
                s@ == hex_text(bytes@).take(2 * i),
            decreases 16 - i,
        {
            s.append(digit(bytes[i] / 16));
            s.append(digit(bytes[i] % 16));
            assert(s@ =~= hex_text(bytes@).take(2 * (i + 1))) by {
                assert((2 * i) / 2 == i && (2 * i) % 2 == 0);
                assert((2 * i + 1) / 2 == i && (2 * i + 1) % 2 == 1);
            }
            i = i + 1;
        }
        assert(s@ =~= hex_text(bytes@));
        s
    }
}

/// The character of a digit has the value of the digit.
pub proof fn lemma_digit_value(n: u8)
    requires
        n < 16,
    ensures
        nibble_of(digit_char(n) as u8) == Some(n),
        '\0' <= digit_char(n) <= '\u{7f}',
{
}

/// No digit is bad.
proof fn lemma_no_bad_digit(s: Seq<u8>, i: int)
    requires
        0 <= i <= s.len(),
        forall|j: int| 0 <= j < s.len() ==> nibble_of(#[trigger] s[j]).is_some(),
    ensures
        first_bad(s, i).is_none(),
    decreases s.len() - i,
{
    if i < s.len() {
        lemma_no_bad_digit(s, i + 1);
    }
}

/// An identifier is read back from its hexadecimal form.
pub proof fn lemma_hex_round_trip(id: Id)
    ensures
        parse_hex(utf8(hex_text(id.bytes()))) == Ok::<_, HexError>(id),
{
    reveal(utf8);
    let bytes = id.bytes();
    Id::lemma_of_bytes_bytes(id, Seq::empty());
    assert(bytes + Seq::<u8>::empty() =~= bytes);
    let text = hex_text(bytes);
    assert forall|i: int| 0 <= i < text.len() implies '\0' <= #[trigger] text[i] <= '\u{7f}' by {
        lemma_digit_value(bytes[i / 2] / 16);
        lemma_digit_value(bytes[i / 2] % 16);
    }
    assert(is_ascii_chars(text));
    is_ascii_chars_encode_utf8(text);
    let s = utf8(text);
    assert forall|j: int| 0 <= j < s.len() implies nibble_of(#[trigger] s[j]) == Some(
        if j % 2 == 0 {
            (bytes[j / 2] / 16) as u8
        } else {
            (bytes[j / 2] % 16) as u8
        },
    ) by {
        assert(s[j] == text[j] as u8);
        lemma_digit_value(bytes[j / 2] / 16);
        lemma_digit_value(bytes[j / 2] % 16);
    }
    lemma_no_bad_digit(s, 0);
    assert(hex_bytes(s) =~= bytes) by {
        assert forall|i: int| 0 <= i < 16 implies hex_bytes(s)[i] == bytes[i] by {
            assert((2 * i) / 2 == i && (2 * i) % 2 == 0);
            assert((2 * i + 1) / 2 == i && (2 * i + 1) % 2 == 1);
            assert(nibble_of(s[2 * i]) == Some((bytes[i] / 16) as u8));
            assert(nibble_of(s[2 * i + 1]) == Some((bytes[i] % 16) as u8));
        }
    }
}

} // verus!
