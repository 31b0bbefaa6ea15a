//! Strings as UTF-8 bytes.

use vstd::prelude::*;
use vstd::slice::slice_to_vec;
use vstd::string::{StringExecFns, StringSliceAdditionalSpecFns};
use vstd::utf8::{
    decode_utf8, encode_utf8, encode_utf8_decode_utf8, encode_utf8_valid_utf8, valid_utf8,
};
use std::string::FromUtf8Error;
use crate::id::{digit, digit_char};

verus! {

/// `std::string::FromUtf8Error`, the refusal of bytes that are no UTF-8,
/// carried through as it is.
#[verifier::external_type_specification]
#[verifier::external_body]
pub struct ExFromUtf8Error(std::string::FromUtf8Error);

/// `String::from_utf8` accepts exactly the well-formed UTF-8 byte strings,
/// and the string it returns has the given bytes as its encoding.
pub assume_specification[ String::from_utf8 ](vec: Vec<u8>) -> (r: Result<String, FromUtf8Error>)
    ensures
        r is Ok <==> valid_utf8(vec@),
        r matches Ok(s) ==> encode_utf8(s@) == vec@,
;

/// `std::str::Utf8Error`, the refusal of a slice that is no UTF-8, carried
/// through as it is.
#[verifier::external_type_specification]
#[verifier::external_body]
pub struct ExUtf8Error(std::str::Utf8Error);

/// `std::str::from_utf8` accepts exactly the well-formed UTF-8 slices, and
/// the string slice it returns has the given bytes as its encoding.
pub assume_specification[ std::str::from_utf8 ](v: &[u8]) -> (r: Result<&str, std::str::Utf8Error>)
    ensures
        r is Ok <==> valid_utf8(v@),
        r matches Ok(s) ==> encode_utf8(s@) == v@,
;

/// What `str::to_lowercase` returns for the given characters: the Unicode
/// lowercase mapping, which is a function of the characters alone.
pub uninterp spec fn lowercase_of(s: Seq<char>) -> Seq<char>;

/// `str::to_lowercase` returns the lowercase form of the string.
pub assume_specification[ str::to_lowercase ](s: &str) -> (r: String)
    ensures
        r@ == lowercase_of(s@),
;

/// The UTF-8 encoding of `s`.
#[verifier::opaque]
pub open spec fn utf8(s: Seq<char>) -> Seq<u8> {
    encode_utf8(s)
}

/// The text that `bytes` encode, where they are well-formed UTF-8.
#[verifier::opaque]
pub open spec fn text_of(bytes: Seq<u8>) -> Option<Seq<char>> {
    if valid_utf8(bytes) {
        Some(decode_utf8(bytes))
    } else {
        None
    }
}

/// Two texts with the same encoding are the same text.
pub proof fn lemma_encoding_injective(a: Seq<char>, b: Seq<char>)
    requires
        utf8(a) == utf8(b),
    ensures
        a == b,
{
    reveal(utf8);
    encode_utf8_decode_utf8(a);
    encode_utf8_decode_utf8(b);
}

/// A text is found again from its encoding.
pub proof fn lemma_text_of_encoding(a: Seq<char>)
    ensures
        text_of(utf8(a)) == Some(a),
{
    reveal(utf8);
    reveal(text_of);
    encode_utf8_decode_utf8(a);
    encode_utf8_valid_utf8(a);
}

/// The UTF-8 bytes of `s`.
pub fn bytes_of(s: &str) -> (b: &[u8])
    ensures
        b@ == utf8(s@),
{
    proof {
        reveal(utf8);
    }
    s.as_bytes()
}

/// Decodes `bytes` as UTF-8.
pub fn decode(bytes: &[u8]) -> (r: Option<String>)
    ensures
        match r {
            Some(s) => text_of(bytes@) == Some(s@),
            None => text_of(bytes@).is_none(),
        },
{
    proof {
        reveal(text_of);
    }
    let owned = slice_to_vec(bytes);
    match String::from_utf8(owned) {
        Ok(s) => {
            proof {
                encode_utf8_decode_utf8(s@);
            }
            Some(s)
        },
        Err(_) => None,
    }
}

/// Reads `bytes` as UTF-8 without copying them.
pub fn decode_str(bytes: &[u8]) -> (r: Option<&str>)
    ensures
        match r {
            Some(s) => text_of(bytes@) == Some(s@),
            None => text_of(bytes@).is_none(),
        },
{
    proof {
        reveal(text_of);
    }
    match std::str::from_utf8(bytes) {
        Ok(s) => {
            proof {
                encode_utf8_decode_utf8(s@);
            }
            Some(s)
        },
        Err(_) => None,
    }
}

/// Whether two strings hold the same text.
pub fn same_text(a: &str, b: &str) -> (r: bool)
    ensures
        r == (a@ == b@),
{
    let x = bytes_of(a);
    let y = bytes_of(b);
    if x.len() != y.len() {
        return false;
    }
    let mut i: usize = 0;
    while i < x.len()
        invariant
            i <= x.len(),
            x.len() == y.len(),
            x@ == utf8(a@),
            y@ == utf8(b@),
            forall|j: int| 0 <= j < i ==> x@[j] == y@[j],
        decreases x.len() - i,
    {
        if x[i] != y[i] {
            return false;
        }
        i = i + 1;
    }
    proof {
        assert(x@ =~= y@);
        lemma_encoding_injective(a@, b@);
    }
    true
}

/// The decimal digits of `n`.
pub open spec fn decimal_text(n: nat) -> Seq<char>
    decreases n,
{
    if n < 10 {
        seq![digit_char(n as u8)]
    } else {
        decimal_text(n / 10).push(digit_char((n % 10) as u8))
    }
}

/// Appends the decimal digits of `n`.
pub fn push_decimal(s: &mut String, n: u64)
    ensures
        final(s)@ == old(s)@ + decimal_text(n as nat),
    decreases n,
{
    if n >= 10 {
        push_decimal(s, n / 10);
    }
    s.append(digit((n % 10) as u8));
    assert(s@ =~= old(s)@ + decimal_text(n as nat));
}

} // verus!
