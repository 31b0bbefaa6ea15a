//! Single-precision numbers as words.
//!
//! A number is the 32-bit word that IEEE 754 assigns to it. What can be
//! read off a word without rounding (its sign, whether it is a number at
//! all, how two words compare) is computed here on the integers. What
//! rounds is left to an implementation of [`Arith`], of which this
//! library only asks that it be a function of its arguments.

use vstd::prelude::*;

verus! {

/// The word of zero.
pub const ZERO: u32 = 0;

/// The word of one.
pub const ONE: u32 = 0x3f80_0000;

/// The word of positive infinity; the words above it, sign aside, are no
/// numbers.
pub const INFINITY: u32 = 0x7f80_0000;

/// The bit that holds the sign.
pub const SIGN: u32 = 0x8000_0000;

/// Arithmetic that rounds. Every operation takes and returns words, and the
/// word it returns depends on the words it is given and on nothing else; an
/// implementation over the machine's floating point returns one fixed word
/// wherever the result is not a number.
pub trait Arith {
    /// The sum of `a` and `b`.
    spec fn sum_spec(&self, a: u32, b: u32) -> u32;

    /// `a` less `b`.
    spec fn diff_spec(&self, a: u32, b: u32) -> u32;

    /// The product of `a` and `b`.
    spec fn prod_spec(&self, a: u32, b: u32) -> u32;

    /// `a` divided by `b`.
    spec fn quot_spec(&self, a: u32, b: u32) -> u32;

    /// The square root of `a`.
    spec fn sqrt_spec(&self, a: u32) -> u32;

    /// The number nearest to the count `n`.
    spec fn count_spec(&self, n: u64) -> u32;

    /// The exponential of minus `age_ms` over `span_ms`.
    spec fn decay_spec(&self, age_ms: u64, span_ms: u64) -> u32;

    /// The sum of `a` and `b`.
    fn sum(&self, a: u32, b: u32) -> (r: u32)
        ensures
            r == self.sum_spec(a, b),
    ;

    /// `a` less `b`.
    fn diff(&self, a: u32, b: u32) -> (r: u32)
        ensures
            r == self.diff_spec(a, b),
    ;

    /// The product of `a` and `b`.
    fn prod(&self, a: u32, b: u32) -> (r: u32)
        ensures
            r == self.prod_spec(a, b),
    ;

    /// `a` divided by `b`.
    fn quot(&self, a: u32, b: u32) -> (r: u32)
        ensures
            r == self.quot_spec(a, b),
    ;

    /// The square root of `a`.
    fn sqrt(&self, a: u32) -> (r: u32)
        ensures
            r == self.sqrt_spec(a),
    ;

    /// The number nearest to the count `n`.
    fn from_count(&self, n: u64) -> (r: u32)
        ensures
            r == self.count_spec(n),
    ;

    /// How much of its weight a thing of the given age keeps: the
    /// exponential of minus `age_ms` over `span_ms`. An implementation
    /// computes it in one fixed way, so that equal ages give equal words.
    fn decay(&self, age_ms: u64, span_ms: u64) -> (r: u32)
        ensures
            r == self.decay_spec(age_ms, span_ms),
    ;
}

/// The word without its sign.
pub open spec fn magnitude(w: u32) -> u32 {
    if w >= SIGN {
        (w - SIGN) as u32
    } else {
        w
    }
}

/// Whether the word is no number.
pub open spec fn is_nan(w: u32) -> bool {
    magnitude(w) > INFINITY
}

/// Where the word stands among the numbers: words that are numbers are
/// ordered as these integers are, and the two zeros stand together.
pub open spec fn order_key(w: u32) -> int {
    if w >= SIGN {
        -(magnitude(w) as int)
    } else {
        w as int
    }
}

/// Whether `a` is a smaller number than `b`. Nothing is smaller or larger
/// than a word that is no number.
pub open spec fn less(a: u32, b: u32) -> bool {
    !is_nan(a) && !is_nan(b) && order_key(a) < order_key(b)
}

/// The negative of the number.
pub open spec fn negated(w: u32) -> u32 {
    if w >= SIGN {
        (w - SIGN) as u32
    } else {
        (w + SIGN) as u32
    }
}

/// The word without its sign.
pub fn abs(w: u32) -> (r: u32)
    ensures
        r == magnitude(w),
{
    if w >= SIGN {
        w - SIGN
    } else {
        w
    }
}

/// Whether the word is no number.
pub fn nan(w: u32) -> (r: bool)
    ensures
        r == is_nan(w),
{
    abs(w) > INFINITY
}

/// Whether the word is one of the two zeros.
pub fn zero(w: u32) -> (r: bool)
    ensures
        r == (magnitude(w) == 0),
{
    abs(w) == 0
}

/// Where the word stands among the numbers.
pub fn key(w: u32) -> (r: i64)
    ensures
        r == order_key(w),
{
    if w >= SIGN {
        -((w - SIGN) as i64)
    } else {
        w as i64
    }
}

/// Whether `a` is a smaller number than `b`.
pub fn lt(a: u32, b: u32) -> (r: bool)
    ensures
        r == less(a, b),
{
    !nan(a) && !nan(b) && key(a) < key(b)
}

/// The negative of the number.
pub fn neg(w: u32) -> (r: u32)
    ensures
        r == negated(w),
        magnitude(r) == magnitude(w),
{
    if w >= SIGN {
        w - SIGN
    } else {
        w + SIGN
    }
}

} // verus!
