//! Vectors, payloads, and the two together under an identifier.

use vstd::prelude::*;
use crate::id::Id;
use crate::text::{bytes_of, decode_str, text_of, utf8};

verus! {

/// A vector. Each component is an IEEE-754 single-precision word; the
/// number of components is the dimensionality of the vector.
#[derive(Debug)]
pub struct Point {
    dims: Vec<u32>,
}

impl View for Point {
    type V = Seq<u32>;

    closed spec fn view(&self) -> Seq<u32> {
        self.dims@
    }
}

impl Clone for Point {
    fn clone(&self) -> (p: Point)
        ensures
            p@ == self@,
    {
        Point { dims: self.dims.clone() }
    }
}

impl Point {
    /// The vector with the given components.
    pub fn new(dims: Vec<u32>) -> (p: Point)
        ensures
            p@ == dims@,
    {
        Point { dims }
    }

    /// The components.
    pub fn dims(&self) -> (d: &Vec<u32>)
        ensures
            d@ == self@,
    {
        &self.dims
    }

    /// The number of components.
    pub fn dimensionality(&self) -> (n: usize)
        ensures
            n == self@.len(),
    {
        self.dims.len()
    }

    /// The vector of `n` components that are all `word`.
    pub fn filled(n: usize, word: u32) -> (p: Point)
        ensures
            p@ == Seq::new(n as nat, |i: int| word),
    {
        let mut dims: Vec<u32> = Vec::new();
        let mut i: usize = 0;
        while i < n
            invariant
                i <= n,
                dims@ == Seq::new(i as nat, |j: int| word),
            decreases n - i,
        {
            dims.push(word);
            assert(dims@ =~= Seq::new((i + 1) as nat, |j: int| word));
            i = i + 1;
        }
        Point { dims }
    }
}

/// An opaque payload, possibly empty.
#[derive(Debug)]
pub struct Blob {
    data: Vec<u8>,
}

impl View for Blob {
    type V = Seq<u8>;

    closed spec fn view(&self) -> Seq<u8> {
        self.data@
    }
}

impl Clone for Blob {
    fn clone(&self) -> (b: Blob)
        ensures
            b@ == self@,
    {
        Blob { data: self.data.clone() }
    }
}

impl Blob {
    /// The payload with the given bytes.
    pub fn new(data: Vec<u8>) -> (b: Blob)
        ensures
            b@ == data@,
    {
        Blob { data }
    }

    /// The payload that holds the UTF-8 bytes of `s`.
    pub fn from_str(s: &str) -> (b: Blob)
        ensures
            b@ == utf8(s@),
    {
        Blob { data: vstd::slice::slice_to_vec(bytes_of(s)) }
    }

    /// The empty payload.
    pub fn empty() -> (b: Blob)
        ensures
            b@ == Seq::<u8>::empty(),
    {
        Blob { data: Vec::new() }
    }

    /// The bytes.
    pub fn data(&self) -> (d: &Vec<u8>)
        ensures
            d@ == self@,
    {
        &self.data
    }

    /// The number of bytes.
    pub fn size(&self) -> (n: usize)
        ensures
            n == self@.len(),
    {
        self.data.len()
    }

    /// Whether there is no byte.
    pub fn is_empty(&self) -> (b: bool)
        ensures
            b == (self@.len() == 0),
    {
        self.data.len() == 0
    }

    /// The payload as text, where it is well-formed UTF-8.
    pub fn as_str(&self) -> (s: Option<&str>)
        ensures
            match s {
                Some(s) => text_of(self@) == Some(s@),
                None => text_of(self@).is_none(),
            },
    {
        decode_str(self.data.as_slice())
    }
}

/// A vector and its payload, placed under an identifier.
#[derive(Debug)]
pub struct PlacedPoint {
    /// The identifier.
    pub id: Id,
    /// The vector.
    pub point: Point,
    /// The payload.
    pub blob: Blob,
}

impl Clone for PlacedPoint {
    fn clone(&self) -> (p: PlacedPoint)
        ensures
            p.id == self.id,
            p.point@ == self.point@,
            p.blob@ == self.blob@,
    {
        PlacedPoint { id: self.id, point: self.point.clone(), blob: self.blob.clone() }
    }
}

impl PlacedPoint {
    /// The vector `point` with the payload `blob` under `id`.
    pub fn new(id: Id, point: Point, blob: Blob) -> (p: PlacedPoint)
        ensures
            p.id == id,
            p.point == point,
            p.blob == blob,
    {
        PlacedPoint { id, point, blob }
    }
}

} // verus!
