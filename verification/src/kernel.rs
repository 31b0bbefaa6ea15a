//! The vector kernel: proximity, merging and normalization, each written
//! out as the chain of roundings that computes it.

use vstd::prelude::*;
use crate::arith::{Arith, ZERO, ONE, magnitude, less, negated, lt, neg, zero, abs};
use crate::point::Point;

verus! {

/// Below this norm a vector is not normalized: the word of 1e-12.
pub const TINY: u32 = 0x2b8c_bccc;

/// How far from one the norm of a normalized vector may lie: the word of 1e-6.
pub const TOLERANCE: u32 = 0x3586_37bd;

/// How two vectors are compared. Whatever the metric, a higher proximity
/// means closer.
#[derive(Debug, Clone, Copy, PartialEq, Eq, Structural)]
pub enum Metric {
    /// The cosine of the angle between the vectors; zero where one of them
    /// has no length.
    Cosine,
    /// The negative of the distance between the vectors.
    Euclidean,
    /// The inner product of the vectors.
    Dot,
}

/// How several vectors are merged into one.
#[derive(Debug, Clone, Copy, PartialEq, Eq, Structural)]
pub enum MergeKind {
    /// The mean of each component.
    Mean,
    /// The maximum of each component.
    MaxPool,
}

/// Two vectors that were to be compared have different dimensionalities.
#[derive(Debug, Clone, Copy, PartialEq, Eq, Structural)]
pub struct DimensionMismatch {
    /// The dimensionality that was expected.
    pub expected: usize,
    /// The dimensionality that was given.
    pub got: usize,
}

/// Component `j` of `p`, zero beyond its end.
pub open spec fn at(p: Seq<u32>, j: int) -> u32 {
    if 0 <= j < p.len() {
        p[j]
    } else {
        ZERO
    }
}

/// The inner product of the first `n` components of `a` and `b`, summed
/// from the first component on.
pub open spec fn dot_upto<A: Arith>(ar: &A, a: Seq<u32>, b: Seq<u32>, n: nat) -> u32
    decreases n,
{
    if n == 0 {
        ZERO
    } else {
        ar.sum_spec(dot_upto(ar, a, b, (n - 1) as nat), ar.prod_spec(a[n - 1], b[n - 1]))
    }
}

/// The inner product of `a` and `b`.
pub open spec fn dot_spec<A: Arith>(ar: &A, a: Seq<u32>, b: Seq<u32>) -> u32 {
    dot_upto(ar, a, b, a.len())
}

/// The squared distance between the first `n` components of `a` and `b`.
pub open spec fn gap_upto<A: Arith>(ar: &A, a: Seq<u32>, b: Seq<u32>, n: nat) -> u32
    decreases n,
{
    if n == 0 {
        ZERO
    } else {
        let d = ar.diff_spec(a[n - 1], b[n - 1]);
        ar.sum_spec(gap_upto(ar, a, b, (n - 1) as nat), ar.prod_spec(d, d))
    }
}

/// The length of `a`.
pub open spec fn norm_spec<A: Arith>(ar: &A, a: Seq<u32>) -> u32 {
    ar.sqrt_spec(dot_spec(ar, a, a))
}

/// The cosine of the angle between `a` and `b`.
pub open spec fn cosine_spec<A: Arith>(ar: &A, a: Seq<u32>, b: Seq<u32>) -> u32 {
    let na = norm_spec(ar, a);
    let nb = norm_spec(ar, b);
    if magnitude(na) == 0 || magnitude(nb) == 0 {
        ZERO
    } else {
        ar.quot_spec(dot_spec(ar, a, b), ar.prod_spec(na, nb))
    }
}

/// The negative of the distance between `a` and `b`.
pub open spec fn euclidean_spec<A: Arith>(ar: &A, a: Seq<u32>, b: Seq<u32>) -> u32 {
    negated(ar.sqrt_spec(gap_upto(ar, a, b, a.len())))
}

/// The proximity of `a` and `b` under `metric`.
pub open spec fn proximity_spec<A: Arith>(ar: &A, metric: Metric, a: Seq<u32>, b: Seq<u32>) -> u32 {
    match metric {
        Metric::Cosine => cosine_spec(ar, a, b),
        Metric::Euclidean => euclidean_spec(ar, a, b),
        Metric::Dot => dot_spec(ar, a, b),
    }
}

/// The inner product of `a` and `b`.
fn dot<A: Arith>(ar: &A, a: &Vec<u32>, b: &Vec<u32>) -> (r: u32)
    requires
        a@.len() == b@.len(),
    ensures
        r == dot_spec(ar, a@, b@),
{
    let mut acc: u32 = ZERO;
    let mut i: usize = 0;
    while i < a.len()
        invariant
            i <= a@.len(),
            a@.len() == b@.len(),
            acc == dot_upto(ar, a@, b@, i as nat),
        decreases a.len() - i,
    {
        acc = ar.sum(acc, ar.prod(a[i], b[i]));
        i = i + 1;
    }
    acc
}

/// The squared distance between `a` and `b`.
fn gap<A: Arith>(ar: &A, a: &Vec<u32>, b: &Vec<u32>) -> (r: u32)
    requires
        a@.len() == b@.len(),
    ensures
        r == gap_upto(ar, a@, b@, a@.len()),
{
    let mut acc: u32 = ZERO;
    let mut i: usize = 0;
    while i < a.len()
        invariant
            i <= a@.len(),
            a@.len() == b@.len(),
            acc == gap_upto(ar, a@, b@, i as nat),
        decreases a.len() - i,
    {
        let d = ar.diff(a[i], b[i]);
        acc = ar.sum(acc, ar.prod(d, d));
        i = i + 1;
    }
    acc
}

/// The length of `p`.
pub fn norm<A: Arith>(ar: &A, p: &Point) -> (r: u32)
    ensures
        r == norm_spec(ar, p@),
{
    ar.sqrt(dot(ar, p.dims(), p.dims()))
}

/// The proximity of `a` and `b` under `metric`, where they have the same
/// dimensionality.
pub fn proximity<A: Arith>(ar: &A, metric: Metric, a: &Point, b: &Point) -> (r: Result<
    u32,
    DimensionMismatch,
>)
    ensures
        match r {
            Ok(s) => a@.len() == b@.len() && s == proximity_spec(ar, metric, a@, b@),
            Err(e) => a@.len() != b@.len() && e.expected == a@.len() && e.got == b@.len(),
        },
{
    if a.dimensionality() != b.dimensionality() {
        return Err(DimensionMismatch { expected: a.dimensionality(), got: b.dimensionality() });
    }
    let (x, y) = (a.dims(), b.dims());
    match metric {
        Metric::Cosine => {
            let na = ar.sqrt(dot(ar, x, x));
            let nb = ar.sqrt(dot(ar, y, y));
            if zero(na) || zero(nb) {
                Ok(ZERO)
            } else {
                Ok(ar.quot(dot(ar, x, y), ar.prod(na, nb)))
            }
        },
        Metric::Euclidean => Ok(neg(ar.sqrt(gap(ar, x, y)))),
        Metric::Dot => Ok(dot(ar, x, y)),
    }
}

/// `p` with every component divided by `by`.
pub open spec fn scaled_down<A: Arith>(ar: &A, p: Seq<u32>, by: u32) -> Seq<u32> {
    Seq::new(p.len(), |j: int| ar.quot_spec(p[j], by))
}

/// `p` brought to length one, and whether that could be done: a vector
/// whose length is below [`TINY`] stays as it is.
pub open spec fn normalize_spec<A: Arith>(ar: &A, p: Seq<u32>) -> (Seq<u32>, bool) {
    let n = norm_spec(ar, p);
    if less(n, TINY) {
        (p, false)
    } else {
        (scaled_down(ar, p, n), true)
    }
}

/// Whether the length of `p` lies within [`TOLERANCE`] of one.
pub open spec fn is_normalized_spec<A: Arith>(ar: &A, p: Seq<u32>) -> bool {
    less(magnitude(ar.diff_spec(norm_spec(ar, p), ONE)), TOLERANCE)
}

/// `p` with every component divided by `by`.
fn scale_down<A: Arith>(ar: &A, p: &Vec<u32>, by: u32) -> (out: Vec<u32>)
    ensures
        out@ == scaled_down(ar, p@, by),
{
    let mut out: Vec<u32> = Vec::new();
    let mut j: usize = 0;
    while j < p.len()
        invariant
            j <= p@.len(),
            out@ == scaled_down(ar, p@, by).take(j as int),
        decreases p.len() - j,
    {
        out.push(ar.quot(p[j], by));
        assert(out@ =~= scaled_down(ar, p@, by).take(j + 1));
        j = j + 1;
    }
    assert(out@ =~= scaled_down(ar, p@, by));
    out
}

/// Brings `p` to length one. The flag says whether that was done: a vector
/// whose length is below [`TINY`] is handed back as it is.
pub fn normalize<A: Arith>(ar: &A, p: &Point) -> (r: (Point, bool))
    ensures
        (r.0@, r.1) == normalize_spec(ar, p@),
        r.0@.len() == p@.len(),
{
    let n = norm(ar, p);
    if lt(n, TINY) {
        (p.clone(), false)
    } else {
        (Point::new(scale_down(ar, p.dims(), n)), true)
    }
}

/// Whether the length of `p` lies within [`TOLERANCE`] of one.
pub fn is_normalized<A: Arith>(ar: &A, p: &Point) -> (r: bool)
    ensures
        r == is_normalized_spec(ar, p@),
{
    lt(abs(ar.diff(norm(ar, p), ONE)), TOLERANCE)
}

/// The sum of component `j` over the first `n` of `points`.
pub open spec fn column_sum<A: Arith>(ar: &A, points: Seq<Seq<u32>>, j: int, n: nat) -> u32
    decreases n,
{
    if n == 0 {
        ZERO
    } else {
        ar.sum_spec(column_sum(ar, points, j, (n - 1) as nat), at(points[n - 1], j))
    }
}

/// The greatest of component `j` over the first `n` of `points`, where `n`
/// is at least one.
pub open spec fn column_max(points: Seq<Seq<u32>>, j: int, n: nat) -> u32
    decreases n,
{
    if n <= 1 {
        at(points[0], j)
    } else {
        let m = column_max(points, j, (n - 1) as nat);
        let x = at(points[n - 1], j);
        if less(m, x) {
            x
        } else {
            m
        }
    }
}

/// The mean of `points`, component by component, in `dim` dimensions: the
/// zero vector where there are no points.
pub open spec fn mean_spec<A: Arith>(ar: &A, points: Seq<Seq<u32>>, dim: nat) -> Seq<u32> {
    if points.len() == 0 {
        Seq::new(dim, |j: int| ZERO)
    } else {
        Seq::new(
            dim,
            |j: int|
                ar.quot_spec(
                    column_sum(ar, points, j, points.len()),
                    ar.count_spec(points.len() as u64),
                ),
        )
    }
}

/// The maximum of `points`, component by component, in `dim` dimensions:
/// the zero vector where there are no points.
pub open spec fn max_pool_spec(points: Seq<Seq<u32>>, dim: nat) -> Seq<u32> {
    if points.len() == 0 {
        Seq::new(dim, |j: int| ZERO)
    } else {
        Seq::new(dim, |j: int| column_max(points, j, points.len()))
    }
}

/// The sum of the weighted component `j` over the first `n` of `points`.
pub open spec fn weighted_column_sum<A: Arith>(
    ar: &A,
    points: Seq<Seq<u32>>,
    weights: Seq<u32>,
    j: int,
    n: nat,
) -> u32
    decreases n,
{
    if n == 0 {
        ZERO
    } else {
        ar.sum_spec(
            weighted_column_sum(ar, points, weights, j, (n - 1) as nat),
            ar.prod_spec(at(weights, n - 1), at(points[n - 1], j)),
        )
    }
}

/// The sum of the first `n` words of `ws`.
pub open spec fn sum_upto<A: Arith>(ar: &A, ws: Seq<u32>, n: nat) -> u32
    decreases n,
{
    if n == 0 {
        ZERO
    } else {
        ar.sum_spec(sum_upto(ar, ws, (n - 1) as nat), at(ws, n - 1))
    }
}

/// The mean of `points` with each point weighted by the weight in its
/// place: the weighted sum over the sum of the weights, and the plain mean
/// where the weights sum to zero.
pub open spec fn weighted_mean_spec<A: Arith>(
    ar: &A,
    points: Seq<Seq<u32>>,
    weights: Seq<u32>,
    dim: nat,
) -> Seq<u32> {
    let total = sum_upto(ar, weights, points.len());
    if points.len() == 0 || magnitude(total) == 0 {
        mean_spec(ar, points, dim)
    } else {
        Seq::new(
            dim,
            |j: int|
                ar.quot_spec(weighted_column_sum(ar, points, weights, j, points.len()), total),
        )
    }
}

/// What each of the points holds.
pub open spec fn views(points: Seq<Point>) -> Seq<Seq<u32>> {
    Seq::new(points.len(), |i: int| points[i]@)
}

/// Component `j` of `p`, zero beyond its end.
fn component(p: &Point, j: usize) -> (w: u32)
    ensures
        w == at(p@, j as int),
{
    if j < p.dimensionality() {
        p.dims()[j]
    } else {
        ZERO
    }
}

/// Word `i` of `ws`, zero beyond its end.
fn word(ws: &[u32], i: usize) -> (w: u32)
    ensures
        w == at(ws@, i as int),
{
    if i < ws.len() {
        ws[i]
    } else {
        ZERO
    }
}

/// The mean of `points` in `dim` dimensions.
pub fn mean<A: Arith>(ar: &A, points: &[Point], dim: usize) -> (out: Point)
    ensures
        out@ == mean_spec(ar, views(points@), dim as nat),
        out@.len() == dim,
{
    if points.len() == 0 {
        return Point::filled(dim, ZERO);
    }
    let ghost ps = views(points@);
    let ghost goal = mean_spec(ar, ps, dim as nat);
    let count = ar.from_count(points.len() as u64);
    let mut out: Vec<u32> = Vec::new();
    let mut j: usize = 0;
    while j < dim
        invariant
            j <= dim,
            points@.len() > 0,
            ps == views(points@),
            goal == mean_spec(ar, ps, dim as nat),
            count == ar.count_spec(points@.len() as u64),
            out@ == goal.take(j as int),
        decreases dim - j,
    {
        let mut acc: u32 = ZERO;
        let mut i: usize = 0;
        while i < points.len()
            invariant
                i <= points@.len(),
                ps == views(points@),
                acc == column_sum(ar, ps, j as int, i as nat),
            decreases points.len() - i,
        {
            acc = ar.sum(acc, component(&points[i], j));
            i = i + 1;
        }
        out.push(ar.quot(acc, count));
        assert(out@ =~= goal.take(j + 1));
        j = j + 1;
    }
    assert(out@ =~= goal);
    Point::new(out)
}

/// The maximum of `points`, component by component, in `dim` dimensions.
pub fn max_pool(points: &[Point], dim: usize) -> (out: Point)
    ensures
        out@ == max_pool_spec(views(points@), dim as nat),
        out@.len() == dim,
{
    if points.len() == 0 {
        return Point::filled(dim, ZERO);
    }
    let ghost ps = views(points@);
    let ghost goal = max_pool_spec(ps, dim as nat);
    let mut out: Vec<u32> = Vec::new();
    let mut j: usize = 0;
    while j < dim
        invariant
            j <= dim,
            points@.len() > 0,
            ps == views(points@),
            goal == max_pool_spec(ps, dim as nat),
            out@ == goal.take(j as int),
        decreases dim - j,
    {
        let mut best: u32 = component(&points[0], j);
        let mut i: usize = 1;
        while i < points.len()
            invariant
                1 <= i <= points@.len(),
                ps == views(points@),
                best == column_max(ps, j as int, i as nat),
            decreases points.len() - i,
        {
            let x = component(&points[i], j);
            if lt(best, x) {
                best = x;
            }
            i = i + 1;
        }
        out.push(best);
        assert(out@ =~= goal.take(j + 1));
        j = j + 1;
    }
    assert(out@ =~= goal);
    Point::new(out)
}

/// The mean of `points` in `dim` dimensions, each point weighted by the
/// weight in its place; a point without a weight counts for nothing.
pub fn weighted_mean<A: Arith>(ar: &A, points: &[Point], weights: &[u32], dim: usize) -> (out:
    Point)
    ensures
        out@ == weighted_mean_spec(ar, views(points@), weights@, dim as nat),
        out@.len() == dim,
{
    let ghost ps = views(points@);
    let mut total: u32 = ZERO;
    let mut i: usize = 0;
    while i < points.len()
        invariant
            i <= points@.len(),
            total == sum_upto(ar, weights@, i as nat),
        decreases points.len() - i,
    {
        total = ar.sum(total, word(weights, i));
        i = i + 1;
    }
    if points.len() == 0 || zero(total) {
        return mean(ar, points, dim);
    }
    let ghost goal = weighted_mean_spec(ar, ps, weights@, dim as nat);
    let mut out: Vec<u32> = Vec::new();
    let mut j: usize = 0;
    while j < dim
        invariant
            j <= dim,
            points@.len() > 0,
            magnitude(total) != 0,
            total == sum_upto(ar, weights@, points@.len()),
            ps == views(points@),
            goal == weighted_mean_spec(ar, ps, weights@, dim as nat),
            out@ == goal.take(j as int),
        decreases dim - j,
    {
        let mut acc: u32 = ZERO;
        let mut i: usize = 0;
        while i < points.len()
            invariant
                i <= points@.len(),
                ps == views(points@),
                acc == weighted_column_sum(ar, ps, weights@, j as int, i as nat),
            decreases points.len() - i,
        {
            acc = ar.sum(acc, ar.prod(word(weights, i), component(&points[i], j)));
            i = i + 1;
        }
        out.push(ar.quot(acc, total));
        assert(out@ =~= goal.take(j + 1));
        j = j + 1;
    }
    assert(out@ =~= goal);
    Point::new(out)
}

/// The merge of `points` by `kind` in `dim` dimensions.
pub open spec fn merge_spec<A: Arith>(ar: &A, kind: MergeKind, points: Seq<Seq<u32>>, dim: nat) -> Seq<u32> {
    match kind {
        MergeKind::Mean => mean_spec(ar, points, dim),
        MergeKind::MaxPool => max_pool_spec(points, dim),
    }
}

/// Merges `points` by `kind` into one vector of `dim` dimensions.
pub fn merge<A: Arith>(ar: &A, kind: MergeKind, points: &[Point], dim: usize) -> (out: Point)
    ensures
        out@ == merge_spec(ar, kind, views(points@), dim as nat),
        out@.len() == dim,
{
    match kind {
        MergeKind::Mean => mean(ar, points, dim),
        MergeKind::MaxPool => max_pool(points, dim),
    }
}

/// The mean `c` of `n - 1` vectors after `v` has joined them as the
/// `n`-th: each component moves towards `v` by one `n`-th of the way.
pub open spec fn shifted<A: Arith>(ar: &A, c: Seq<u32>, v: Seq<u32>, n: u64) -> Seq<u32> {
    Seq::new(
        c.len(),
        |j: int| ar.sum_spec(c[j], ar.quot_spec(ar.diff_spec(at(v, j), c[j]), ar.count_spec(n))),
    )
}

/// The mean `c` of `n + 1` vectors after `v` has left them: each component
/// moves away from `v` by one `n`-th of the way.
pub open spec fn unshifted<A: Arith>(ar: &A, c: Seq<u32>, v: Seq<u32>, n: u64) -> Seq<u32> {
    Seq::new(
        c.len(),
        |j: int| ar.diff_spec(c[j], ar.quot_spec(ar.diff_spec(at(v, j), c[j]), ar.count_spec(n))),
    )
}

/// The greatest distance between a component of `a` and the same component
/// of `b`, over the first `n` components.
pub open spec fn spread_upto<A: Arith>(ar: &A, a: Seq<u32>, b: Seq<u32>, n: nat) -> u32
    decreases n,
{
    if n == 0 {
        ZERO
    } else {
        let m = spread_upto(ar, a, b, (n - 1) as nat);
        let d = magnitude(ar.diff_spec(a[n - 1], at(b, n - 1)));
        if less(m, d) {
            d
        } else {
            m
        }
    }
}

/// The greatest distance between a component of `a` and the same component
/// of `b`.
pub open spec fn spread_spec<A: Arith>(ar: &A, a: Seq<u32>, b: Seq<u32>) -> u32 {
    spread_upto(ar, a, b, a.len())
}

/// The mean `c` after `v` has joined as the `n`-th vector.
pub fn shift<A: Arith>(ar: &A, c: &Point, v: &Point, n: u64) -> (out: Point)
    ensures
        out@ == shifted(ar, c@, v@, n),
        out@.len() == c@.len(),
{
    let count = ar.from_count(n);
    let ghost goal = shifted(ar, c@, v@, n);
    let mut out: Vec<u32> = Vec::new();
    let mut j: usize = 0;
    while j < c.dimensionality()
        invariant
            j <= c@.len(),
            count == ar.count_spec(n),
            goal == shifted(ar, c@, v@, n),
            out@ == goal.take(j as int),
        decreases c@.len() - j,
    {
        let cj = component(c, j);
        out.push(ar.sum(cj, ar.quot(ar.diff(component(v, j), cj), count)));
        assert(out@ =~= goal.take(j + 1));
        j = j + 1;
    }
    assert(out@ =~= goal);
    Point::new(out)
}

/// The mean `c` after `v` has left and `n` vectors remain.
pub fn unshift<A: Arith>(ar: &A, c: &Point, v: &Point, n: u64) -> (out: Point)
    ensures
        out@ == unshifted(ar, c@, v@, n),
        out@.len() == c@.len(),
{
    let count = ar.from_count(n);
    let ghost goal = unshifted(ar, c@, v@, n);
    let mut out: Vec<u32> = Vec::new();
    let mut j: usize = 0;
    while j < c.dimensionality()
        invariant
            j <= c@.len(),
            count == ar.count_spec(n),
            goal == unshifted(ar, c@, v@, n),
            out@ == goal.take(j as int),
        decreases c@.len() - j,
    {
        let cj = component(c, j);
        out.push(ar.diff(cj, ar.quot(ar.diff(component(v, j), cj), count)));
        assert(out@ =~= goal.take(j + 1));
        j = j + 1;
    }
    assert(out@ =~= goal);
    Point::new(out)
}

/// The greatest distance between a component of `a` and the same component
/// of `b`.
pub fn spread<A: Arith>(ar: &A, a: &Point, b: &Point) -> (r: u32)
    ensures
        r == spread_spec(ar, a@, b@),
{
    let mut m: u32 = ZERO;
    let mut j: usize = 0;
    while j < a.dimensionality()
        invariant
            j <= a@.len(),
            m == spread_upto(ar, a@, b@, j as nat),
        decreases a@.len() - j,
    {
        let d = abs(ar.diff(component(a, j), component(b, j)));
        if lt(m, d) {
            m = d;
        }
        j = j + 1;
    }
    m
}

} // verus!
