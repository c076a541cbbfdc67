//! 2D point with integer coordinates, exact squared-distance and
//! componentwise arithmetic.

use vstd::prelude::*;

verus! {

use vstd::arithmetic::div_mod::{
    lemma_div_basics_2,
    lemma_div_basics_5,
    lemma_div_is_ordered,
    lemma_div_is_ordered_by_denominator,
    lemma_div_pos_is_pos,
};

/// Largest coordinate magnitude accepted by the quadratic operations
/// (`distance_squared`, `distance`, `dot`): it keeps every squared
/// distance and dot product representable in an `i64`.
pub const COORD_LIMIT: i64 = 1_000_000_000;

#[derive(Clone, Copy, Debug, PartialEq, Eq, Structural)]
pub struct Point {
    pub x: i64,
    pub y: i64,
}

/// Both coordinates lie within `COORD_LIMIT` in magnitude.
pub open spec fn in_bounds(p: Point) -> bool {
    -COORD_LIMIT <= p.x <= COORD_LIMIT && -COORD_LIMIT <= p.y <= COORD_LIMIT
}

/// Squared Euclidean distance between two points, as a mathematical integer.
pub open spec fn dist2(p: Point, q: Point) -> int {
    (p.x - q.x) * (p.x - q.x) + (p.y - q.y) * (p.y - q.y)
}

/// Dot product of two points seen as vectors.
pub open spec fn spec_dot(p: Point, q: Point) -> int {
    p.x * q.x + p.y * q.y
}

/// Quotient of `a` by `b` rounded towards zero, as Rust's `/` computes it
/// on machine integers. Meaningful only for `b != 0`.
pub open spec fn trunc_div(a: int, b: int) -> int
    recommends
        b != 0,
{
    if a == 0 {
        0
    } else if a > 0 && b > 0 {
        a / b
    } else if a < 0 && b < 0 {
        (a * -1) / (b * -1)
    } else if a < 0 {
        ((a * -1) / b) * -1
    } else {
        (a / (b * -1)) * -1
    }
}

/// A truncated quotient of two `i64` values stays in `i64` range, except
/// for the lone overflowing case `i64::MIN / -1`.
proof fn lemma_trunc_div_in_range(x: int, d: int)
    requires
        i64::MIN <= x <= i64::MAX,
        i64::MIN <= d <= i64::MAX,
        d != 0,
        !(x == i64::MIN && d == -1),
    ensures
        i64::MIN <= trunc_div(x, d) <= i64::MAX,
{
    if x == 0 {
    } else if x > 0 && d > 0 {
        lemma_div_pos_is_pos(x, d);
        lemma_div_basics_5(x, d);
    } else if x < 0 && d < 0 {
        let a = x * -1;
        let b = d * -1;
        lemma_div_pos_is_pos(a, b);
        if b == 1 {
            lemma_div_basics_2(a);
        } else {
            lemma_div_is_ordered_by_denominator(a, 2, b);
            lemma_div_is_ordered(a, 0x8000_0000_0000_0000, 2);
            assert(0x8000_0000_0000_0000int / 2 == 0x4000_0000_0000_0000);
        }
    } else if x < 0 {
        let a = x * -1;
        lemma_div_pos_is_pos(a, d);
        if d == 1 {
            lemma_div_basics_2(a);
        } else {
            lemma_div_is_ordered_by_denominator(a, 2, d);
            lemma_div_is_ordered(a, 0x8000_0000_0000_0000, 2);
            assert(0x8000_0000_0000_0000int / 2 == 0x4000_0000_0000_0000);
        }
    } else {
        let b = d * -1;
        lemma_div_pos_is_pos(x, b);
        lemma_div_basics_5(x, b);
    }
}

/// Truncating division on `i64`, with the result pinned to `trunc_div`.
/// The zero divisor and the one overflowing quotient are ruled out by
/// contract, so the checked division cannot come back empty.
fn div_trunc(a: i64, b: i64) -> (q: i64)
    requires
        b != 0,
        !(a == i64::MIN && b == -1),
    ensures
        q == trunc_div(a as int, b as int),
{
    proof {
        lemma_trunc_div_in_range(a as int, b as int);
    }
    match a.checked_div(b) {
        Some(q) => q,
        None => {
            proof {
                assert(false);
            }
            0
        },
    }
}

/// Largest `r` with `r * r <= n`: the integer part of the square root.
pub(crate) fn isqrt(n: i64) -> (r: i64)
    requires
        n >= 0,
    ensures
        0 <= r,
        r * r <= n,
        (r + 1) * (r + 1) > n,
{
    let mut lo: i64 = 0;
    let mut hi: i64 = 3_037_000_499;
    assert((hi + 1) * (hi + 1) > n) by (nonlinear_arith)
        requires
            n <= 0x7fff_ffff_ffff_ffff && hi == 3_037_000_499,
    ;
    while lo < hi
        invariant
            0 <= lo <= hi <= 3_037_000_499,
            lo * lo <= n,
            (hi + 1) * (hi + 1) > n,
        decreases hi - lo,
    {
        let mid = lo + (hi - lo + 1) / 2;
        assert(lo < mid <= hi);
        assert(mid * mid <= 0x7fff_ffff_ffff_ffff) by (nonlinear_arith)
            requires
                0 < mid <= 3_037_000_499,
        ;
        if mid * mid <= n {
            lo = mid;
        } else {
            hi = mid - 1;
        }
    }
    lo
}

/// A squared distance is never negative.
pub proof fn lemma_dist2_nonneg(p: Point, q: Point)
    ensures
        dist2(p, q) >= 0,
{
    let dx = p.x - q.x;
    let dy = p.y - q.y;
    assert(dx * dx >= 0 && dy * dy >= 0) by (nonlinear_arith);
}

/// Squared distance does not depend on the order of its arguments.
pub proof fn lemma_dist2_symmetric(p: Point, q: Point)
    ensures
        dist2(p, q) == dist2(q, p),
{
    let dx = p.x - q.x;
    let dy = p.y - q.y;
    assert(dx * dx == (-dx) * (-dx) && dy * dy == (-dy) * (-dy)) by (nonlinear_arith);
}

impl Point {
    /// Exact squared Euclidean distance between `self` and `other`.
    pub fn distance_squared(&self, other: &Point) -> (r: i64)
        requires
            in_bounds(*self),
            in_bounds(*other),
        ensures
            r == dist2(*self, *other),
            r >= 0,
    {
        proof {
            lemma_dist2_nonneg(*self, *other);
        }
        let dx = self.x - other.x;
        let dy = self.y - other.y;
        assert(dx * dx <= 4_000_000_000_000_000_000 && dx * dx >= 0) by (nonlinear_arith)
            requires
                -2_000_000_000 <= dx <= 2_000_000_000,
        ;
        assert(dy * dy <= 4_000_000_000_000_000_000 && dy * dy >= 0) by (nonlinear_arith)
            requires
                -2_000_000_000 <= dy <= 2_000_000_000,
        ;
        dx * dx + dy * dy
    }

    /// Integer part of the Euclidean distance between `self` and `other`:
    /// the largest `r` whose square does not exceed the squared distance.
    pub fn distance(&self, other: &Point) -> (r: i64)
        requires
            in_bounds(*self),
            in_bounds(*other),
        ensures
            0 <= r,
            r * r <= dist2(*self, *other),
            (r + 1) * (r + 1) > dist2(*self, *other),
    {
        isqrt(self.distance_squared(other))
    }

    /// Dot product of `self` and `other`.
    pub fn dot(&self, other: &Point) -> (r: i64)
        requires
            in_bounds(*self),
            in_bounds(*other),
        ensures
            r == spec_dot(*self, *other),
    {
        assert(-1_000_000_000_000_000_000 <= self.x * other.x <= 1_000_000_000_000_000_000)
            by (nonlinear_arith)
            requires
                -1_000_000_000 <= self.x <= 1_000_000_000,
                -1_000_000_000 <= other.x <= 1_000_000_000,
        ;
        assert(-1_000_000_000_000_000_000 <= self.y * other.y <= 1_000_000_000_000_000_000)
            by (nonlinear_arith)
            requires
                -1_000_000_000 <= self.y <= 1_000_000_000,
                -1_000_000_000 <= other.y <= 1_000_000_000,
        ;
        let px = self.x * other.x;
        let py = self.y * other.y;
        px + py
    }

    /// Componentwise sum.
    pub fn add(&self, other: &Point) -> (r: Point)
        requires
            i64::MIN <= self.x + other.x <= i64::MAX,
            i64::MIN <= self.y + other.y <= i64::MAX,
        ensures
            r.x == self.x + other.x,
            r.y == self.y + other.y,
    {
        Point { x: self.x + other.x, y: self.y + other.y }
    }

    /// Componentwise difference.
    pub fn sub(&self, other: &Point) -> (r: Point)
        requires
            i64::MIN <= self.x - other.x <= i64::MAX,
            i64::MIN <= self.y - other.y <= i64::MAX,
        ensures
            r.x == self.x - other.x,
            r.y == self.y - other.y,
    {
        Point { x: self.x - other.x, y: self.y - other.y }
    }

    /// Componentwise product.
    pub fn mul(&self, other: &Point) -> (r: Point)
        requires
            i64::MIN <= self.x * other.x <= i64::MAX,
            i64::MIN <= self.y * other.y <= i64::MAX,
        ensures
            r.x == self.x * other.x,
            r.y == self.y * other.y,
    {
        Point { x: self.x * other.x, y: self.y * other.y }
    }

    /// Componentwise quotient, rounded towards zero.
    pub fn div(&self, other: &Point) -> (r: Point)
        requires
            other.x != 0,
            other.y != 0,
            !(self.x == i64::MIN && other.x == -1),
            !(self.y == i64::MIN && other.y == -1),
        ensures
            r.x == trunc_div(self.x as int, other.x as int),
            r.y == trunc_div(self.y as int, other.y as int),
    {
        Point { x: div_trunc(self.x, other.x), y: div_trunc(self.y, other.y) }
    }

    /// Componentwise negation.
    pub fn neg(&self) -> (r: Point)
        requires
            self.x != i64::MIN,
            self.y != i64::MIN,
        ensures
            r.x == -self.x,
            r.y == -self.y,
    {
        Point { x: -self.x, y: -self.y }
    }
}

} // verus!
