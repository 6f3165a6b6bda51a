//! Planar points with exact integer coordinates, and the orientation,
//! betweenness and segment-intersection predicates built on the signed-area
//! primitive.
//!
//! Coordinates are fixed-point values: a caller that starts from fractional
//! coordinates scales them so that one unit here stands for its comparison
//! tolerance. Two points are then the same exactly when both scaled
//! coordinates agree, and the predicates below compare the signed area
//! against zero exactly, where a fractional-coordinate caller would have
//! compared against a small epsilon.

use vstd::prelude::*;

verus! {

/// An immutable 2D coordinate pair. Copied freely; no ownership concerns.
#[derive(Clone, Copy, Debug, PartialEq, Eq, Structural)]
pub struct Point {
    pub x: i32,
    pub y: i32,
}

/// Twice the signed area of the triangle `a, b, c`; positive exactly when
/// `c` lies to the left of the directed line from `a` to `b`.
pub open spec fn area2(a: Point, b: Point, c: Point) -> int {
    (c.x - b.x) * (a.y - b.y) - (a.x - b.x) * (c.y - b.y)
}

/// `c` lies strictly to the left of the directed segment `a -> b`.
pub open spec fn is_left(a: Point, b: Point, c: Point) -> bool {
    area2(a, b, c) > 0
}

/// `c` lies to the left of, or on, the directed segment `a -> b`.
pub open spec fn is_left_on(a: Point, b: Point, c: Point) -> bool {
    area2(a, b, c) >= 0
}

/// The three points lie on one line.
pub open spec fn is_collinear(a: Point, b: Point, c: Point) -> bool {
    area2(a, b, c) == 0
}

/// `p` lies on the closed segment from `a` to `b`: collinear with it, and
/// with its x coordinate (y if the segment is vertical) inside the closed
/// range spanned by the endpoints, in either direction.
pub open spec fn is_between(a: Point, b: Point, p: Point) -> bool {
    is_collinear(a, b, p) && if a.x != b.x {
        (a.x <= p.x <= b.x) || (a.x >= p.x >= b.x)
    } else {
        (a.y <= p.y <= b.y) || (a.y >= p.y >= b.y)
    }
}

/// The open segments `a0 a1` and `b0 b1` cross properly: no endpoint is
/// collinear with the other segment, and each segment's endpoints lie
/// strictly on opposite sides of the other segment's supporting line.
pub open spec fn is_proper_intersect(a0: Point, a1: Point, b0: Point, b1: Point) -> bool {
    &&& !is_collinear(a0, a1, b0)
    &&& !is_collinear(a0, a1, b1)
    &&& !is_collinear(b0, b1, a0)
    &&& !is_collinear(b0, b1, a1)
    &&& (is_left(a0, a1, b0) != is_left(a0, a1, b1))
    &&& (is_left(b0, b1, a0) != is_left(b0, b1, a1))
}

/// The closed segments `a0 a1` and `b0 b1` meet: they cross properly, or an
/// endpoint of one lies on the other.
pub open spec fn is_intersect(a0: Point, a1: Point, b0: Point, b1: Point) -> bool {
    ||| is_proper_intersect(a0, a1, b0, b1)
    ||| is_between(a0, a1, b0)
    ||| is_between(a0, a1, b1)
    ||| is_between(b0, b1, a0)
    ||| is_between(b0, b1, a1)
}

/// Both factors bounded by `m` in magnitude bound the product by `m * m`.
pub(crate) proof fn lemma_mul_bounds(x: int, y: int, m: int)
    requires
        -m <= x <= m,
        -m <= y <= m,
        0 <= m,
    ensures
        -(m * m) <= x * y <= m * m,
{
    assert(-(m * m) <= x * y <= m * m) by (nonlinear_arith)
        requires
            -m <= x <= m,
            -m <= y <= m,
            0 <= m;
}

/// Factors bounded separately in magnitude bound the product by the product
/// of the bounds.
pub(crate) proof fn lemma_mul_bounds2(x: int, y: int, mx: int, my: int)
    requires
        -mx <= x <= mx,
        -my <= y <= my,
        0 <= mx,
        0 <= my,
    ensures
        -(mx * my) <= x * y <= mx * my,
{
    assert(-(mx * my) <= x * y <= mx * my) by (nonlinear_arith)
        requires
            -mx <= x <= mx,
            -my <= y <= my,
            0 <= mx,
            0 <= my;
}

/// Twice the area of a triangle with coordinates in the range of `i32` is
/// bounded by twice the square of that range.
pub proof fn lemma_area2_bounds(a: Point, b: Point, c: Point)
    ensures
        -0x2_0000_0000_0000_0000 <= area2(a, b, c) <= 0x2_0000_0000_0000_0000,
{
    lemma_mul_bounds(c.x - b.x, a.y - b.y, 0x1_0000_0000);
    lemma_mul_bounds(a.x - b.x, c.y - b.y, 0x1_0000_0000);
}

/// Reversing the first two arguments negates the signed area.
pub proof fn lemma_area2_antisymmetry(a: Point, b: Point, c: Point)
    ensures
        area2(b, a, c) == -area2(a, b, c),
{
    let (ax, ay) = (a.x as int, a.y as int);
    let (bx, by) = (b.x as int, b.y as int);
    let (cx, cy) = (c.x as int, c.y as int);
    assert((cx - ax) * (by - ay) - (bx - ax) * (cy - ay) == -((cx - bx) * (ay - by) - (ax - bx)
        * (cy - by))) by (nonlinear_arith);
}

/// Swapping the last two arguments negates the signed area.
pub proof fn lemma_area2_swap_last(a: Point, b: Point, c: Point)
    ensures
        area2(a, c, b) == -area2(a, b, c),
{
    let (ax, ay) = (a.x as int, a.y as int);
    let (bx, by) = (b.x as int, b.y as int);
    let (cx, cy) = (c.x as int, c.y as int);
    assert((bx - cx) * (ay - cy) - (ax - cx) * (by - cy) == -((cx - bx) * (ay - by) - (ax - bx)
        * (cy - by))) by (nonlinear_arith);
}

/// A degenerate triangle, two of whose corners coincide, has zero signed
/// area, so its corners count as collinear.
pub proof fn lemma_collinear_degenerate(a: Point, b: Point, c: Point)
    requires
        a == b || a == c || b == c,
    ensures
        is_collinear(a, b, c),
{
    let (ax, ay) = (a.x as int, a.y as int);
    let (bx, by) = (b.x as int, b.y as int);
    let (cx, cy) = (c.x as int, c.y as int);
    if a == b {
        assert((cx - bx) * (ay - by) - (ax - bx) * (cy - by) == 0) by (nonlinear_arith)
            requires
                ax == bx,
                ay == by;
    } else if a == c {
        assert((cx - bx) * (ay - by) - (ax - bx) * (cy - by) == 0) by (nonlinear_arith)
            requires
                ax == cx,
                ay == cy;
    } else {
        assert((cx - bx) * (ay - by) - (ax - bx) * (cy - by) == 0) by (nonlinear_arith)
            requires
                bx == cx,
                by == cy;
    }
}

/// The closed-segment test includes both endpoints.
pub proof fn lemma_between_endpoints(a: Point, b: Point)
    ensures
        is_between(a, b, a),
        is_between(a, b, b),
{
    lemma_collinear_degenerate(a, b, a);
    lemma_collinear_degenerate(a, b, b);
}

/// Reversing one segment's endpoints does not change the proper-crossing
/// test.
proof fn lemma_proper_intersect_reverse(a0: Point, a1: Point, b0: Point, b1: Point)
    ensures
        is_proper_intersect(a0, a1, b0, b1) == is_proper_intersect(a1, a0, b0, b1),
{
    lemma_area2_antisymmetry(a0, a1, b0);
    lemma_area2_antisymmetry(a0, a1, b1);
    lemma_area2_antisymmetry(b0, b1, a0);
    lemma_area2_antisymmetry(b0, b1, a1);
}

/// The segment-intersection test is symmetric: swapping the two segments, or
/// reversing either segment's endpoints, does not change it.
pub proof fn lemma_intersect_symmetry(a0: Point, a1: Point, b0: Point, b1: Point)
    ensures
        is_intersect(a0, a1, b0, b1) == is_intersect(b0, b1, a0, a1),
        is_intersect(a0, a1, b0, b1) == is_intersect(a1, a0, b0, b1),
        is_intersect(a0, a1, b0, b1) == is_intersect(a0, a1, b1, b0),
{
    lemma_proper_intersect_reverse(a0, a1, b0, b1);
    lemma_proper_intersect_reverse(b0, b1, a0, a1);
    lemma_area2_antisymmetry(a0, a1, b0);
    lemma_area2_antisymmetry(a0, a1, b1);
    lemma_area2_antisymmetry(b0, b1, a0);
    lemma_area2_antisymmetry(b0, b1, a1);
}

impl Point {
    /// Builds the point with the given coordinates.
    pub fn new(x: i32, y: i32) -> (p: Point)
        ensures
            p == (Point { x, y }),
    {
        Point { x, y }
    }

    /// The x coordinate.
    pub fn x(&self) -> (r: i32)
        ensures
            r == self.x,
    {
        self.x
    }

    /// The y coordinate.
    pub fn y(&self) -> (r: i32)
        ensures
            r == self.y,
    {
        self.y
    }

    /// Twice the signed area of the triangle `a, b, c`.
    pub fn double_area(a: &Point, b: &Point, c: &Point) -> (r: i128)
        ensures
            r == area2(*a, *b, *c),
    {
        let d1 = c.x as i128 - b.x as i128;
        let d2 = a.y as i128 - b.y as i128;
        let d3 = a.x as i128 - b.x as i128;
        let d4 = c.y as i128 - b.y as i128;
        proof {
            lemma_mul_bounds(d1 as int, d2 as int, 0x1_0000_0000);
            lemma_mul_bounds(d3 as int, d4 as int, 0x1_0000_0000);
        }
        d1 * d2 - d3 * d4
    }

    /// `maybe_left` lies strictly to the left of the directed segment
    /// `a -> b`.
    pub fn left(a: &Point, b: &Point, maybe_left: &Point) -> (r: bool)
        ensures
            r == is_left(*a, *b, *maybe_left),
    {
        Self::double_area(a, b, maybe_left) > 0
    }

    /// `maybe_left` lies to the left of, or on, the directed segment
    /// `a -> b`.
    pub fn left_on(a: &Point, b: &Point, maybe_left: &Point) -> (r: bool)
        ensures
            r == is_left_on(*a, *b, *maybe_left),
    {
        Self::double_area(a, b, maybe_left) >= 0
    }

    /// The three points lie on one line.
    pub fn collinear(a: &Point, b: &Point, c: &Point) -> (r: bool)
        ensures
            r == is_collinear(*a, *b, *c),
    {
        Self::double_area(a, b, c) == 0
    }

    /// The open segments `a0 a1` and `b0 b1` cross properly.
    fn proper_intersect(a0: &Point, a1: &Point, b0: &Point, b1: &Point) -> (r: bool)
        ensures
            r == is_proper_intersect(*a0, *a1, *b0, *b1),
    {
        if Self::collinear(a0, a1, b0) || Self::collinear(a0, a1, b1) || Self::collinear(
            b0,
            b1,
            a0,
        ) || Self::collinear(b0, b1, a1) {
            return false;
        }
        (Self::left(a0, a1, b0) ^ Self::left(a0, a1, b1)) && (Self::left(b0, b1, a0) ^ Self::left(
            b0,
            b1,
            a1,
        ))
    }

    /// `maybe_between` lies on the closed segment from `a` to `b`.
    pub fn between(a: &Point, b: &Point, maybe_between: &Point) -> (r: bool)
        ensures
            r == is_between(*a, *b, *maybe_between),
    {
        if !Self::collinear(a, b, maybe_between) {
            return false;
        }
        if a.x != b.x {
            ((a.x <= maybe_between.x) && (maybe_between.x <= b.x)) || ((a.x >= maybe_between.x) && (
            maybe_between.x >= b.x))
        } else {
            ((a.y <= maybe_between.y) && (maybe_between.y <= b.y)) || ((a.y >= maybe_between.y) && (
            maybe_between.y >= b.y))
        }
    }

    /// The closed segments `a0 a1` and `b0 b1` meet.
    pub fn intersect(a0: &Point, a1: &Point, b0: &Point, b1: &Point) -> (r: bool)
        ensures
            r == is_intersect(*a0, *a1, *b0, *b1),
    {
        Self::proper_intersect(a0, a1, b0, b1) || (Self::between(a0, a1, b0) || Self::between(
            a0,
            a1,
            b1,
        ) || Self::between(b0, b1, a0) || Self::between(b0, b1, a1))
    }
}

} // verus!
