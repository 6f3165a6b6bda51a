//! An exact total preorder on points by polar angle about a fixed centroid,
//! used to reorder a polygon's vertices counter-clockwise.
//!
//! The centroid of `n` vertices is the rational point `(sx / n, sy / n)`, so
//! the direction from the centroid to a point `p`, scaled by the positive
//! factor `n`, is the integer vector `(n * p.x - sx, n * p.y - sy)`. Angles
//! are compared exactly on that vector: first by the half-plane band the
//! angle falls in, then by the sign of the cross product within one band.
//! The order agrees with comparing the angles themselves over the range
//! `(-pi, pi]`, with the zero vector placed at angle zero.

use crate::point::lemma_mul_bounds;
use crate::point::lemma_mul_bounds2;
use crate::point::Point;
use crate::polygon::sum_x;
use crate::polygon::sum_y;
use crate::polygon::Centroid;
use vstd::prelude::*;

verus! {

/// The band of the angle of the vector `(x, y)` over the range `(-pi, pi]`:
/// strictly below the x axis, along its positive ray (where the zero vector
/// also lands), strictly above the axis, or along its negative ray.
pub open spec fn half_of(x: int, y: int) -> int {
    if y < 0 {
        0
    } else if y == 0 && x >= 0 {
        1
    } else if y > 0 {
        2
    } else {
        3
    }
}

/// The cross product of the vectors `(x1, y1)` and `(x2, y2)`: positive when
/// the second lies counter-clockwise of the first.
pub open spec fn cross2(x1: int, y1: int, x2: int, y2: int) -> int {
    x1 * y2 - y1 * x2
}

/// The polar angle of `p` about the centroid `(sx / n, sy / n)` is at most
/// that of `q`, both angles taken in `(-pi, pi]`.
pub open spec fn angle_le_at(sx: int, sy: int, n: int, p: Point, q: Point) -> bool {
    let px = n * p.x - sx;
    let py = n * p.y - sy;
    let qx = n * q.x - sx;
    let qy = n * q.y - sy;
    half_of(px, py) < half_of(qx, qy) || (half_of(px, py) == half_of(qx, qy) && cross2(
        px,
        py,
        qx,
        qy,
    ) >= 0)
}

/// The polar angle of `p` about the centroid of the vertex sequence `s` is
/// at most that of `q`.
pub open spec fn angle_le_about(s: Seq<Point>, p: Point, q: Point) -> bool {
    angle_le_at(sum_x(s), sum_y(s), s.len() as int, p, q)
}

/// The first `end` entries of `v` are pairwise ordered by polar angle about
/// the centroid `(sx / n, sy / n)`.
pub open spec fn sorted_to(v: Seq<Point>, sx: int, sy: int, n: int, end: int) -> bool {
    forall|p: int, q: int| 0 <= p < q < end ==> angle_le_at(sx, sy, n, v[p], v[q])
}

/// As `sorted_to`, except that nothing is said of pairs whose upper index is
/// the hole `h`.
pub open spec fn sorted_except(v: Seq<Point>, sx: int, sy: int, n: int, end: int, h: int) -> bool {
    forall|p: int, q: int| 0 <= p < q < end && q != h ==> angle_le_at(sx, sy, n, v[p], v[q])
}

/// Any two points are comparable by angle about one centroid.
pub proof fn lemma_angle_le_about_total(sx: int, sy: int, n: int, p: Point, q: Point)
    ensures
        angle_le_at(sx, sy, n, p, q) || angle_le_at(sx, sy, n, q, p),
{
    let px = n * p.x - sx;
    let py = n * p.y - sy;
    let qx = n * q.x - sx;
    let qy = n * q.y - sy;
    assert(px * qy - py * qx == -(qx * py - qy * px)) by (nonlinear_arith);
}

/// Within one open half-plane, following the cross product is consistent:
/// the identity `cross(u, w) * vy == cross(u, v) * wy + cross(v, w) * uy`
/// carries two non-negative cross products over to the third.
proof fn lemma_cross_chain(ux: int, uy: int, vx: int, vy: int, wx: int, wy: int)
    requires
        ux * vy - uy * vx >= 0,
        vx * wy - vy * wx >= 0,
        (uy < 0 && vy < 0 && wy < 0) || (uy > 0 && vy > 0 && wy > 0),
    ensures
        ux * wy - uy * wx >= 0,
{
    assert((ux * wy - uy * wx) * vy == (ux * vy - uy * vx) * wy + (vx * wy - vy * wx)
        * uy) by (nonlinear_arith);
    if vy < 0 {
        assert((ux * vy - uy * vx) * wy <= 0) by (nonlinear_arith)
            requires
                ux * vy - uy * vx >= 0,
                wy < 0;
        assert((vx * wy - vy * wx) * uy <= 0) by (nonlinear_arith)
            requires
                vx * wy - vy * wx >= 0,
                uy < 0;
        assert(ux * wy - uy * wx >= 0) by (nonlinear_arith)
            requires
                (ux * wy - uy * wx) * vy <= 0,
                vy < 0;
    } else {
        assert((ux * vy - uy * vx) * wy >= 0) by (nonlinear_arith)
            requires
                ux * vy - uy * vx >= 0,
                wy > 0;
        assert((vx * wy - vy * wx) * uy >= 0) by (nonlinear_arith)
            requires
                vx * wy - vy * wx >= 0,
                uy > 0;
        assert(ux * wy - uy * wx >= 0) by (nonlinear_arith)
            requires
                (ux * wy - uy * wx) * vy >= 0,
                vy > 0;
    }
}

/// The angle order about one centroid is transitive.
pub proof fn lemma_angle_le_about_trans(sx: int, sy: int, n: int, p: Point, q: Point, r: Point)
    requires
        angle_le_at(sx, sy, n, p, q),
        angle_le_at(sx, sy, n, q, r),
    ensures
        angle_le_at(sx, sy, n, p, r),
{
    let px = n * p.x - sx;
    let py = n * p.y - sy;
    let qx = n * q.x - sx;
    let qy = n * q.y - sy;
    let rx = n * r.x - sx;
    let ry = n * r.y - sy;
    if half_of(px, py) == half_of(qx, qy) && half_of(qx, qy) == half_of(rx, ry) {
        let h = half_of(px, py);
        if h == 0 || h == 2 {
            lemma_cross_chain(px, py, qx, qy, rx, ry);
        } else {
            // Along either axis ray all three y components vanish, so the
            // cross product is zero outright.
            assert(px * ry - py * rx == 0) by (nonlinear_arith)
                requires
                    py == 0,
                    ry == 0;
        }
    }
}

/// Decides the angle order about the centroid held in exact rational form.
pub fn angle_le(c: &Centroid, p: &Point, q: &Point) -> (r: bool)
    requires
        c.n <= 0x4000_0000,
        -((c.n as int) * 0x8000_0000) <= c.sx <= (c.n as int) * 0x8000_0000,
        -((c.n as int) * 0x8000_0000) <= c.sy <= (c.n as int) * 0x8000_0000,
    ensures
        r == angle_le_at(c.sx as int, c.sy as int, c.n as int, *p, *q),
{
    proof {
        lemma_mul_bounds2(c.n as int, p.x as int, 0x4000_0000, 0x8000_0000);
        lemma_mul_bounds2(c.n as int, p.y as int, 0x4000_0000, 0x8000_0000);
        lemma_mul_bounds2(c.n as int, q.x as int, 0x4000_0000, 0x8000_0000);
        lemma_mul_bounds2(c.n as int, q.y as int, 0x4000_0000, 0x8000_0000);
    }
    let px = c.n as i128 * p.x as i128 - c.sx;
    let py = c.n as i128 * p.y as i128 - c.sy;
    let qx = c.n as i128 * q.x as i128 - c.sx;
    let qy = c.n as i128 * q.y as i128 - c.sy;
    let hp: i32 = if py < 0 {
        0
    } else if py == 0 && px >= 0 {
        1
    } else if py > 0 {
        2
    } else {
        3
    };
    let hq: i32 = if qy < 0 {
        0
    } else if qy == 0 && qx >= 0 {
        1
    } else if qy > 0 {
        2
    } else {
        3
    };
    if hp < hq {
        true
    } else if hp > hq {
        false
    } else {
        proof {
            lemma_mul_bounds(px as int, qy as int, 0x4000_0000_0000_0000);
            lemma_mul_bounds(py as int, qx as int, 0x4000_0000_0000_0000);
        }
        px * qy - py * qx >= 0
    }
}

} // verus!
