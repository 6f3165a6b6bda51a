//! Polygons as ordered cyclic vertex lists, with construction, centroid
//! sums, adjacency, visibility (diagonal) determination, and sub-polygon
//! index extraction.

use crate::point::area2;
use crate::point::is_collinear;
use crate::point::is_intersect;
use crate::point::is_left;
use crate::point::is_left_on;
use crate::point::lemma_intersect_symmetry;
use crate::point::Point;
use vstd::arithmetic::div_mod::lemma_mod_multiples_vanish;
use vstd::arithmetic::div_mod::lemma_small_mod;
use vstd::prelude::*;

verus! {

/// An ordered sequence of points, read as a cyclic vertex list: index `i` is
/// adjacent to `i - 1` and `i + 1` modulo the length. The structure itself
/// enforces no invariant; visibility and triangulation queries are
/// meaningful only when the caller supplies a simple polygon.
#[derive(Debug)]
pub struct Polygon {
    points: Vec<Point>,
}

impl View for Polygon {
    type V = Seq<Point>;

    closed spec fn view(&self) -> Seq<Point> {
        self.points@
    }
}

/// The cyclic successor of index `c` in a polygon of `n` vertices.
pub open spec fn nxt(n: int, c: int) -> int {
    if c + 1 == n {
        0
    } else {
        c + 1
    }
}

/// The cyclic predecessor of index `c` in a polygon of `n` vertices.
pub open spec fn prv(n: int, c: int) -> int {
    if c == 0 {
        n - 1
    } else {
        c - 1
    }
}

/// Indices `a` and `b` are cyclically adjacent in a polygon of `n` vertices.
pub open spec fn is_edge(n: int, a: int, b: int) -> bool {
    let d = if a >= b {
        a - b
    } else {
        b - a
    };
    d == 1 || d == n - 1
}

/// How many vertices lie strictly between `k` and `i`, walking forward
/// cyclically from `k + 1` until just before `i`.
pub open spec fn chain_len(n: int, i: int, k: int) -> int {
    if n <= 0 {
        0
    } else {
        (i - k - 1) % n
    }
}

/// The `t`-th vertex index on the forward walk that starts at `k + 1`.
pub open spec fn chain_idx(n: int, k: int, t: int) -> int {
    if n <= 0 {
        0
    } else {
        (k + 1 + t) % n
    }
}

/// The polygon edge that leaves vertex `c` blocks the open segment between
/// vertices `a` and `b`: it shares no endpoint with either of them, yet the
/// segments meet.
pub open spec fn blocks(s: Seq<Point>, a: int, b: int, c: int) -> bool {
    let n = s.len() as int;
    let e0 = s[c];
    let e1 = s[nxt(n, c)];
    &&& !(e0 == s[a] || e1 == s[a] || e0 == s[b] || e1 == s[b])
    &&& is_intersect(s[a], s[b], e0, e1)
}

/// The open segment between vertices `a` and `b` crosses no polygon edge.
pub open spec fn spec_diagonalie(s: Seq<Point>, a: int, b: int) -> bool {
    forall|c: int| 0 <= c < s.len() ==> !#[trigger] blocks(s, a, b, c)
}

/// Vertex `b`, viewed from vertex `a`, lies within the interior angular cone
/// formed by `a`'s two incident edges: two half-plane tests when `a`'s
/// interior angle is convex, the complement of the blocked double half-plane
/// when it is reflex.
pub open spec fn spec_in_cone(s: Seq<Point>, a: int, b: int) -> bool {
    let n = s.len() as int;
    let av = s[a];
    let a_prev = s[prv(n, a)];
    let a_next = s[nxt(n, a)];
    let bv = s[b];
    if is_left_on(av, a_next, a_prev) {
        is_left(av, bv, a_prev) && is_left(bv, av, a_next)
    } else {
        !(is_left_on(av, bv, a_next) && is_left_on(bv, av, a_prev))
    }
}

/// The segment between vertices `a` and `b` is an internal diagonal: each
/// endpoint sees the other within its cone, and no polygon edge crosses the
/// segment.
pub open spec fn spec_diagonal(s: Seq<Point>, a: int, b: int) -> bool {
    spec_in_cone(s, a, b) && spec_in_cone(s, b, a) && spec_diagonalie(s, a, b)
}

/// The sum of the x coordinates of a vertex sequence.
pub open spec fn sum_x(s: Seq<Point>) -> int
    decreases s.len(),
{
    if s.len() == 0 {
        0
    } else {
        sum_x(s.drop_last()) + s.last().x
    }
}

/// The sum of the y coordinates of a vertex sequence.
pub open spec fn sum_y(s: Seq<Point>) -> int
    decreases s.len(),
{
    if s.len() == 0 {
        0
    } else {
        sum_y(s.drop_last()) + s.last().y
    }
}

/// The coordinate sums of `n` points are bounded by `n` times the
/// coordinate range.
pub proof fn lemma_sum_bounds(s: Seq<Point>)
    ensures
        -(s.len() * 0x8000_0000) <= sum_x(s) <= s.len() * 0x8000_0000,
        -(s.len() * 0x8000_0000) <= sum_y(s) <= s.len() * 0x8000_0000,
    decreases s.len(),
{
    if s.len() > 0 {
        lemma_sum_bounds(s.drop_last());
    }
}

/// The fan decomposition of a vertex sequence from its first vertex: the
/// sum, over `t` from the given start up to the second-to-last index, of the
/// signed areas of the triangles `s[0], s[t], s[t + 1]`.
pub open spec fn fan_area2(s: Seq<Point>, t: int) -> int
    decreases s.len() - t,
{
    if t < 1 || t + 1 >= s.len() {
        0
    } else {
        area2(s[0], s[t], s[t + 1]) + fan_area2(s, t + 1)
    }
}

/// Twice the signed area of the whole polygon, as the fan sum from its
/// first vertex.
pub open spec fn polygon_area2(s: Seq<Point>) -> int {
    fan_area2(s, 1)
}

/// Adjacency does not depend on the order of the two indices.
pub proof fn lemma_edge_symmetry(n: int, a: int, b: int)
    ensures
        is_edge(n, a, b) == is_edge(n, b, a),
{
}

/// The three-part diagonal certificate does not depend on the order of the
/// two indices.
pub proof fn lemma_diagonal_symmetry(s: Seq<Point>, a: int, b: int)
    requires
        0 <= a < s.len(),
        0 <= b < s.len(),
    ensures
        spec_diagonal(s, a, b) == spec_diagonal(s, b, a),
{
    assert forall|c: int| 0 <= c < s.len() implies (blocks(s, a, b, c) == blocks(
        s,
        b,
        a,
        c,
    )) by {
        let n = s.len() as int;
        lemma_intersect_symmetry(s[a], s[b], s[c], s[nxt(n, c)]);
    }
    assert(spec_diagonalie(s, a, b) == spec_diagonalie(s, b, a));
}

/// A negative offset within one period wraps by a single addition of the
/// modulus.
pub(crate) proof fn lemma_mod_shift_up(x: int, n: int)
    requires
        0 < n,
        -n <= x < 0,
    ensures
        x % n == x + n,
{
    lemma_mod_multiples_vanish(1, x, n);
    lemma_small_mod((x + n) as nat, n as nat);
}

/// An offset one period beyond the range wraps by a single subtraction of
/// the modulus.
proof fn lemma_mod_shift_down(x: int, n: int)
    requires
        0 < n,
        n <= x < n + n,
    ensures
        x % n == x - n,
{
    lemma_mod_multiples_vanish(1, x - n, n);
    lemma_small_mod((x - n) as nat, n as nat);
}

/// Walking one step on from the `t`-th chain index reaches the
/// `t + 1`-st chain index.
proof fn lemma_chain_idx_step(n: int, k: int, t: int)
    requires
        0 < n,
        0 <= k < n,
        0 <= t,
    ensures
        chain_idx(n, k, t + 1) == nxt(n, chain_idx(n, k, t)),
{
    let x = k + 1 + t;
    let r = x % n;
    vstd::arithmetic::div_mod::lemma_mod_bound(x, n);
    vstd::arithmetic::div_mod::lemma_fundamental_div_mod(x, n);
    let q = x / n;
    if r + 1 == n {
        assert(x + 1 == n * (q + 1)) by (nonlinear_arith)
            requires
                x == n * q + r,
                r + 1 == n;
        lemma_mod_multiples_vanish(q + 1, 0, n);
        assert((n * (q + 1) + 0) % n == 0int % n);
        lemma_small_mod(0, n as nat);
    } else {
        assert(x + 1 == n * q + (r + 1));
        lemma_mod_multiples_vanish(q, r + 1, n);
        lemma_small_mod((r + 1) as nat, n as nat);
    }
}

/// Splitting the chain of the pair `(i, k)` at its `t`-th vertex `j` leaves
/// the two strictly shorter chains of `(i, j)` and `(j, k)`.
pub proof fn lemma_chain_split(n: int, i: int, k: int, t: int)
    requires
        0 < n,
        0 <= i < n,
        0 <= k < n,
        i != k,
        0 <= t < chain_len(n, i, k),
    ensures
        0 <= chain_idx(n, k, t) < n,
        chain_idx(n, k, t) != i,
        chain_idx(n, k, t) != k,
        chain_len(n, i, chain_idx(n, k, t)) == chain_len(n, i, k) - 1 - t,
        chain_len(n, chain_idx(n, k, t), k) == t,
{
    let ll = chain_len(n, i, k);
    if i > k {
        lemma_small_mod((i - k - 1) as nat, n as nat);
        assert(ll == i - k - 1);
    } else {
        lemma_mod_shift_up(i - k - 1, n);
        assert(ll == i - k - 1 + n);
    }
    assert(ll <= n - 2);
    let x = k + 1 + t;
    let j = chain_idx(n, k, t);
    if x < n {
        lemma_small_mod(x as nat, n as nat);
        assert(j == x);
    } else {
        lemma_mod_shift_down(x, n);
        assert(j == x - n);
    }
    // The back chain, from k + 1 up to just before j, has exactly t members.
    if j == x {
        lemma_small_mod(t as nat, n as nat);
        assert(chain_len(n, j, k) == t);
    } else {
        lemma_mod_shift_up(j - k - 1, n);
        assert(chain_len(n, j, k) == t);
    }
    // The front chain, from j + 1 up to just before i, has the remaining
    // ll - 1 - t members.
    let front = i - j - 1;
    if 0 <= front < n {
        lemma_small_mod(front as nat, n as nat);
    } else if front < 0 {
        lemma_mod_shift_up(front, n);
    } else {
        lemma_mod_shift_down(front, n);
    }
    assert(chain_len(n, i, j) == ll - 1 - t);
    // The walk reaches neither endpoint: each endpoint would close the full
    // cycle, which the chain bounds rule out.
    if j == i {
        lemma_mod_shift_up(-1, n);
        assert(chain_len(n, i, j) == n - 1);
    }
    if j == k {
        lemma_mod_shift_up(-1, n);
        assert(chain_len(n, j, k) == n - 1);
    }
}

/// Exchanging two entries of a sequence leaves its multiset of elements
/// unchanged.
proof fn lemma_swap_multiset(v: Seq<Point>, a: int, b: int)
    requires
        0 <= a < v.len(),
        0 <= b < v.len(),
    ensures
        v.update(a, v[b]).update(b, v[a]).to_multiset() == v.to_multiset(),
{
    broadcast use vstd::multiset::group_multiset_axioms;
    broadcast use vstd::seq_lib::group_to_multiset_ensures;

    let w = v.update(a, v[b]).update(b, v[a]);
    vstd::seq_lib::to_multiset_update(v, a, v[b]);
    vstd::seq_lib::to_multiset_update(v.update(a, v[b]), b, v[a]);
    if a == b {
        assert(w =~= v);
        assert(w.to_multiset() =~= v.to_multiset());
    } else {
        let m = v.to_multiset();
        assert(v.contains(v[a]) && v.contains(v[b]));
        assert(v.update(a, v[b])[b] == v[b]);
        assert(w.to_multiset() =~= m.insert(v[b]).remove(v[a]).insert(v[a]).remove(v[b]));
        assert(m.insert(v[b]).remove(v[a]).insert(v[a]).remove(v[b]) =~= m);
    }
}

/// The centroid of a polygon's vertices, kept in exact rational form: the
/// centroid is the point `(sx / n, sy / n)`, where `sx` and `sy` are the
/// coordinate sums over all `n` vertices.
pub struct Centroid {
    /// The sum of the x coordinates of the vertices.
    pub sx: i128,
    /// The sum of the y coordinates of the vertices.
    pub sy: i128,
    /// The number of vertices.
    pub n: usize,
}

impl Polygon {
    /// Builds the polygon with no vertices.
    pub fn empty() -> (p: Polygon)
        ensures
            p@ == Seq::<Point>::empty(),
    {
        Polygon { points: Vec::new() }
    }

    /// Builds the polygon that owns the given vertex list.
    pub fn new(points: Vec<Point>) -> (p: Polygon)
        ensures
            p@ == points@,
    {
        Polygon { points }
    }

    /// Builds a polygon from a flat coordinate buffer, grouping consecutive
    /// pairs into vertices; an odd trailing value is dropped.
    pub fn from_slice(slice: &[i32]) -> (p: Polygon)
        ensures
            p@.len() == slice@.len() / 2,
            forall|i: int|
                0 <= i < p@.len() ==> p@[i] == (Point { x: slice@[2 * i], y: slice@[2 * i + 1] }),
    {
        let sl = slice.len();
        let total = sl / 2;
        proof {
            vstd::arithmetic::div_mod::lemma_fundamental_div_mod(sl as int, 2);
            vstd::arithmetic::div_mod::lemma_mod_bound(sl as int, 2);
        }
        let mut points: Vec<Point> = Vec::new();
        let mut i: usize = 0;
        while i < total
            invariant
                sl == slice@.len(),
                total == slice@.len() / 2,
                2 * total <= sl,
                i <= total,
                points@.len() == i,
                forall|t: int|
                    0 <= t < i ==> points@[t] == (Point {
                        x: slice@[2 * t],
                        y: slice@[2 * t + 1],
                    }),
            decreases total - i,
        {
            assert(2 * i + 1 < slice@.len());
            let p = Point::new(slice[2 * i], slice[2 * i + 1]);
            points.push(p);
            i = i + 1;
        }
        Polygon { points }
    }

    /// Appends one vertex at the end of the sequence.
    pub fn push(&mut self, a: Point)
        ensures
            final(self)@ == old(self)@.push(a),
    {
        self.points.push(a);
    }

    /// The number of vertices.
    pub fn len(&self) -> (r: usize)
        ensures
            r == self@.len(),
    {
        self.points.len()
    }

    /// The vertex at the given index.
    pub fn vertex(&self, i: usize) -> (r: Point)
        requires
            i < self@.len(),
        ensures
            r == self@[i as int],
    {
        self.points[i]
    }

    /// The exact centroid sums of the vertex list.
    pub fn centroid(&self) -> (c: Centroid)
        ensures
            c.sx == sum_x(self@),
            c.sy == sum_y(self@),
            c.n == self@.len(),
    {
        let n = self.points.len();
        let mut sx: i128 = 0;
        let mut sy: i128 = 0;
        let mut i: usize = 0;
        while i < n
            invariant
                n == self@.len(),
                i <= n,
                sx == sum_x(self@.take(i as int)),
                sy == sum_y(self@.take(i as int)),
                -(i * 0x8000_0000) <= sx <= i * 0x8000_0000,
                -(i * 0x8000_0000) <= sy <= i * 0x8000_0000,
            decreases n - i,
        {
            let p = self.points[i];
            proof {
                assert(self@.take(i + 1).drop_last() =~= self@.take(i as int));
                assert(self@.take(i + 1).last() == self@[i as int]);
            }
            sx = sx + p.x as i128;
            sy = sy + p.y as i128;
            i = i + 1;
        }
        proof {
            assert(self@.take(n as int) =~= self@);
        }
        Centroid { sx, sy, n }
    }

    /// Reorders the vertices by ascending polar angle about the centroid of
    /// the vertex set. On a convex vertex set this produces a
    /// counter-clockwise traversal; for non-convex shapes the reordering is a
    /// heuristic and need not preserve simplicity. The vertex-count bound
    /// keeps the exact angle comparisons within 128-bit arithmetic.
    #[verifier::loop_isolation(false)]
    pub fn ccw_sort(&mut self)
        requires
            old(self)@.len() <= 0x4000_0000,
        ensures
            final(self)@.to_multiset() == old(self)@.to_multiset(),
            final(self)@.len() == old(self)@.len(),
            forall|t: int|
                0 <= t && t + 1 < final(self)@.len() ==> crate::angle::angle_le_about(
                    old(self)@,
                    #[trigger] final(self)@[t],
                    final(self)@[t + 1],
                ),
    {
        let ghost s0 = self@;
        let ghost gsx = sum_x(s0);
        let ghost gsy = sum_y(s0);
        let ghost gn = s0.len() as int;
        let c = self.centroid();
        proof {
            lemma_sum_bounds(s0);
        }
        let n = self.points.len();
        let mut i: usize = 1;
        while i < n
            invariant
                n == s0.len(),
                n <= 0x4000_0000,
                self@.len() == n,
                self@.to_multiset() == s0.to_multiset(),
                c.sx == gsx,
                c.sy == gsy,
                c.n == n,
                -(n * 0x8000_0000) <= c.sx <= n * 0x8000_0000,
                -(n * 0x8000_0000) <= c.sy <= n * 0x8000_0000,
                1 <= i,
                i <= n || i == 1,
                crate::angle::sorted_to(self@, gsx, gsy, gn, i as int),
            decreases n - i,
        {
            let mut j: usize = i;
            let mut stop: bool = false;
            while j > 0 && !stop
                invariant
                    stop ==> 1 <= j && crate::angle::angle_le_at(
                        gsx,
                        gsy,
                        gn,
                        self@[j - 1],
                        self@[j as int],
                    ),
                    n == s0.len(),
                    n <= 0x4000_0000,
                    self@.len() == n,
                    self@.to_multiset() == s0.to_multiset(),
                    c.sx == gsx,
                    c.sy == gsy,
                    c.n == n,
                    -(n * 0x8000_0000) <= c.sx <= n * 0x8000_0000,
                    -(n * 0x8000_0000) <= c.sy <= n * 0x8000_0000,
                    j <= i < n,
                    crate::angle::sorted_except(self@, gsx, gsy, gn, i + 1, j as int),
                decreases j, (if stop { 0int } else { 1int }),
            {
                let le = crate::angle::angle_le(&c, &self.points[j - 1], &self.points[j]);
                if le {
                    stop = true;
                } else {
                    let ghost prev = self@;
                    let tmp0 = self.points[j - 1];
                    let tmp1 = self.points[j];
                    self.points[j - 1] = tmp1;
                    self.points[j] = tmp0;
                    proof {
                        assert(self@ =~= prev.update(j - 1, prev[j as int]).update(
                            j as int,
                            prev[j - 1],
                        ));
                        lemma_swap_multiset(prev, j - 1, j as int);
                        crate::angle::lemma_angle_le_about_total(
                            gsx,
                            gsy,
                            gn,
                            prev[j - 1],
                            prev[j as int],
                        );
                        assert forall|p: int, q: int|
                            0 <= p < q < i + 1 && q != j - 1 implies crate::angle::angle_le_at(
                            gsx,
                            gsy,
                            gn,
                            self@[p],
                            self@[q],
                        ) by {
                            if q == j {
                                if p < j - 1 {
                                    assert(crate::angle::angle_le_at(
                                        gsx,
                                        gsy,
                                        gn,
                                        prev[p],
                                        prev[j - 1],
                                    ));
                                }
                            } else if q > j {
                                if p == j - 1 {
                                    assert(crate::angle::angle_le_at(
                                        gsx,
                                        gsy,
                                        gn,
                                        prev[j as int],
                                        prev[q],
                                    ));
                                } else if p == j {
                                    assert(crate::angle::angle_le_at(
                                        gsx,
                                        gsy,
                                        gn,
                                        prev[j - 1],
                                        prev[q],
                                    ));
                                } else {
                                    assert(crate::angle::angle_le_at(
                                        gsx,
                                        gsy,
                                        gn,
                                        prev[p],
                                        prev[q],
                                    ));
                                }
                            } else {
                                assert(crate::angle::angle_le_at(gsx, gsy, gn, prev[p], prev[q]));
                            }
                        }
                    }
                    j = j - 1;
                }
            }
            proof {
                assert forall|p: int, q: int|
                    0 <= p < q < i + 1 implies crate::angle::angle_le_at(
                    gsx,
                    gsy,
                    gn,
                    self@[p],
                    self@[q],
                ) by {
                    if q == j {
                        assert(crate::angle::angle_le_at(
                            gsx,
                            gsy,
                            gn,
                            self@[j - 1],
                            self@[j as int],
                        ));
                        if p < j - 1 {
                            assert(crate::angle::angle_le_at(gsx, gsy, gn, self@[p], self@[j - 1]));
                            crate::angle::lemma_angle_le_about_trans(
                                gsx,
                                gsy,
                                gn,
                                self@[p],
                                self@[j - 1],
                                self@[q],
                            );
                        }
                    } else {
                        assert(crate::angle::angle_le_at(gsx, gsy, gn, self@[p], self@[q]));
                    }
                }
            }
            i = i + 1;
        }
    }

    /// Twice the signed area of the polygon, as the fan sum of triangle
    /// areas from its first vertex.
    pub fn double_area(&self) -> (r: i128)
        requires
            self@.len() <= 0x1000_0000_0000_0000,
        ensures
            r == polygon_area2(self@),
    {
        let n = self.points.len();
        let mut acc: i128 = 0;
        let mut t: usize = 1;
        while t + 1 < n
            invariant
                n == self@.len(),
                n <= 0x1000_0000_0000_0000,
                1 <= t,
                t < n || t == 1,
                acc + fan_area2(self@, t as int) == polygon_area2(self@),
                -((t - 1) * 0x2_0000_0000_0000_0000) <= acc <= (t - 1) * 0x2_0000_0000_0000_0000,
            decreases n - t,
        {
            let term = Point::double_area(&self.points[0], &self.points[t], &self.points[t + 1]);
            proof {
                crate::point::lemma_area2_bounds(
                    self@[0],
                    self@[t as int],
                    self@[t as int + 1],
                );
            }
            acc = acc + term;
            t = t + 1;
        }
        acc
    }

    /// Indices `a` and `b` are cyclically adjacent.
    pub fn edge(&self, a: usize, b: usize) -> (r: bool)
        requires
            a < self@.len(),
            b < self@.len(),
        ensures
            r == is_edge(self@.len() as int, a as int, b as int),
    {
        let n = self.points.len();
        let d = if a >= b {
            a - b
        } else {
            b - a
        };
        d == 1 || d == n - 1
    }

    /// The open segment between vertices `a` and `b` crosses no polygon
    /// edge; edges that share an endpoint with either vertex are skipped,
    /// since adjacency at a shared vertex is not a crossing.
    pub fn diagonalie(&self, a: usize, b: usize) -> (r: bool)
        requires
            a < self@.len(),
            b < self@.len(),
        ensures
            r == spec_diagonalie(self@, a as int, b as int),
    {
        let n = self.points.len();
        let av = self.points[a];
        let bv = self.points[b];
        let mut c: usize = 0;
        while c < n
            invariant
                n == self@.len(),
                a < n,
                b < n,
                c <= n,
                av == self@[a as int],
                bv == self@[b as int],
                forall|cc: int| 0 <= cc < c ==> !#[trigger] blocks(self@, a as int, b as int, cc),
            decreases n - c,
        {
            let c1 = if c + 1 == n {
                0
            } else {
                c + 1
            };
            let e0 = self.points[c];
            let e1 = self.points[c1];
            if !(e0 == av || e1 == av || e0 == bv || e1 == bv) {
                if Point::intersect(&av, &bv, &e0, &e1) {
                    proof {
                        assert(blocks(self@, a as int, b as int, c as int));
                    }
                    return false;
                }
            }
            c = c + 1;
        }
        true
    }

    /// Vertex `b`, viewed from vertex `a`, lies within the interior angular
    /// cone formed by `a`'s two incident edges.
    pub fn in_cone(&self, a: usize, b: usize) -> (r: bool)
        requires
            a < self@.len(),
            b < self@.len(),
        ensures
            r == spec_in_cone(self@, a as int, b as int),
    {
        let n = self.points.len();
        let a_prev = if a == 0 {
            n - 1
        } else {
            a - 1
        };
        let a_next = if a + 1 == n {
            0
        } else {
            a + 1
        };
        let av = self.points[a];
        let apv = self.points[a_prev];
        let anv = self.points[a_next];
        let bv = self.points[b];
        if Point::left_on(&av, &anv, &apv) {
            Point::left(&av, &bv, &apv) && Point::left(&bv, &av, &anv)
        } else {
            !(Point::left_on(&av, &bv, &anv) && Point::left_on(&bv, &av, &apv))
        }
    }

    /// The segment between vertices `a` and `b` is an internal diagonal of
    /// the polygon.
    pub fn diagonal(&self, a: usize, b: usize) -> (r: bool)
        requires
            a < self@.len(),
            b < self@.len(),
        ensures
            r == spec_diagonal(self@, a as int, b as int),
    {
        self.in_cone(a, b) && self.in_cone(b, a) && self.diagonalie(a, b)
    }

    /// The vertex indices strictly between `b` and `a`, walking forward
    /// cyclically from `b + 1` and stopping just before `a`.
    pub fn left_polygon(&self, a: usize, b: usize) -> (r: Vec<usize>)
        requires
            a < self@.len(),
            b < self@.len(),
        ensures
            r@.len() == chain_len(self@.len() as int, a as int, b as int),
            forall|t: int|
                0 <= t < r@.len() ==> r@[t] == chain_idx(self@.len() as int, b as int, t),
    {
        let n = self.points.len();
        let total = if a > b {
            a - b - 1
        } else {
            n - (b + 1 - a)
        };
        proof {
            if a > b {
                lemma_small_mod((a - b - 1) as nat, n as nat);
            } else {
                lemma_mod_shift_up(a as int - b as int - 1, n as int);
            }
        }
        let mut r: Vec<usize> = Vec::new();
        let mut idx = if b + 1 == n {
            0
        } else {
            b + 1
        };
        proof {
            if b + 1 < n {
                lemma_small_mod((b + 1) as nat, n as nat);
            } else {
                lemma_mod_shift_down(b as int + 1, n as int);
            }
        }
        let mut t: usize = 0;
        while t < total
            invariant
                n == self@.len(),
                a < n,
                b < n,
                t <= total,
                total == chain_len(n as int, a as int, b as int),
                idx < n,
                idx == chain_idx(n as int, b as int, t as int),
                r@.len() == t,
                forall|u: int| 0 <= u < t ==> r@[u] == chain_idx(n as int, b as int, u),
            decreases total - t,
        {
            r.push(idx);
            proof {
                lemma_chain_idx_step(n as int, b as int, t as int);
            }
            idx = if idx + 1 == n {
                0
            } else {
                idx + 1
            };
            t = t + 1;
        }
        r
    }
}

} // verus!
