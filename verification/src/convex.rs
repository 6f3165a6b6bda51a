//! Strictly convex polygons: when every cyclic triple of vertices makes a
//! left turn, every vertex pair of the polygon is an edge or an internal
//! diagonal, so the triangulation count is a Catalan number.

use crate::count::catalan;
use crate::count::count_tri;
use crate::count::tri_ok;
use crate::point::is_left;
use crate::point::lemma_area2_swap_last;
use crate::point::Point;
use crate::polygon::blocks;
use crate::polygon::is_edge;
use crate::polygon::lemma_mod_shift_up;
use crate::polygon::nxt;
use crate::polygon::prv;
use crate::polygon::spec_diagonal;
use crate::polygon::spec_diagonalie;
use crate::polygon::spec_in_cone;
use vstd::arithmetic::div_mod::lemma_small_mod;
use vstd::prelude::*;

verus! {

/// How many forward steps lead from index `a` to index `b` around a cycle
/// of `n` positions.
pub open spec fn fwd(n: int, a: int, b: int) -> int {
    if n <= 0 {
        0
    } else {
        (b - a) % n
    }
}

/// The vertex sequence is strictly convex and traversed counter-clockwise:
/// walking forward from any vertex, every later pair of distinct vertices
/// makes a left turn with it.
pub open spec fn convex_ccw(s: Seq<Point>) -> bool {
    forall|a: int, b: int, c: int|
        0 <= a < s.len() && 0 <= b < s.len() && 0 <= c < s.len() && 0 < fwd(
            s.len() as int,
            a,
            b,
        ) < fwd(s.len() as int, a, c) ==> #[trigger] is_left(s[a], s[b], s[c])
}

/// The forward step count, written out: the index difference, wrapped once
/// into the cycle. It lies in the cycle, vanishes exactly on equal indices,
/// and the two directions of a walk between distinct indices add up to one
/// full cycle.
proof fn lemma_fwd_range(n: int, a: int, b: int)
    requires
        0 < n,
        0 <= a < n,
        0 <= b < n,
    ensures
        fwd(n, a, b) == if b >= a {
            b - a
        } else {
            b - a + n
        },
        0 <= fwd(n, a, b) < n,
        fwd(n, a, b) == 0 <==> a == b,
        a != b ==> fwd(n, b, a) == n - fwd(n, a, b),
{
    if a <= b {
        lemma_small_mod((b - a) as nat, n as nat);
    } else {
        lemma_mod_shift_up(b - a, n);
    }
    if b <= a {
        lemma_small_mod((a - b) as nat, n as nat);
    } else {
        lemma_mod_shift_up(a - b, n);
    }
}

/// Walking one more step from the target adds one to the step count, as
/// long as the walk does not close the full cycle.
proof fn lemma_fwd_step(n: int, a: int, c: int)
    requires
        0 < n,
        0 <= a < n,
        0 <= c < n,
        nxt(n, c) != a,
    ensures
        fwd(n, a, nxt(n, c)) == fwd(n, a, c) + 1,
{
    lemma_fwd_range(n, a, c);
    lemma_fwd_range(n, a, nxt(n, c));
}

/// Adjacency in the cyclic list is one forward step in one direction or the
/// other.
proof fn lemma_edge_fwd(n: int, a: int, b: int)
    requires
        0 < n,
        0 <= a < n,
        0 <= b < n,
        a != b,
    ensures
        is_edge(n, a, b) <==> (fwd(n, a, b) == 1 || fwd(n, a, b) == n - 1),
{
    lemma_fwd_range(n, a, b);
}

/// In a strictly convex counter-clockwise polygon, the vertex `c` lies
/// strictly left of the chord from `a` to `b` when the forward walk from
/// `a` meets `b` before `c`, and strictly right when it meets `c` first.
proof fn lemma_chord_side(s: Seq<Point>, a: int, b: int, c: int)
    requires
        convex_ccw(s),
        3 <= s.len(),
        0 <= a < s.len(),
        0 <= b < s.len(),
        0 <= c < s.len(),
        a != b,
        a != c,
        b != c,
    ensures
        fwd(s.len() as int, a, b) < fwd(s.len() as int, a, c) ==> crate::point::area2(
            s[a],
            s[b],
            s[c],
        ) > 0,
        fwd(s.len() as int, a, c) < fwd(s.len() as int, a, b) ==> crate::point::area2(
            s[a],
            s[b],
            s[c],
        ) < 0,
{
    let n = s.len() as int;
    lemma_fwd_range(n, a, b);
    lemma_fwd_range(n, a, c);
    if fwd(n, a, b) < fwd(n, a, c) {
        assert(is_left(s[a], s[b], s[c]));
    } else {
        assert(is_left(s[a], s[c], s[b]));
        lemma_area2_swap_last(s[a], s[b], s[c]);
    }
}

/// In a strictly convex counter-clockwise polygon, every vertex pair is an
/// edge of the polygon or an internal diagonal.
pub proof fn lemma_convex_all_ok(s: Seq<Point>)
    requires
        3 <= s.len(),
        convex_ccw(s),
    ensures
        forall|a: int, b: int|
            0 <= a < s.len() && 0 <= b < s.len() && a != b ==> #[trigger] tri_ok(s, a, b),
{
    let n = s.len() as int;
    assert forall|a: int, b: int|
        0 <= a < n && 0 <= b < n && a != b implies #[trigger] tri_ok(s, a, b) by {
        lemma_edge_fwd(n, a, b);
        let f = fwd(n, a, b);
        lemma_fwd_range(n, a, b);
        if f == 1 || f == n - 1 {
            assert(is_edge(n, a, b));
        } else {
            assert(2 <= f <= n - 2);
            lemma_convex_in_cone(s, a, b);
            lemma_convex_in_cone(s, b, a);
            lemma_convex_diagonalie(s, a, b);
            assert(spec_diagonal(s, a, b));
        }
    }
}

/// In a strictly convex counter-clockwise polygon, each endpoint of a
/// non-adjacent pair sees the other within its interior cone.
proof fn lemma_convex_in_cone(s: Seq<Point>, a: int, b: int)
    requires
        3 <= s.len(),
        convex_ccw(s),
        0 <= a < s.len(),
        0 <= b < s.len(),
        2 <= fwd(s.len() as int, a, b) <= s.len() - 2,
    ensures
        spec_in_cone(s, a, b),
{
    let n = s.len() as int;
    let f = fwd(n, a, b);
    lemma_fwd_range(n, a, b);
    // Walk lengths from a: the next vertex is one step on, the previous
    // n - 1 steps on; from b, vertex a is n - f steps on, and a's next
    // neighbour one more.
    lemma_fwd_range(n, a, nxt(n, a));
    lemma_fwd_range(n, a, prv(n, a));
    lemma_fwd_range(n, b, a);
    lemma_fwd_range(n, b, nxt(n, a));
    assert(fwd(n, a, nxt(n, a)) == 1);
    assert(fwd(n, a, prv(n, a)) == n - 1);
    assert(fwd(n, b, a) == n - f);
    assert(fwd(n, b, nxt(n, a)) == n - f + 1);
    // Convexity at a: the previous neighbour lies left of the edge toward
    // the next one, so the cone test takes its convex branch.
    assert(is_left(s[a], s[nxt(n, a)], s[prv(n, a)]));
    // b lies left of the chord from a toward its previous neighbour, and
    // a's next neighbour lies left of the chord from b to a.
    assert(is_left(s[a], s[b], s[prv(n, a)]));
    assert(is_left(s[b], s[a], s[nxt(n, a)]));
}

/// In a strictly convex counter-clockwise polygon, no polygon edge blocks
/// the chord between a non-adjacent vertex pair: an edge that shares no
/// endpoint with the chord has both of its endpoints strictly on one side.
proof fn lemma_convex_diagonalie(s: Seq<Point>, a: int, b: int)
    requires
        3 <= s.len(),
        convex_ccw(s),
        0 <= a < s.len(),
        0 <= b < s.len(),
        2 <= fwd(s.len() as int, a, b) <= s.len() - 2,
    ensures
        spec_diagonalie(s, a, b),
{
    let n = s.len() as int;
    let f = fwd(n, a, b);
    lemma_fwd_range(n, a, b);
    assert forall|c: int| 0 <= c < n implies !#[trigger] blocks(s, a, b, c) by {
        let c1 = nxt(n, c);
        assert(0 <= c1 < n);
        if s[c] == s[a] || s[c1] == s[a] || s[c] == s[b] || s[c1] == s[b] {
            // The edge shares an endpoint with the chord and is skipped.
        } else {
            assert(c != a && c != b && c1 != a && c1 != b);
            lemma_fwd_range(n, a, c);
            lemma_fwd_step(n, a, c);
            let fc = fwd(n, a, c);
            // Both edge endpoints lie in one open arc, so strictly on one
            // side of the chord; and no vertex is collinear with the edge
            // or with the chord.
            lemma_chord_side(s, a, b, c);
            lemma_chord_side(s, a, b, c1);
            lemma_edge_side(s, c, a);
            lemma_edge_side(s, c, b);
            let av = s[a];
            let bv = s[b];
            let e0 = s[c];
            let e1 = s[c1];
            assert(!crate::point::is_between(av, bv, e0) && !crate::point::is_between(av, bv, e1))
                by {
                assert(crate::point::area2(av, bv, e0) != 0);
                assert(crate::point::area2(av, bv, e1) != 0);
            }
            assert(!crate::point::is_between(e0, e1, av) && !crate::point::is_between(e0, e1, bv))
                by {
                assert(crate::point::area2(e0, e1, av) != 0);
                assert(crate::point::area2(e0, e1, bv) != 0);
            }
            assert(!crate::point::is_proper_intersect(av, bv, e0, e1)) by {
                if fc < f {
                    assert(crate::point::area2(av, bv, e0) < 0);
                    assert(crate::point::area2(av, bv, e1) < 0);
                } else {
                    assert(crate::point::area2(av, bv, e0) > 0);
                    assert(crate::point::area2(av, bv, e1) > 0);
                }
            }
            assert(!crate::point::is_intersect(av, bv, e0, e1));
        }
    }
}

/// Any other vertex lies strictly left of a polygon edge of a strictly
/// convex counter-clockwise polygon, so in particular off its supporting
/// line.
proof fn lemma_edge_side(s: Seq<Point>, c: int, x: int)
    requires
        3 <= s.len(),
        convex_ccw(s),
        0 <= c < s.len(),
        0 <= x < s.len(),
        x != c,
        x != nxt(s.len() as int, c),
    ensures
        crate::point::area2(s[c], s[nxt(s.len() as int, c)], s[x]) > 0,
{
    let n = s.len() as int;
    let c1 = nxt(n, c);
    lemma_fwd_range(n, c, c1);
    lemma_fwd_range(n, c, x);
    assert(fwd(n, c, c1) == 1) by {
        lemma_fwd_range(n, c, c);
        lemma_fwd_step(n, c, c);
    }
    assert(fwd(n, c, x) >= 2);
    assert(is_left(s[c], s[c1], s[x]));
}

/// A strictly convex counter-clockwise polygon of `n` vertices has exactly
/// the `n - 2`-nd Catalan number of triangulations.
pub proof fn lemma_convex_polygon_catalan(s: Seq<Point>)
    requires
        3 <= s.len(),
        convex_ccw(s),
    ensures
        count_tri(s, 0, 1) == catalan(s.len() - 2),
{
    lemma_convex_all_ok(s);
    crate::count::lemma_convex_catalan(s);
}

} // verus!
