//! The triangulation-counting engine: a memoized recursion over ordered
//! vertex-index pairs. The count for a pair `(i, k)` is the number of ways to
//! triangulate the sub-polygon bounded by the segment from `i` to `k` and the
//! vertex chain walking forward from `k + 1` to `i - 1`; the whole-polygon
//! answer is the count of the pair `(0, 1)`.

use crate::point::Point;
use crate::polygon::chain_idx;
use crate::polygon::chain_len;
use crate::polygon::is_edge;
use crate::polygon::lemma_chain_split;
use crate::polygon::spec_diagonal;
use crate::polygon::Polygon;
use vstd::prelude::*;

verus! {

/// The segment between vertices `a` and `b` may bound a triangulated
/// sub-region: it is a polygon edge or an internal diagonal.
pub open spec fn tri_ok(s: Seq<Point>, a: int, b: int) -> bool {
    is_edge(s.len() as int, a, b) || spec_diagonal(s, a, b)
}

/// The partial sum, over the first `t` chain vertices `j` of the pair
/// `(i, k)`, of the products `count_tri(i, j) * count_tri(j, k)` for those
/// `j` that split the pair into two bounded sub-regions.
pub open spec fn count_sum(s: Seq<Point>, i: int, k: int, t: int) -> nat
    decreases chain_len(s.len() as int, i, k), 0int, t,
    via count_sum_decreases
{
    let n = s.len() as int;
    if !(0 < n && 0 <= i < n && 0 <= k < n && i != k && 0 < t && t <= chain_len(n, i, k)) {
        0
    } else {
        let j = chain_idx(n, k, t - 1);
        count_sum(s, i, k, t - 1) + if tri_ok(s, i, j) && tri_ok(s, j, k) {
            count_tri(s, i, j) * count_tri(s, j, k)
        } else {
            0
        }
    }
}

#[via_fn]
proof fn count_sum_decreases(s: Seq<Point>, i: int, k: int, t: int) {
    let n = s.len() as int;
    if 0 < n && 0 <= i < n && 0 <= k < n && i != k && 0 < t && t <= chain_len(n, i, k) {
        lemma_chain_split(n, i, k, t - 1);
    }
}

/// The number of triangulations of the sub-polygon bounded by the ordered
/// pair `(i, k)`: one when no vertex lies on the chain between them, else
/// the sum over every chain vertex that splits the pair.
pub open spec fn count_tri(s: Seq<Point>, i: int, k: int) -> nat
    decreases chain_len(s.len() as int, i, k), 1int, 0int,
{
    if chain_len(s.len() as int, i, k) == 0 {
        1
    } else {
        count_sum(s, i, k, chain_len(s.len() as int, i, k))
    }
}

/// The partial sums of the splitting products grow with the number of chain
/// vertices taken.
proof fn lemma_count_sum_mono(s: Seq<Point>, i: int, k: int, t1: int, t2: int)
    requires
        0 < s.len(),
        0 <= i < s.len(),
        0 <= k < s.len(),
        i != k,
        0 <= t1 <= t2 <= chain_len(s.len() as int, i, k),
    ensures
        count_sum(s, i, k, t1) <= count_sum(s, i, k, t2),
    decreases t2 - t1,
{
    if t1 < t2 {
        lemma_count_sum_mono(s, i, k, t1, t2 - 1);
    }
}

/// A square grid of side `n`.
spec fn grid_wf<T>(g: Seq<Vec<T>>, n: int) -> bool {
    g.len() == n && forall|r: int| 0 <= r < n ==> (#[trigger] g[r])@.len() == n
}

/// Every pair marked as calculated holds its exact triangulation count.
spec fn memo_ok(s: Seq<Point>, table: Seq<Vec<u64>>, calc: Seq<Vec<bool>>, n: int) -> bool {
    forall|a: int, b: int|
        0 <= a < n && 0 <= b < n && (#[trigger] calc[a]@[b]) ==> table[a]@[b] as nat == count_tri(
            s,
            a,
            b,
        )
}

/// Builds an `n` by `n` grid filled with one value.
fn make_grid<T: Copy>(val: T, n: usize) -> (g: Vec<Vec<T>>)
    ensures
        grid_wf(g@, n as int),
        forall|r: int, c: int| 0 <= r < n && 0 <= c < n ==> #[trigger] g@[r]@[c] == val,
{
    let mut g: Vec<Vec<T>> = Vec::new();
    let mut r: usize = 0;
    while r < n
        invariant
            r <= n,
            g@.len() == r,
            forall|a: int| 0 <= a < r ==> (#[trigger] g@[a])@.len() == n,
            forall|a: int, c: int| 0 <= a < r && 0 <= c < n ==> #[trigger] g@[a]@[c] == val,
        decreases n - r,
    {
        let mut row: Vec<T> = Vec::new();
        let mut c: usize = 0;
        while c < n
            invariant
                c <= n,
                row@.len() == c,
                forall|b: int| 0 <= b < c ==> #[trigger] row@[b] == val,
            decreases n - c,
        {
            row.push(val);
            c = c + 1;
        }
        g.push(row);
        r = r + 1;
    }
    g
}

impl Polygon {
    /// Resolves the count of the ordered pair `(i, k)`, memoizing every pair
    /// resolved on the way. Returns the count, or nothing when some pair's
    /// count does not fit in 64 bits.
    fn nb_tri_helper(
        &self,
        i: usize,
        k: usize,
        table: &mut Vec<Vec<u64>>,
        calculated: &mut Vec<Vec<bool>>,
    ) -> (r: Option<u64>)
        requires
            i < self@.len(),
            k < self@.len(),
            i != k,
            grid_wf(old(table)@, self@.len() as int),
            grid_wf(old(calculated)@, self@.len() as int),
            memo_ok(self@, old(table)@, old(calculated)@, self@.len() as int),
        ensures
            grid_wf(final(table)@, self@.len() as int),
            grid_wf(final(calculated)@, self@.len() as int),
            memo_ok(self@, final(table)@, final(calculated)@, self@.len() as int),
            forall|a: int, b: int|
                0 <= a < self@.len() && 0 <= b < self@.len() && (#[trigger] old(
                    calculated,
                )@[a]@[b]) ==> final(calculated)@[a]@[b],
            r.is_some() ==> final(calculated)@[i as int]@[k as int] && r.unwrap() as nat
                == count_tri(self@, i as int, k as int),
            r.is_none() ==> exists|a: int, b: int|
                0 <= a < self@.len() && 0 <= b < self@.len() && a != b && #[trigger] count_tri(
                    self@,
                    a,
                    b,
                ) > u64::MAX,
        decreases chain_len(self@.len() as int, i as int, k as int),
    {
        let ghost s = self@;
        let ghost ni = s.len() as int;
        let n = self.len();
        if calculated[i][k] {
            return Some(table[i][k]);
        }
        let chain = self.left_polygon(i, k);
        let ghost ll = chain_len(ni, i as int, k as int);
        if chain.len() == 0 {
            table[i][k] = 1;
            calculated[i][k] = true;
            proof {
                assert(count_tri(s, i as int, k as int) == 1);
                assert(memo_ok(s, table@, calculated@, ni));
            }
            return Some(1);
        }
        let mut acc: u64 = 0;
        let mut t: usize = 0;
        while t < chain.len()
            invariant
                s == self@,
                ni == s.len() as int,
                n == s.len(),
                i < n,
                k < n,
                i != k,
                ll == chain_len(ni, i as int, k as int),
                chain@.len() == ll,
                1 <= ll,
                forall|u: int| 0 <= u < ll ==> chain@[u] == chain_idx(ni, k as int, u),
                t <= chain@.len(),
                grid_wf(table@, ni),
                grid_wf(calculated@, ni),
                memo_ok(s, table@, calculated@, ni),
                forall|a: int, b: int|
                    0 <= a < ni && 0 <= b < ni && (#[trigger] old(calculated)@[a]@[b])
                        ==> calculated@[a]@[b],
                acc as nat == count_sum(s, i as int, k as int, t as int),
            decreases chain@.len() - t,
        {
            let j = chain[t];
            proof {
                lemma_chain_split(ni, i as int, k as int, t as int);
            }
            let ok1 = if self.edge(i, j) {
                true
            } else {
                self.diagonal(i, j)
            };
            let ok2 = if self.edge(j, k) {
                true
            } else {
                self.diagonal(j, k)
            };
            if ok1 && ok2 {
                let r1 = match self.nb_tri_helper(i, j, table, calculated) {
                    Some(v) => v,
                    None => {
                        return None;
                    },
                };
                let r2 = match self.nb_tri_helper(j, k, table, calculated) {
                    Some(v) => v,
                    None => {
                        return None;
                    },
                };
                proof {
                    lemma_count_sum_mono(s, i as int, k as int, t + 1, ll);
                }
                let prod = match r1.checked_mul(r2) {
                    Some(p) => p,
                    None => {
                        proof {
                            assert(count_sum(s, i as int, k as int, t + 1) > u64::MAX);
                            assert(count_tri(s, i as int, k as int) > u64::MAX);
                        }
                        return None;
                    },
                };
                let acc2 = match acc.checked_add(prod) {
                    Some(v) => v,
                    None => {
                        proof {
                            assert(count_sum(s, i as int, k as int, t + 1) > u64::MAX);
                            assert(count_tri(s, i as int, k as int) > u64::MAX);
                        }
                        return None;
                    },
                };
                acc = acc2;
                proof {
                    assert(acc as nat == count_sum(s, i as int, k as int, t + 1));
                }
            } else {
                proof {
                    assert(count_sum(s, i as int, k as int, t + 1) == count_sum(
                        s,
                        i as int,
                        k as int,
                        t as int,
                    ));
                }
            }
            t = t + 1;
        }
        table[i][k] = acc;
        calculated[i][k] = true;
        proof {
            assert(acc as nat == count_tri(s, i as int, k as int));
            assert(memo_ok(s, table@, calculated@, ni));
        }
        Some(acc)
    }

    /// The number of distinct triangulations of the whole polygon by
    /// non-crossing diagonals, resolving every ordered vertex pair through
    /// one shared memoization table. Returns nothing exactly when some
    /// pair's count does not fit in 64 bits; a returned count is exact.
    pub fn nb_triangulations(&self) -> (r: Option<u64>)
        requires
            self@.len() >= 3,
        ensures
            r.is_some() ==> r.unwrap() as nat == count_tri(self@, 0, 1),
            r.is_none() ==> exists|a: int, b: int|
                0 <= a < self@.len() && 0 <= b < self@.len() && a != b && #[trigger] count_tri(
                    self@,
                    a,
                    b,
                ) > u64::MAX,
            (forall|a: int, b: int|
                0 <= a < self@.len() && 0 <= b < self@.len() && a != b ==> #[trigger] count_tri(
                    self@,
                    a,
                    b,
                ) <= u64::MAX) ==> r.is_some(),
    {
        let ghost s = self@;
        let ghost ni = s.len() as int;
        let n = self.len();
        let mut table: Vec<Vec<u64>> = make_grid(0u64, n);
        let mut calculated: Vec<Vec<bool>> = make_grid(false, n);
        let mut i: usize = 0;
        while i < n
            invariant
                s == self@,
                ni == s.len() as int,
                n == s.len(),
                n >= 3,
                i <= n,
                grid_wf(table@, ni),
                grid_wf(calculated@, ni),
                memo_ok(s, table@, calculated@, ni),
            decreases n - i,
        {
            let mut k: usize = i + 1;
            while k < n
                invariant
                    s == self@,
                    ni == s.len() as int,
                    n == s.len(),
                    n >= 3,
                    i < n,
                    i < k,
                    grid_wf(table@, ni),
                    grid_wf(calculated@, ni),
                    memo_ok(s, table@, calculated@, ni),
                decreases n - k,
            {
                match self.nb_tri_helper(i, k, &mut table, &mut calculated) {
                    Some(_) => {},
                    None => {
                        return None;
                    },
                }
                k = k + 1;
            }
            i = i + 1;
        }
        match self.nb_tri_helper(0, 1, &mut table, &mut calculated) {
            Some(c) => Some(c),
            None => None,
        }
    }
}

/// The partial Catalan convolution: the sum of `catalan(t - 1) *
/// catalan(m - t)` over `t` up to the given bound.
pub open spec fn catalan_sum(m: int, t: int) -> nat
    decreases m, 0int, t,
{
    if !(0 < t <= m) {
        0
    } else {
        catalan_sum(m, t - 1) + catalan(t - 1) * catalan(m - t)
    }
}

/// The `m`-th Catalan number, by its convolution recurrence: it counts the
/// triangulations of a convex polygon whose boundary pair spans a chain of
/// `m` vertices.
pub open spec fn catalan(m: int) -> nat
    decreases m, 1int, 0int,
{
    if m <= 0 {
        1
    } else {
        catalan_sum(m, m)
    }
}

/// In a polygon all of whose vertex pairs bound sub-regions, the partial
/// splitting sums follow the Catalan convolution.
proof fn lemma_all_ok_sum(s: Seq<Point>, i: int, k: int, t: int)
    requires
        0 < s.len(),
        0 <= i < s.len(),
        0 <= k < s.len(),
        i != k,
        forall|a: int, b: int|
            0 <= a < s.len() && 0 <= b < s.len() && a != b ==> #[trigger] tri_ok(s, a, b),
        0 <= t <= chain_len(s.len() as int, i, k),
    ensures
        count_sum(s, i, k, t) == catalan_sum(chain_len(s.len() as int, i, k), t),
    decreases chain_len(s.len() as int, i, k), t,
{
    let n = s.len() as int;
    let ll = chain_len(n, i, k);
    if t > 0 {
        lemma_all_ok_sum(s, i, k, t - 1);
        lemma_chain_split(n, i, k, t - 1);
        let j = chain_idx(n, k, t - 1);
        assert(tri_ok(s, i, j) && tri_ok(s, j, k));
        lemma_all_ok_count(s, i, j);
        lemma_all_ok_count(s, j, k);
        vstd::arithmetic::mul::lemma_mul_is_commutative(
            catalan(t - 1) as int,
            catalan(ll - t) as int,
        );
        assert(count_tri(s, i, j) * count_tri(s, j, k) == catalan(t - 1) * catalan(ll - t));
    }
}

/// In a polygon all of whose vertex pairs bound sub-regions, the count of
/// every ordered pair is the Catalan number of its chain length.
pub proof fn lemma_all_ok_count(s: Seq<Point>, i: int, k: int)
    requires
        0 < s.len(),
        0 <= i < s.len(),
        0 <= k < s.len(),
        i != k,
        forall|a: int, b: int|
            0 <= a < s.len() && 0 <= b < s.len() && a != b ==> #[trigger] tri_ok(s, a, b),
    ensures
        count_tri(s, i, k) == catalan(chain_len(s.len() as int, i, k)),
    decreases chain_len(s.len() as int, i, k), chain_len(s.len() as int, i, k) + 1,
{
    let n = s.len() as int;
    let ll = chain_len(n, i, k);
    if ll != 0 {
        lemma_all_ok_sum(s, i, k, ll);
    }
}

/// A polygon of `n` vertices, every pair of which is an edge or an internal
/// diagonal — as holds for a convex polygon — has exactly the `n - 2`-nd
/// Catalan number of triangulations.
pub proof fn lemma_convex_catalan(s: Seq<Point>)
    requires
        s.len() >= 3,
        forall|a: int, b: int|
            0 <= a < s.len() && 0 <= b < s.len() && a != b ==> #[trigger] tri_ok(s, a, b),
    ensures
        count_tri(s, 0, 1) == catalan(s.len() - 2),
{
    let n = s.len() as int;
    crate::polygon::lemma_mod_shift_up(-2, n);
    assert(chain_len(n, 0, 1) == n - 2);
    lemma_all_ok_count(s, 0, 1);
}

/// Any polygon of exactly three vertices has exactly one triangulation, and
/// every ordered pair's count fits in 64 bits, so the counting engine
/// returns one on it.
pub proof fn lemma_triangle_count(s: Seq<Point>)
    requires
        s.len() == 3,
        s[0] != s[1],
        s[0] != s[2],
        s[1] != s[2],
        !crate::point::is_collinear(s[0], s[1], s[2]),
    ensures
        count_tri(s, 0, 1) == 1,
        forall|a: int, b: int|
            0 <= a < s.len() && 0 <= b < s.len() && a != b ==> #[trigger] count_tri(s, a, b)
                <= u64::MAX,
{
    lemma_triangle_pair(s, 0, 1);
    lemma_triangle_pair(s, 0, 2);
    lemma_triangle_pair(s, 1, 0);
    lemma_triangle_pair(s, 1, 2);
    lemma_triangle_pair(s, 2, 0);
    lemma_triangle_pair(s, 2, 1);
    assert(is_edge(3, 0, 2) && is_edge(3, 2, 1));
    lemma_triangle_chains();
    reveal_with_fuel(count_sum, 2);
    assert(chain_len(3, 0, 1) == 1 && chain_idx(3, 1, 0) == 2);
    assert(chain_len(3, 0, 2) == 0 && chain_len(3, 2, 1) == 0);
    assert(count_tri(s, 0, 2) == 1 && count_tri(s, 2, 1) == 1);
    assert(tri_ok(s, 0, 2) && tri_ok(s, 2, 1));
    assert(count_tri(s, 0, 2) * count_tri(s, 2, 1) == 1) by (nonlinear_arith)
        requires
            count_tri(s, 0, 2) == 1,
            count_tri(s, 2, 1) == 1;
    assert(count_sum(s, 0, 1, 0) == 0);
    assert(count_sum(s, 0, 1, 1) == count_sum(s, 0, 1, 0) + count_tri(s, 0, 2) * count_tri(
        s,
        2,
        1,
    ));
    assert(count_tri(s, 0, 1) == count_sum(s, 0, 1, 1));
}

/// The chain lengths of all six ordered vertex pairs of a three-cycle, by
/// direct evaluation of the cyclic walk.
proof fn lemma_triangle_chains()
    ensures
        chain_len(3, 0, 1) == 1,
        chain_len(3, 0, 2) == 0,
        chain_len(3, 1, 0) == 0,
        chain_len(3, 1, 2) == 1,
        chain_len(3, 2, 0) == 1,
        chain_len(3, 2, 1) == 0,
        chain_idx(3, 1, 0) == 2,
{
    crate::polygon::lemma_mod_shift_up(-2, 3);
    crate::polygon::lemma_mod_shift_up(-3, 3);
    vstd::arithmetic::div_mod::lemma_small_mod(0, 3);
    vstd::arithmetic::div_mod::lemma_small_mod(1, 3);
    vstd::arithmetic::div_mod::lemma_small_mod(2, 3);
}

/// In a three-vertex polygon, every ordered pair's count is at most one.
proof fn lemma_triangle_pair(s: Seq<Point>, i: int, k: int)
    requires
        s.len() == 3,
        0 <= i < 3,
        0 <= k < 3,
        i != k,
    ensures
        count_tri(s, i, k) <= 1,
{
    lemma_triangle_chains();
    let ll = chain_len(3, i, k);
    assert(ll == 0 || ll == 1);
    if ll == 1 {
        reveal_with_fuel(count_sum, 2);
        lemma_chain_split(3, i, k, 0);
        let j = chain_idx(3, k, 0);
        assert(chain_len(3, i, j) == 0 && chain_len(3, j, k) == 0);
        assert(count_tri(s, i, j) == 1 && count_tri(s, j, k) == 1);
        assert(count_tri(s, i, j) * count_tri(s, j, k) == 1) by (nonlinear_arith)
            requires
                count_tri(s, i, j) == 1,
                count_tri(s, j, k) == 1;
        assert(count_sum(s, i, k, 0) == 0);
        assert(count_sum(s, i, k, 1) <= 1);
        assert(count_tri(s, i, k) == count_sum(s, i, k, 1));
    }
}

} // verus!
