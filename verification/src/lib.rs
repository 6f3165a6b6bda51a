//! A computational-geometry kernel for planar simple polygons: exact
//! orientation and segment-intersection predicates, visibility (diagonal)
//! tests between polygon vertices, and a memoized counter for the number of
//! distinct triangulations of a polygon by non-crossing diagonals.
//!
//! Coordinates are fixed-point integers: a caller that starts from
//! fractional coordinates scales them so that one unit stands for its
//! comparison tolerance, and every predicate here is then exact.

mod angle;
mod convex;
mod count;
mod point;
mod polygon;

pub use angle::angle_le;
pub use angle::angle_le_about;
pub use angle::angle_le_at;
pub use angle::cross2;
pub use angle::half_of;
pub use angle::lemma_angle_le_about_total;
pub use angle::lemma_angle_le_about_trans;
pub use convex::convex_ccw;
pub use convex::fwd;
pub use convex::lemma_convex_all_ok;
pub use convex::lemma_convex_polygon_catalan;
pub use count::catalan;
pub use count::catalan_sum;
pub use count::count_sum;
pub use count::count_tri;
pub use count::lemma_all_ok_count;
pub use count::lemma_convex_catalan;
pub use count::lemma_triangle_count;
pub use count::tri_ok;
pub use point::area2;
pub use point::is_between;
pub use point::is_collinear;
pub use point::is_intersect;
pub use point::is_left;
pub use point::is_left_on;
pub use point::is_proper_intersect;
pub use point::lemma_between_endpoints;
pub use point::lemma_collinear_degenerate;
pub use point::lemma_intersect_symmetry;
pub use point::Point;
pub use polygon::blocks;
pub use polygon::chain_idx;
pub use polygon::chain_len;
pub use polygon::fan_area2;
pub use polygon::is_edge;
pub use polygon::lemma_diagonal_symmetry;
pub use polygon::lemma_edge_symmetry;
pub use polygon::nxt;
pub use polygon::polygon_area2;
pub use polygon::prv;
pub use polygon::spec_diagonal;
pub use polygon::spec_diagonalie;
pub use polygon::spec_in_cone;
pub use polygon::sum_x;
pub use polygon::sum_y;
pub use polygon::Centroid;
pub use polygon::Polygon;
