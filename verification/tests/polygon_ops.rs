use triangulation::Point;
use triangulation::Polygon;

fn square() -> Polygon {
    Polygon::new(vec![
        Point::new(0, 0),
        Point::new(0, 1),
        Point::new(1, 1),
        Point::new(1, 0),
    ])
}

#[test]
fn from_slice_groups_pairs() {
    let p = Polygon::from_slice(&[0, 0, 0, 1, 1, 1, 1, 0]);
    assert_eq!(p.len(), 4);
    assert_eq!(p.vertex(0), Point::new(0, 0));
    assert_eq!(p.vertex(1), Point::new(0, 1));
    assert_eq!(p.vertex(2), Point::new(1, 1));
    assert_eq!(p.vertex(3), Point::new(1, 0));
}

#[test]
fn from_slice_drops_odd_trailing_value() {
    let p = Polygon::from_slice(&[3, 4, 5, 6, 7]);
    assert_eq!(p.len(), 2);
    assert_eq!(p.vertex(0), Point::new(3, 4));
    assert_eq!(p.vertex(1), Point::new(5, 6));
}

#[test]
fn push_appends_vertices() {
    let mut p = Polygon::empty();
    assert_eq!(p.len(), 0);
    p.push(Point::new(2, 3));
    p.push(Point::new(4, 5));
    assert_eq!(p.len(), 2);
    assert_eq!(p.vertex(1), Point::new(4, 5));
}

#[test]
fn centroid_holds_exact_sums() {
    let c = square().centroid();
    assert_eq!(c.sx, 2);
    assert_eq!(c.sy, 2);
    assert_eq!(c.n, 4);
}

#[test]
fn edge_adjacency_is_cyclic_and_symmetric() {
    let p = Polygon::new(vec![
        Point::new(0, 0),
        Point::new(10, 0),
        Point::new(12, 8),
        Point::new(5, 12),
        Point::new(-2, 7),
    ]);
    assert!(p.edge(0, 1));
    assert!(p.edge(3, 4));
    assert!(p.edge(0, 4));
    assert!(!p.edge(0, 2));
    assert!(!p.edge(1, 3));
    for a in 0..5 {
        for b in 0..5 {
            assert_eq!(p.edge(a, b), p.edge(b, a));
        }
    }
}

#[test]
fn left_polygon_walks_the_chain() {
    let p = square();
    assert_eq!(p.left_polygon(0, 1), vec![2, 3]);
    assert_eq!(p.left_polygon(2, 0), vec![1]);
    assert_eq!(p.left_polygon(1, 2), vec![3, 0]);
    assert_eq!(p.left_polygon(1, 0), Vec::<usize>::new());
}

#[test]
fn square_diagonals_are_recognized() {
    // Counter-clockwise order: the cone test reads the interior as lying to
    // the left of the traversal.
    let p = Polygon::new(vec![
        Point::new(0, 0),
        Point::new(1, 0),
        Point::new(1, 1),
        Point::new(0, 1),
    ]);
    assert!(p.diagonal(0, 2));
    assert!(p.diagonal(2, 0));
    assert!(p.diagonal(1, 3));
    assert!(p.diagonalie(0, 2));
    assert!(p.in_cone(0, 2));
}

/// A dart: the quadrilateral (0,0), (2,1), (4,0), (2,4) has a reflex vertex
/// at (2,1); only the vertical split is an internal diagonal.
fn dart() -> Polygon {
    Polygon::new(vec![
        Point::new(0, 0),
        Point::new(2, 1),
        Point::new(4, 0),
        Point::new(2, 4),
    ])
}

#[test]
fn dart_has_one_internal_diagonal() {
    let p = dart();
    assert!(p.diagonal(1, 3));
    assert!(!p.diagonal(0, 2));
}

#[test]
fn diagonal_is_symmetric_on_the_dart() {
    let p = dart();
    for a in 0..4 {
        for b in 0..4 {
            assert_eq!(p.diagonal(a, b), p.diagonal(b, a));
        }
    }
}

#[test]
fn double_area_of_the_square() {
    // The square is listed clockwise, so its fan sum is negative.
    assert_eq!(square().double_area(), -2);
}

#[test]
fn double_area_of_a_triangle() {
    let p = Polygon::new(vec![Point::new(0, 0), Point::new(4, 0), Point::new(0, 3)]);
    assert_eq!(p.double_area(), 12);
}

#[test]
fn ccw_sort_orders_square_corners() {
    let mut p = Polygon::new(vec![
        Point::new(1, 1),
        Point::new(0, 0),
        Point::new(0, 1),
        Point::new(1, 0),
    ]);
    p.ccw_sort();
    assert_eq!(p.vertex(0), Point::new(0, 0));
    assert_eq!(p.vertex(1), Point::new(1, 0));
    assert_eq!(p.vertex(2), Point::new(1, 1));
    assert_eq!(p.vertex(3), Point::new(0, 1));
}

#[test]
fn ccw_sort_makes_polar_angles_non_decreasing() {
    let mut p = Polygon::new(vec![
        Point::new(0, 100),
        Point::new(71, -71),
        Point::new(-100, 0),
        Point::new(71, 71),
        Point::new(0, -100),
        Point::new(-71, 71),
        Point::new(100, 0),
        Point::new(-71, -71),
    ]);
    let c = p.centroid();
    let cx = c.sx as f64 / c.n as f64;
    let cy = c.sy as f64 / c.n as f64;
    p.ccw_sort();
    let mut prev = f64::NEG_INFINITY;
    for i in 0..p.len() {
        let v = p.vertex(i);
        let ang = (v.y() as f64 - cy).atan2(v.x() as f64 - cx);
        assert!(ang >= prev);
        prev = ang;
    }
}

#[test]
fn ccw_sort_keeps_the_vertex_multiset() {
    let original = vec![
        Point::new(5, 5),
        Point::new(-3, 4),
        Point::new(0, -6),
        Point::new(7, -1),
        Point::new(-5, -5),
    ];
    let mut p = Polygon::new(original.clone());
    p.ccw_sort();
    let mut before: Vec<(i32, i32)> = original.iter().map(|v| (v.x(), v.y())).collect();
    let mut after: Vec<(i32, i32)> = Vec::new();
    for i in 0..p.len() {
        after.push((p.vertex(i).x(), p.vertex(i).y()));
    }
    before.sort();
    after.sort();
    assert_eq!(before, after);
}
