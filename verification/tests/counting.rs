use triangulation::Point;
use triangulation::Polygon;

fn polygon(coords: &[(i32, i32)]) -> Polygon {
    let mut p = Polygon::empty();
    for &(x, y) in coords.iter() {
        p.push(Point::new(x, y));
    }
    p
}

#[test]
fn triangle_has_one_triangulation() {
    let p = polygon(&[(0, 0), (5, 0), (0, 5)]);
    assert_eq!(p.nb_triangulations(), Some(1));
}

#[test]
fn skewed_triangle_has_one_triangulation() {
    let p = polygon(&[(-3, 7), (10, -2), (4, 11)]);
    assert_eq!(p.nb_triangulations(), Some(1));
}

#[test]
fn unit_square_has_two_triangulations() {
    // The vertex list runs clockwise, so it is first put in the
    // counter-clockwise convention the cone test expects.
    let mut p = polygon(&[(0, 0), (0, 1), (1, 1), (1, 0)]);
    p.ccw_sort();
    assert_eq!(p.nb_triangulations(), Some(2));
}

#[test]
fn convex_quadrilateral_counts_catalan_two() {
    let p = polygon(&[(0, 0), (1, 0), (1, 1), (0, 1)]);
    assert_eq!(p.nb_triangulations(), Some(2));
}

#[test]
fn regular_pentagon_counts_catalan_five() {
    let p = polygon(&[(0, 1000), (-951, 309), (-588, -809), (588, -809), (951, 309)]);
    assert_eq!(p.nb_triangulations(), Some(5));
}

#[test]
fn convex_hexagon_counts_catalan_fourteen() {
    let p = polygon(&[(2, 0), (1, 2), (-1, 2), (-2, 0), (-1, -2), (1, -2)]);
    assert_eq!(p.nb_triangulations(), Some(14));
}

#[test]
fn dart_has_one_triangulation() {
    // A reflex vertex at (2, 1) leaves only the vertical split.
    let p = polygon(&[(0, 0), (2, 1), (4, 0), (2, 4)]);
    assert_eq!(p.nb_triangulations(), Some(1));
}

#[test]
fn convex_twelve_gon_counts_catalan_of_ten() {
    let p = polygon(&[
        (1000000, 0),
        (866025, 500000),
        (500000, 866025),
        (0, 1000000),
        (-500000, 866025),
        (-866025, 500000),
        (-1000000, 0),
        (-866025, -500000),
        (-500000, -866025),
        (0, -1000000),
        (500000, -866025),
        (866025, -500000),
    ]);
    assert_eq!(p.nb_triangulations(), Some(16796));
}

#[test]
fn forty_gon_count_overflows_sixty_four_bits() {
    // A convex polygon of forty vertices has the 38th Catalan number of
    // triangulations, which exceeds the range of u64.
    let coords: [(i32, i32); 40] = [
        (10000000, 0),
        (9876883, 1564345),
        (9510565, 3090170),
        (8910065, 4539905),
        (8090170, 5877853),
        (7071068, 7071068),
        (5877853, 8090170),
        (4539905, 8910065),
        (3090170, 9510565),
        (1564345, 9876883),
        (0, 10000000),
        (-1564345, 9876883),
        (-3090170, 9510565),
        (-4539905, 8910065),
        (-5877853, 8090170),
        (-7071068, 7071068),
        (-8090170, 5877853),
        (-8910065, 4539905),
        (-9510565, 3090170),
        (-9876883, 1564345),
        (-10000000, 0),
        (-9876883, -1564345),
        (-9510565, -3090170),
        (-8910065, -4539905),
        (-8090170, -5877853),
        (-7071068, -7071068),
        (-5877853, -8090170),
        (-4539905, -8910065),
        (-3090170, -9510565),
        (-1564345, -9876883),
        (0, -10000000),
        (1564345, -9876883),
        (3090170, -9510565),
        (4539905, -8910065),
        (5877853, -8090170),
        (7071068, -7071068),
        (8090170, -5877853),
        (8910065, -4539905),
        (9510565, -3090170),
        (9876883, -1564345),
    ];
    let p = polygon(&coords);
    assert_eq!(p.nb_triangulations(), None);
}
