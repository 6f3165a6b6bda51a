use triangulation::Point;

#[test]
fn left_turns_counter_clockwise() {
    let a = Point::new(0, 0);
    let b = Point::new(1, 0);
    assert!(Point::left(&a, &b, &Point::new(0, 1)));
    assert!(!Point::left(&a, &b, &Point::new(0, -1)));
}

#[test]
fn left_on_accepts_the_line_itself() {
    let a = Point::new(0, 0);
    let b = Point::new(2, 0);
    assert!(Point::left_on(&a, &b, &Point::new(1, 0)));
    assert!(Point::left_on(&a, &b, &Point::new(1, 5)));
    assert!(!Point::left_on(&a, &b, &Point::new(1, -5)));
}

#[test]
fn double_area_signs() {
    let a = Point::new(0, 0);
    let b = Point::new(4, 0);
    assert_eq!(Point::double_area(&a, &b, &Point::new(0, 3)), 12);
    assert_eq!(Point::double_area(&a, &b, &Point::new(0, -3)), -12);
    assert_eq!(Point::double_area(&a, &b, &Point::new(2, 0)), 0);
}

#[test]
fn collinear_on_a_line() {
    let a = Point::new(0, 0);
    let b = Point::new(1, 1);
    assert!(Point::collinear(&a, &b, &Point::new(2, 2)));
    assert!(!Point::collinear(&a, &b, &Point::new(2, 3)));
}

#[test]
fn collinear_when_two_points_coincide() {
    let p = Point::new(3, 7);
    let q = Point::new(-2, 5);
    assert!(Point::collinear(&p, &p, &q));
    assert!(Point::collinear(&p, &q, &p));
    assert!(Point::collinear(&q, &p, &p));
}

#[test]
fn between_includes_both_endpoints() {
    let a = Point::new(-3, 1);
    let b = Point::new(5, 1);
    assert!(Point::between(&a, &b, &a));
    assert!(Point::between(&a, &b, &b));
}

#[test]
fn between_on_horizontal_and_vertical_segments() {
    let a = Point::new(0, 0);
    let b = Point::new(4, 0);
    assert!(Point::between(&a, &b, &Point::new(2, 0)));
    assert!(!Point::between(&a, &b, &Point::new(5, 0)));
    assert!(!Point::between(&a, &b, &Point::new(2, 1)));
    let c = Point::new(1, -2);
    let d = Point::new(1, 6);
    assert!(Point::between(&c, &d, &Point::new(1, 0)));
    assert!(!Point::between(&c, &d, &Point::new(1, 7)));
}

#[test]
fn crossing_segments_intersect() {
    let a0 = Point::new(0, 0);
    let a1 = Point::new(4, 4);
    let b0 = Point::new(0, 4);
    let b1 = Point::new(4, 0);
    assert!(Point::intersect(&a0, &a1, &b0, &b1));
}

#[test]
fn touching_segments_intersect() {
    let a0 = Point::new(0, 0);
    let a1 = Point::new(4, 0);
    let b0 = Point::new(2, 0);
    let b1 = Point::new(2, 5);
    assert!(Point::intersect(&a0, &a1, &b0, &b1));
}

#[test]
fn disjoint_segments_do_not_intersect() {
    let a0 = Point::new(0, 0);
    let a1 = Point::new(4, 0);
    let b0 = Point::new(0, 1);
    let b1 = Point::new(4, 1);
    assert!(!Point::intersect(&a0, &a1, &b0, &b1));
}

#[test]
fn intersect_symmetric_in_segments_and_endpoint_order() {
    let cases = [
        // properly crossing
        [(0, 0), (4, 4), (0, 4), (4, 0)],
        // touching at an interior point
        [(0, 0), (4, 0), (2, 0), (2, 5)],
        // sharing one endpoint
        [(0, 0), (4, 0), (4, 0), (6, 3)],
        // disjoint
        [(0, 0), (4, 0), (0, 1), (4, 1)],
        // parallel and overlapping
        [(0, 0), (4, 0), (2, 0), (6, 0)],
    ];
    for c in cases.iter() {
        let p0 = Point::new(c[0].0, c[0].1);
        let p1 = Point::new(c[1].0, c[1].1);
        let q0 = Point::new(c[2].0, c[2].1);
        let q1 = Point::new(c[3].0, c[3].1);
        let base = Point::intersect(&p0, &p1, &q0, &q1);
        assert_eq!(base, Point::intersect(&q0, &q1, &p0, &p1));
        assert_eq!(base, Point::intersect(&p1, &p0, &q0, &q1));
        assert_eq!(base, Point::intersect(&p0, &p1, &q1, &q0));
        assert_eq!(base, Point::intersect(&q1, &q0, &p1, &p0));
    }
}

#[test]
fn point_accessors() {
    let p = Point::new(-7, 12);
    assert_eq!(p.x(), -7);
    assert_eq!(p.y(), 12);
    assert_eq!(p, Point::new(-7, 12));
}
