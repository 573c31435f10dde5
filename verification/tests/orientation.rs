use boundary_rings::line::Line;
use boundary_rings::orientation::is_clockwise;
use boundary_rings::position::Position;
use boundary_rings::ring::normalize;

/// The grid position of a point given in degrees.
fn position(x: f64, y: f64) -> Position {
    Position::new((x * 10_000_000.0) as i32, (y * 10_000_000.0) as i32)
}

#[test]
fn geojson_is_clockwise() {
    // Points in the four quadrants of a cartesian coordinate system. Numbering here is
    // counterclockwise.
    let q1 = position(1.0, 1.0);
    let q2 = position(1.0, -1.0);
    let q3 = position(-1.0, -1.0);
    let q4 = position(-1.0, 1.0);

    // Degenerate cases.
    assert!(!is_clockwise(&[]));
    assert!(!is_clockwise(&vec![q1]));

    // Segments with two elements are both clock- and counterclockwise.
    assert!(!is_clockwise(&vec![q1, q2]));
    assert!(!is_clockwise(&vec![q2, q1]));

    assert!(is_clockwise(&vec![q1, q2, q3, q4]));
    assert!(!is_clockwise(&vec![q4, q3, q2, q1]));
}

#[test]
fn geom_is_clockwise() {
    // Points in the four quadrants of a cartesian coordinate system. Numbering here is
    // counterclockwise.
    let q1 = position(1.0, 1.0);
    let q2 = position(1.0, -1.0);
    let q3 = position(-1.0, -1.0);
    let q4 = position(-1.0, 1.0);

    // Segments with two elements are both clock- and counterclockwise.
    assert!(!boundary_rings::ring::is_clockwise(
        &Line::try_from(vec![q1, q2]).unwrap()
    ));
    assert!(!boundary_rings::ring::is_clockwise(
        &Line::try_from(vec![q2, q1]).unwrap()
    ));

    assert!(boundary_rings::ring::is_clockwise(
        &Line::try_from(vec![q1, q2, q3, q4]).unwrap()
    ));
    assert!(!boundary_rings::ring::is_clockwise(
        &Line::try_from(vec![q4, q3, q2, q1]).unwrap()
    ));
}

#[test]
fn closed_square_is_clockwise_in_one_direction_only() {
    let q1 = Position::new(1, 1);
    let q2 = Position::new(1, -1);
    let q3 = Position::new(-1, -1);
    let q4 = Position::new(-1, 1);

    assert!(is_clockwise(&[q1, q2, q3, q4, q1]));
    assert!(!is_clockwise(&[q1, q4, q3, q2, q1]));
}

#[test]
fn triangle_has_the_sign_of_its_shoelace_sum() {
    // (1 - 0) * (0 + 0) + (0 - 1) * (1 + 0) + (0 - 0) * (0 + 1) = -1
    let a = Position::new(0, 0);
    let b = Position::new(1, 0);
    let c = Position::new(0, 1);
    assert!(!is_clockwise(&[a, b, c]));
    // (0 - 0) * (1 + 0) + (1 - 0) * (0 + 1) + (0 - 1) * (0 + 0) = 1
    assert!(is_clockwise(&[a, c, b]));
}

#[test]
fn collinear_points_are_not_clockwise() {
    let a = Position::new(0, 0);
    let b = Position::new(5, 5);
    let c = Position::new(9, 9);
    assert!(!is_clockwise(&[a, b, c]));
    assert!(!is_clockwise(&[c, b, a]));
}

#[test]
fn orientation_holds_at_the_edges_of_the_grid() {
    let lo = i32::MIN;
    let hi = i32::MAX;
    let q1 = Position::new(hi, hi);
    let q2 = Position::new(hi, lo);
    let q3 = Position::new(lo, lo);
    let q4 = Position::new(lo, hi);

    assert!(is_clockwise(&[q1, q2, q3, q4]));
    assert!(!is_clockwise(&[q4, q3, q2, q1]));
}

#[test]
fn normalize_turns_a_clockwise_ring_around() {
    let q1 = Position::new(1, 1);
    let q2 = Position::new(1, -1);
    let q3 = Position::new(-1, -1);
    let q4 = Position::new(-1, 1);

    let mut ring = Line::try_from(vec![q1, q2, q3, q4, q1]).unwrap();
    normalize(&mut ring);
    assert_eq!(ring.points(), &vec![q1, q4, q3, q2, q1]);
}

#[test]
fn normalize_leaves_a_counter_clockwise_ring_alone() {
    let q1 = Position::new(1, 1);
    let q2 = Position::new(1, -1);
    let q3 = Position::new(-1, -1);
    let q4 = Position::new(-1, 1);

    let mut ring = Line::try_from(vec![q1, q4, q3, q2, q1]).unwrap();
    normalize(&mut ring);
    assert_eq!(ring.points(), &vec![q1, q4, q3, q2, q1]);
    // A second run changes nothing either.
    normalize(&mut ring);
    assert_eq!(ring.points(), &vec![q1, q4, q3, q2, q1]);
}

#[test]
fn normalize_leaves_a_ring_without_area_alone() {
    let a = Position::new(0, 0);
    let b = Position::new(3, 4);

    let mut ring = Line::try_from(vec![a, b, a]).unwrap();
    normalize(&mut ring);
    assert_eq!(ring.points(), &vec![a, b, a]);
}
