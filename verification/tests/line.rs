use boundary_rings::error::Error;
use boundary_rings::line::Line;
use boundary_rings::position::Position;

/// The grid position of a point given in degrees.
fn position(x: f64, y: f64) -> Position {
    Position::new((x * 10_000_000.0) as i32, (y * 10_000_000.0) as i32)
}

#[test]
fn extend() {
    let a = position(0., 0.);
    let b = position(1., 0.);

    {
        let mut l = Line::try_from(vec![a, b]).unwrap();
        l.extend(&Line::try_from(vec![b, a]).unwrap()).unwrap();
        assert_eq!(l, Line::try_from(vec![a, b, a]).unwrap());
    }

    {
        let mut l = Line::try_from(vec![a, b]).unwrap();
        l.extend(&Line::try_from(vec![a, b]).unwrap()).unwrap();
        assert_eq!(l, Line::try_from(vec![a, b, a]).unwrap());
    }
}

#[test]
fn extend_forwards_drops_the_shared_first_position() {
    let a = Position::new(0, 0);
    let b = Position::new(1, 0);
    let c = Position::new(2, 5);
    let d = Position::new(3, 7);

    let mut l = Line::try_from(vec![a, b]).unwrap();
    l.extend(&Line::try_from(vec![b, c, d]).unwrap()).unwrap();
    assert_eq!(l.points(), &vec![a, b, c, d]);
    assert_eq!(l.len(), 4);
}

#[test]
fn extend_backwards_drops_the_shared_last_position() {
    let a = Position::new(0, 0);
    let b = Position::new(1, 0);
    let c = Position::new(2, 5);
    let d = Position::new(3, 7);

    let mut l = Line::try_from(vec![a, b]).unwrap();
    l.extend(&Line::try_from(vec![d, c, b]).unwrap()).unwrap();
    assert_eq!(l.points(), &vec![a, b, c, d]);
}

#[test]
fn extend_refuses_a_tail_that_does_not_touch() {
    let a = Position::new(0, 0);
    let b = Position::new(1, 0);
    let c = Position::new(2, 5);
    let d = Position::new(3, 7);

    let mut l = Line::try_from(vec![a, b]).unwrap();
    assert_eq!(
        l.extend(&Line::try_from(vec![c, d]).unwrap()),
        Err(Error::NonContinuousPath)
    );
    assert_eq!(l.points(), &vec![a, b]);
    // The tail must touch the end of the line, not its start.
    assert_eq!(
        l.extend(&Line::try_from(vec![a, c]).unwrap()),
        Err(Error::NonContinuousPath)
    );
    assert_eq!(l.points(), &vec![a, b]);
}

#[test]
fn line_needs_two_positions() {
    let a = Position::new(4, 4);
    assert_eq!(Line::try_from(vec![]), Err(Error::DegenerateSegment));
    assert_eq!(Line::try_from(vec![a]), Err(Error::DegenerateSegment));
    let l = Line::try_from(vec![a, a]).unwrap();
    assert_eq!(l.len(), 2);
    assert_eq!(*l.start(), a);
    assert_eq!(*l.end(), a);
}

#[test]
fn start_end_clone_and_reverse() {
    let a = Position::new(0, 0);
    let b = Position::new(1, 0);
    let c = Position::new(2, 5);

    let l = Line::try_from(vec![a, b, c]).unwrap();
    assert_eq!(*l.start(), a);
    assert_eq!(*l.end(), c);

    let mut r = l.clone();
    assert_eq!(r, l);
    r.reverse();
    assert_eq!(r.points(), &vec![c, b, a]);
    assert_eq!(l.points(), &vec![a, b, c]);
}
