use boundary_rings::error::Error;
use boundary_rings::line::Line;
use boundary_rings::position::Position;

/// The grid position of a point given in degrees.
fn position(x: f64, y: f64) -> Position {
    Position::new((x * 10_000_000.0) as i32, (y * 10_000_000.0) as i32)
}

fn line(points: Vec<Position>) -> Line {
    Line::try_from(points).unwrap()
}

#[test]
fn create_continuous_linering() {
    let a = position(0., 0.);
    let b = position(1., 0.);
    let c = position(2., 0.);

    {
        let l = Line::try_from(vec![a, a]).unwrap();
        assert_eq!(
            boundary_rings::ring::create_continuous_linering(&vec![l.clone()]).unwrap(),
            l
        );
    }

    {
        let l = Line::try_from(vec![a, b, a]).unwrap();
        assert_eq!(
            boundary_rings::ring::create_continuous_linering(&vec![l.clone()]).unwrap(),
            l
        );
    }

    {
        let l = Line::try_from(vec![a, b, c, a]).unwrap();
        assert_eq!(
            boundary_rings::ring::create_continuous_linering(&vec![l.clone()]).unwrap(),
            l
        );
    }

    {
        let l1 = Line::try_from(vec![a, b]).unwrap();
        let l2 = Line::try_from(vec![b, a]).unwrap();
        let l3 = Line::try_from(vec![a, b, a]).unwrap();
        assert_eq!(
            boundary_rings::ring::create_continuous_linering(&vec![l1, l2]).unwrap(),
            l3
        );
    }

    {
        let l1 = Line::try_from(vec![a, b]).unwrap();
        let l2 = Line::try_from(vec![a, b]).unwrap();
        let l3 = Line::try_from(vec![a, b, a]).unwrap();
        assert_eq!(
            boundary_rings::ring::create_continuous_linering(&vec![l1, l2]).unwrap(),
            l3
        );
    }
}

#[test]
fn no_segments_give_no_ring() {
    assert_eq!(
        boundary_rings::ring::create_continuous_linering(&[]),
        Err(Error::MissingBoundaryMembers)
    );
}

#[test]
fn segments_without_a_shared_endpoint_do_not_match() {
    let a = Position::new(0, 0);
    let b = Position::new(1, 0);
    let c = Position::new(5, 5);
    let d = Position::new(6, 5);
    assert_eq!(
        boundary_rings::ring::create_continuous_linering(&[line(vec![a, b]), line(vec![c, d])]),
        Err(Error::NoMatchingSegment)
    );
}

#[test]
fn a_single_open_segment_is_no_ring() {
    let a = Position::new(0, 0);
    let b = Position::new(1, 0);
    assert_eq!(
        boundary_rings::ring::create_continuous_linering(&[line(vec![a, b])]),
        Err(Error::UnclosedRing)
    );
}

#[test]
fn a_chain_that_does_not_return_is_no_ring() {
    let a = Position::new(0, 0);
    let b = Position::new(1, 0);
    let c = Position::new(1, 1);
    assert_eq!(
        boundary_rings::ring::create_continuous_linering(&[line(vec![a, b]), line(vec![b, c])]),
        Err(Error::UnclosedRing)
    );
}

#[test]
fn segments_in_any_order_and_direction_form_the_ring() {
    let a = Position::new(0, 0);
    let b = Position::new(4, 0);
    let c = Position::new(4, 4);
    let d = Position::new(0, 4);
    let m = Position::new(2, 0);
    let segments = [
        line(vec![a, m, b]),
        line(vec![d, a]),
        line(vec![c, b]),
        line(vec![c, d]),
    ];
    let ring = boundary_rings::ring::create_continuous_linering(&segments).unwrap();
    assert_eq!(ring.points(), &vec![a, m, b, c, d, a]);
    // 3 + 2 + 2 + 2 positions, with three shared endpoints collapsed.
    assert_eq!(ring.len(), 9 - 3);
    assert_eq!(ring.start(), ring.end());
}

#[test]
fn a_junction_of_three_segments_uses_each_segment_once() {
    // A figure of eight through `a`: four segments meet there.
    let a = Position::new(0, 0);
    let b = Position::new(1, 1);
    let c = Position::new(1, -1);
    let d = Position::new(-1, 1);
    let e = Position::new(-1, -1);
    let segments = [
        line(vec![a, b]),
        line(vec![b, c, a]),
        line(vec![a, d]),
        line(vec![d, e, a]),
    ];
    let ring = boundary_rings::ring::create_continuous_linering(&segments).unwrap();
    assert_eq!(ring.points(), &vec![a, b, c, a, d, e, a]);
    assert_eq!(ring.len(), 2 + 3 + 2 + 3 - 3);
}

#[test]
fn the_lowest_numbered_segment_wins_at_a_junction() {
    let a = Position::new(0, 0);
    let b = Position::new(1, 1);
    let c = Position::new(2, 0);
    // All later segments touch `b`; the one listed first is taken first and
    // the ring runs a, b, c, b, a.
    let segments = [line(vec![a, b]), line(vec![b, c]), line(vec![c, b]), line(vec![b, a])];
    let ring = boundary_rings::ring::create_continuous_linering(&segments).unwrap();
    assert_eq!(ring.points(), &vec![a, b, c, b, a]);
}

#[test]
fn a_closed_seed_beside_a_stray_segment_is_no_match() {
    let a = Position::new(0, 0);
    let b = Position::new(1, 1);
    let c = Position::new(7, 7);
    let d = Position::new(8, 8);
    let segments = [line(vec![a, b, a]), line(vec![c, d])];
    assert_eq!(
        boundary_rings::ring::create_continuous_linering(&segments),
        Err(Error::NoMatchingSegment)
    );
}

#[test]
fn a_self_closed_segment_is_spliced_once() {
    let a = Position::new(0, 0);
    let b = Position::new(1, 1);
    let c = Position::new(2, 0);
    let segments = [line(vec![a, b, a]), line(vec![a, c, a])];
    let ring = boundary_rings::ring::create_continuous_linering(&segments).unwrap();
    assert_eq!(ring.points(), &vec![a, b, a, c, a]);
}
