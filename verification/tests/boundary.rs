use boundary_rings::boundary::{as_polygon, is_outer, polygons, Area, Dataset, Member, MemberKind};
use boundary_rings::error::Error;
use boundary_rings::position::Position;
use boundary_rings::tags::Tags;

fn member(kind: MemberKind, id: i64, role: &str) -> Member {
    Member { kind, id, role: role.to_string() }
}

fn outer(id: i64) -> Member {
    member(MemberKind::Way, id, "outer")
}

/// A square of four nodes, 1 to 4 clockwise from the north-east corner, and
/// the ways 10 (1-2-3), 11 (3-4) and 12 (1-4) around it.
fn square() -> Dataset {
    let mut data = Dataset::new();
    data.add_node(1, Position::new(10, 10));
    data.add_node(2, Position::new(10, -10));
    data.add_node(3, Position::new(-10, -10));
    data.add_node(4, Position::new(-10, 10));
    data.add_way(10, vec![1, 2, 3]);
    data.add_way(11, vec![3, 4]);
    data.add_way(12, vec![1, 4]);
    data
}

#[test]
fn dataset_finds_what_was_added() {
    let mut data = square();
    assert_eq!(data.node(1), Some(Position::new(10, 10)));
    assert_eq!(data.node(5), None);
    assert_eq!(data.way(10), Some(&vec![1, 2, 3]));
    assert_eq!(data.way(1), None);

    data.add_node(1, Position::new(7, 7));
    data.add_way(10, vec![4]);
    assert_eq!(data.node(1), Some(Position::new(7, 7)));
    assert_eq!(data.way(10), Some(&vec![4]));
    assert_eq!(data.node(2), Some(Position::new(10, -10)));
    assert_eq!(data.way(11), Some(&vec![3, 4]));
}

#[test]
fn only_the_exact_role_is_outer() {
    assert!(is_outer(&"outer".to_string()));
    assert!(!is_outer(&"inner".to_string()));
    assert!(!is_outer(&"".to_string()));
    assert!(!is_outer(&"Outer".to_string()));
    assert!(!is_outer(&"outer ".to_string()));
}

#[test]
fn resolve_gives_the_positions_of_a_way() {
    let data = square();
    let line = data.resolve(&outer(10)).unwrap();
    assert_eq!(
        line.points(),
        &vec![Position::new(10, 10), Position::new(10, -10), Position::new(-10, -10)]
    );
}

#[test]
fn resolve_fails_on_what_is_missing() {
    let mut data = square();
    data.add_way(20, vec![1, 99]);
    data.add_way(21, vec![1]);
    data.add_way(22, vec![]);
    data.add_way(23, vec![99]);

    assert_eq!(data.resolve(&outer(13)), Err(Error::UnresolvedMember));
    assert_eq!(data.resolve(&outer(20)), Err(Error::UnresolvedMember));
    assert_eq!(data.resolve(&outer(23)), Err(Error::UnresolvedMember));
    assert_eq!(data.resolve(&outer(21)), Err(Error::DegenerateSegment));
    assert_eq!(data.resolve(&outer(22)), Err(Error::DegenerateSegment));
    // The identifier of a way names no node and no area.
    assert_eq!(
        data.resolve(&member(MemberKind::Node, 10, "outer")),
        Err(Error::UnresolvedMember)
    );
    assert_eq!(
        data.resolve(&member(MemberKind::Relation, 10, "outer")),
        Err(Error::UnresolvedMember)
    );
}

#[test]
fn area_becomes_a_counter_clockwise_ring() {
    let data = square();
    let area = Area { tags: Tags::new(), id: 1, members: vec![outer(10), outer(11), outer(12)] };
    let ring = as_polygon(&area, &data).unwrap();
    // Assembled clockwise as 1, 2, 3, 4, 1, and therefore turned around.
    assert_eq!(
        ring.points(),
        &vec![
            Position::new(10, 10),
            Position::new(-10, 10),
            Position::new(-10, -10),
            Position::new(10, -10),
            Position::new(10, 10),
        ]
    );
    assert!(!boundary_rings::ring::is_clockwise(&ring));
}

#[test]
fn counter_clockwise_area_keeps_its_order() {
    let mut data = square();
    data.add_way(13, vec![1, 4, 3]);
    data.add_way(14, vec![3, 2, 1]);
    let area = Area { tags: Tags::new(), id: 2, members: vec![outer(13), outer(14)] };
    let ring = as_polygon(&area, &data).unwrap();
    assert_eq!(
        ring.points(),
        &vec![
            Position::new(10, 10),
            Position::new(-10, 10),
            Position::new(-10, -10),
            Position::new(10, -10),
            Position::new(10, 10),
        ]
    );
}

#[test]
fn inner_members_are_passed_over() {
    let data = square();
    let area = Area {
        tags: Tags::new(),
        id: 3,
        members: vec![
            member(MemberKind::Way, 77, "inner"),
            outer(10),
            member(MemberKind::Relation, 5, "subarea"),
            outer(11),
            member(MemberKind::Node, 1, "admin_centre"),
            outer(12),
        ],
    };
    let ring = as_polygon(&area, &data).unwrap();
    assert_eq!(ring.len(), 5);
}

#[test]
fn area_without_outer_members_has_no_boundary() {
    let data = square();
    let none = Area { tags: Tags::new(), id: 4, members: vec![] };
    assert_eq!(as_polygon(&none, &data), Err(Error::MissingBoundaryMembers));
    let inner_only = Area { tags: Tags::new(), id: 5, members: vec![member(MemberKind::Way, 10, "inner")] };
    assert_eq!(as_polygon(&inner_only, &data), Err(Error::MissingBoundaryMembers));
}

#[test]
fn absent_outer_member_fails_the_area() {
    let data = square();
    let area = Area { tags: Tags::new(), id: 6, members: vec![outer(10), outer(99), outer(11), outer(12)] };
    assert_eq!(as_polygon(&area, &data), Err(Error::UnresolvedMember));
}

#[test]
fn first_failing_member_decides_the_failure() {
    let mut data = square();
    data.add_way(21, vec![1]);
    let degenerate_first = Area { tags: Tags::new(), id: 7, members: vec![outer(21), outer(99)] };
    assert_eq!(as_polygon(&degenerate_first, &data), Err(Error::DegenerateSegment));
    let unresolved_first = Area { tags: Tags::new(), id: 8, members: vec![outer(99), outer(21)] };
    assert_eq!(as_polygon(&unresolved_first, &data), Err(Error::UnresolvedMember));
}

#[test]
fn open_boundary_is_reported() {
    let data = square();
    let unclosed = Area { tags: Tags::new(), id: 9, members: vec![outer(10), outer(11)] };
    assert_eq!(as_polygon(&unclosed, &data), Err(Error::UnclosedRing));
    let mut apart = square();
    apart.add_node(5, Position::new(50, 50));
    apart.add_node(6, Position::new(60, 60));
    apart.add_way(15, vec![5, 6]);
    let unmatched = Area { tags: Tags::new(), id: 10, members: vec![outer(11), outer(15)] };
    assert_eq!(as_polygon(&unmatched, &apart), Err(Error::NoMatchingSegment));
}

#[test]
fn failed_area_does_not_stop_the_areas_after_it() {
    let data = square();
    let areas = vec![
        Area { tags: Tags::new(), id: 1, members: vec![outer(98), outer(99)] },
        Area { tags: Tags::new(), id: 2, members: vec![outer(10), outer(11), outer(12)] },
        Area { tags: Tags::new(), id: 3, members: vec![] },
        Area { tags: Tags::new(), id: 4, members: vec![outer(12), outer(11), outer(10)] },
    ];
    let outcomes = polygons(&areas, &data);
    assert_eq!(outcomes.len(), 4);
    assert_eq!(outcomes[0], Err(Error::UnresolvedMember));
    assert_eq!(outcomes[1], as_polygon(&areas[1], &data));
    assert!(outcomes[1].is_ok());
    assert_eq!(outcomes[2], Err(Error::MissingBoundaryMembers));
    assert_eq!(
        outcomes[3].as_ref().unwrap().points(),
        &vec![
            Position::new(10, 10),
            Position::new(-10, 10),
            Position::new(-10, -10),
            Position::new(10, -10),
            Position::new(10, 10),
        ]
    );
}
