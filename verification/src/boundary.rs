use std::collections::HashMap;
use vstd::prelude::*;
use vstd::std_specs::hash::group_hash_axioms;
use crate::error::Error;
use crate::line::Line;
use crate::orientation::normalized;
use crate::position::Position;
use crate::tags::Tags;
use crate::ring::{assembled, create_continuous_linering, normalize, outcome, paths};

verus! {

/// What kind of object a member of an area refers to.
#[derive(Clone, Copy, Debug, PartialEq, Eq, Structural)]
pub enum MemberKind {
    /// A single point.
    Node,
    /// A way: an ordered list of nodes.
    Way,
    /// Another area.
    Relation,
}

/// One member of an area: a reference to an object, with the role that the
/// object plays in the area.
#[derive(Debug, PartialEq, Eq)]
pub struct Member {
    /// The kind of the object referred to.
    pub kind: MemberKind,
    /// The identifier of the object among the objects of its kind.
    pub id: i64,
    /// The role, such as `outer` or `inner`.
    pub role: String,
}

/// An area: a named boundary made of members.
#[derive(Debug)]
pub struct Area {
    /// The identifier of the area.
    pub id: i64,
    /// The tags of the area.
    pub tags: Tags,
    /// The members in the order in which the area lists them.
    pub members: Vec<Member>,
}

/// The model of a dataset: its nodes and its ways by their identifiers.
pub ghost struct Objects {
    /// The position of each node.
    pub nodes: Map<i64, Position>,
    /// The node identifiers of each way, in order.
    pub ways: Map<i64, Seq<i64>>,
}

/// The nodes and ways that the members of areas refer to.
pub struct Dataset {
    nodes: HashMap<i64, Position>,
    ways: HashMap<i64, Vec<i64>>,
}

impl View for Dataset {
    type V = Objects;

    closed spec fn view(&self) -> Objects {
        Objects { nodes: self.nodes@, ways: self.ways@.map_values(|nodes: Vec<i64>| nodes@) }
    }
}

/// Whether a member with this role belongs to the outer boundary.
pub open spec fn is_outer_role(role: Seq<char>) -> bool {
    role == "outer"@
}

/// The positions of the nodes of a way, if the dataset holds them all.
pub open spec fn positions_of(objects: Objects, nodes: Seq<i64>) -> Option<Seq<Position>> {
    if forall|i: int| 0 <= i < nodes.len() ==> objects.nodes.contains_key(#[trigger] nodes[i]) {
        Some(nodes.map_values(|node: i64| objects.nodes[node]))
    } else {
        None
    }
}

/// The segment that `member` stands for.
///
/// A member that is no way, a way that the dataset lacks and a way with a
/// node that the dataset lacks are unresolved. A way of fewer than two nodes
/// is degenerate.
pub open spec fn resolved(objects: Objects, member: Member) -> Result<Seq<Position>, Error> {
    if member.kind != MemberKind::Way || !objects.ways.contains_key(member.id) {
        Err(Error::UnresolvedMember)
    } else {
        match positions_of(objects, objects.ways[member.id]) {
            None => Err(Error::UnresolvedMember),
            Some(points) => if points.len() < 2 {
                Err(Error::DegenerateSegment)
            } else {
                Ok(points)
            },
        }
    }
}

/// The segments of the outer members among `members`, in their order, or
/// the failure of the first outer member that has one. Members with another
/// role are passed over.
pub open spec fn outer_segments(objects: Objects, members: Seq<Member>) -> Result<
    Seq<Seq<Position>>,
    Error,
>
    decreases members.len(),
{
    if members.len() == 0 {
        Ok(Seq::empty())
    } else {
        match outer_segments(objects, members.drop_last()) {
            Err(e) => Err(e),
            Ok(segments) => if !is_outer_role(members.last().role@) {
                Ok(segments)
            } else {
                match resolved(objects, members.last()) {
                    Err(e) => Err(e),
                    Ok(segment) => Ok(segments.push(segment)),
                }
            },
        }
    }
}

/// The outer ring of an area with these members: its outer segments
/// assembled into one ring that respects the right-hand rule.
pub open spec fn boundary_ring(objects: Objects, members: Seq<Member>) -> Result<
    Seq<Position>,
    Error,
> {
    match outer_segments(objects, members) {
        Err(e) => Err(e),
        Ok(segments) => match assembled(segments) {
            Err(e) => Err(e),
            Ok(ring) => Ok(normalized(ring)),
        },
    }
}

/// A failure among the first members is the failure of them all.
proof fn lemma_failure_is_final(objects: Objects, members: Seq<Member>, count: int, e: Error)
    requires
        0 <= count <= members.len(),
        outer_segments(objects, members.take(count)) == Err::<Seq<Seq<Position>>, Error>(e),
    ensures
        outer_segments(objects, members) == Err::<Seq<Seq<Position>>, Error>(e),
    decreases members.len() - count,
{
    if count < members.len() {
        assert(members.take(count + 1).drop_last() =~= members.take(count));
        lemma_failure_is_final(objects, members, count + 1, e);
    } else {
        assert(members.take(count) =~= members);
    }
}

/// Whether the dataset lacks the object that `member` refers to as a way.
pub open spec fn is_absent(objects: Objects, member: Member) -> bool {
    member.kind != MemberKind::Way || !objects.ways.contains_key(member.id)
}

/// Where every outer member is absent from the dataset, no segment is found
/// and, if there is an outer member at all, the failure is that of an
/// unresolved member.
proof fn lemma_absent_members(objects: Objects, members: Seq<Member>)
    requires
        forall|i: int|
            0 <= i < members.len() && is_outer_role(members[i].role@) ==> is_absent(
                objects,
                #[trigger] members[i],
            ),
    ensures
        outer_segments(objects, members) == if exists|i: int|
            0 <= i < members.len() && is_outer_role((#[trigger] members[i]).role@) {
            Err::<Seq<Seq<Position>>, Error>(Error::UnresolvedMember)
        } else {
            Ok::<Seq<Seq<Position>>, Error>(Seq::empty())
        },
    decreases members.len(),
{
    if members.len() > 0 {
        let front = members.drop_last();
        assert forall|i: int|
            0 <= i < front.len() && is_outer_role(front[i].role@) implies is_absent(
            objects,
            #[trigger] front[i],
        ) by {
            assert(front[i] == members[i]);
        }
        lemma_absent_members(objects, front);
        let last = members.len() - 1;
        if exists|i: int| 0 <= i < front.len() && is_outer_role((#[trigger] front[i]).role@) {
            let i = choose|i: int|
                0 <= i < front.len() && is_outer_role((#[trigger] front[i]).role@);
            assert(members[i] == front[i]);
        } else if is_outer_role(members[last].role@) {
            assert(is_absent(objects, members[last]));
        } else {
            assert forall|i: int| 0 <= i < members.len() implies !is_outer_role(
                (#[trigger] members[i]).role@,
            ) by {
                if i < last {
                    assert(front[i] == members[i]);
                }
            }
        }
    }
}

/// An area whose outer members are all absent from the dataset fails as
/// unresolved.
pub proof fn lemma_absent_members_fail_the_area(objects: Objects, members: Seq<Member>)
    requires
        exists|i: int| 0 <= i < members.len() && is_outer_role((#[trigger] members[i]).role@),
        forall|i: int|
            0 <= i < members.len() && is_outer_role(members[i].role@) ==> is_absent(
                objects,
                #[trigger] members[i],
            ),
    ensures
        boundary_ring(objects, members) == Err::<Seq<Position>, Error>(Error::UnresolvedMember),
{
    lemma_absent_members(objects, members);
}

/// An area without outer members has no boundary.
pub proof fn lemma_no_outer_members_no_boundary(objects: Objects, members: Seq<Member>)
    requires
        forall|i: int| 0 <= i < members.len() ==> !is_outer_role((#[trigger] members[i]).role@),
    ensures
        boundary_ring(objects, members) == Err::<Seq<Position>, Error>(
            Error::MissingBoundaryMembers,
        ),
{
    lemma_absent_members(objects, members);
}

impl Dataset {
    /// A dataset without objects.
    pub fn new() -> (data: Self)
        ensures
            data@.nodes == Map::<i64, Position>::empty(),
            data@.ways == Map::<i64, Seq<i64>>::empty(),
    {
        let data = Dataset { nodes: HashMap::new(), ways: HashMap::new() };
        assert(data@.ways =~= Map::<i64, Seq<i64>>::empty());
        data
    }

    /// Records the node `id` at `position`, in place of any earlier node
    /// with that identifier.
    pub fn add_node(&mut self, id: i64, position: Position)
        ensures
            final(self)@.nodes == old(self)@.nodes.insert(id, position),
            final(self)@.ways == old(self)@.ways,
    {
        broadcast use group_hash_axioms;

        self.nodes.insert(id, position);
    }

    /// Records the way `id` through `nodes`, in place of any earlier way
    /// with that identifier.
    pub fn add_way(&mut self, id: i64, nodes: Vec<i64>)
        ensures
            final(self)@.nodes == old(self)@.nodes,
            final(self)@.ways == old(self)@.ways.insert(id, nodes@),
    {
        broadcast use group_hash_axioms;

        self.ways.insert(id, nodes);
        assert(self@.ways =~= old(self)@.ways.insert(id, nodes@));
    }

    /// The position of node `id`.
    pub fn node(&self, id: i64) -> (found: Option<Position>)
        ensures
            found == if self@.nodes.contains_key(id) {
                Some(self@.nodes[id])
            } else {
                None
            },
    {
        broadcast use group_hash_axioms;

        match self.nodes.get(&id) {
            Some(position) => Some(*position),
            None => None,
        }
    }

    /// The node identifiers of way `id`.
    pub fn way(&self, id: i64) -> (found: Option<&Vec<i64>>)
        ensures
            match found {
                Some(nodes) => self@.ways.contains_key(id) && self@.ways[id] == nodes@,
                None => !self@.ways.contains_key(id),
            },
    {
        broadcast use group_hash_axioms;

        self.ways.get(&id)
    }

    /// The segment that `member` stands for.
    pub fn resolve(&self, member: &Member) -> (r: Result<Line, Error>)
        ensures
            outcome(r) == resolved(self@, *member),
    {
        match member.kind {
            MemberKind::Way => {},
            _ => {
                return Err(Error::UnresolvedMember);
            },
        }
        let nodes = match self.way(member.id) {
            Some(nodes) => nodes,
            None => {
                return Err(Error::UnresolvedMember);
            },
        };
        let mut points: Vec<Position> = Vec::new();
        let mut i: usize = 0;
        while i < nodes.len()
            invariant
                i <= nodes.len(),
                member.kind == MemberKind::Way,
                self@.ways.contains_key(member.id),
                self@.ways[member.id] == nodes@,
                positions_of(self@, nodes@.take(i as int)) == Some(points@),
            decreases nodes.len() - i,
        {
            let ghost upto = nodes@.take(i as int);
            let ghost next = nodes@.take(i as int + 1);
            assert(forall|j: int| 0 <= j < i ==> next[j] == upto[j]);
            match self.node(nodes[i]) {
                Some(position) => {
                    points.push(position);
                },
                None => {
                    assert(!self@.nodes.contains_key(nodes@[i as int]));
                    assert(positions_of(self@, nodes@) is None);
                    return Err(Error::UnresolvedMember);
                },
            }
            assert(forall|j: int| 0 <= j < i ==> self@.nodes.contains_key(#[trigger] upto[j]));
            assert forall|j: int| 0 <= j < next.len() implies self@.nodes.contains_key(
                #[trigger] next[j],
            ) by {
                if j < i {
                    assert(next[j] == upto[j]);
                }
            }
            assert(points@ =~= next.map_values(|node: i64| self@.nodes[node]));
            i += 1;
        }
        assert(nodes@.take(i as int) =~= nodes@);
        Line::try_from(points)
    }
}

/// Whether a member with this role belongs to the outer boundary.
pub fn is_outer(role: &String) -> (r: bool)
    ensures
        r == is_outer_role(role@),
{
    let outer = "outer".to_owned();
    *role == outer
}

/// Builds the outer ring of `area` from the objects in `data`.
///
/// Members with another role than `outer` are passed over, inner rings
/// included. The first outer member that cannot be resolved to a segment
/// fails the area. The segments are assembled into one ring, which then is
/// made to respect the right-hand rule.
pub fn as_polygon(area: &Area, data: &Dataset) -> (r: Result<Line, Error>)
    ensures
        outcome(r) == boundary_ring(data@, area.members@),
{
    let ghost members = area.members@;
    let mut lines: Vec<Line> = Vec::new();
    let mut i: usize = 0;
    assert(paths(lines@) =~= Seq::<Seq<Position>>::empty());
    assert(members.take(0).len() == 0);
    while i < area.members.len()
        invariant
            i <= area.members.len(),
            members == area.members@,
            outer_segments(data@, members.take(i as int)) == Ok::<Seq<Seq<Position>>, Error>(
                paths(lines@),
            ),
        decreases area.members.len() - i,
    {
        assert(members.take(i as int + 1).drop_last() =~= members.take(i as int));
        if is_outer(&area.members[i].role) {
            match data.resolve(&area.members[i]) {
                Ok(line) => {
                    let ghost before = paths(lines@);
                    lines.push(line);
                    assert(paths(lines@) =~= before.push(line@));
                },
                Err(e) => {
                    proof {
                        lemma_failure_is_final(data@, members, i as int + 1, e);
                    }
                    return Err(e);
                },
            }
        }
        i += 1;
    }
    assert(members.take(i as int) =~= members);
    match create_continuous_linering(lines.as_slice()) {
        Ok(mut ring) => {
            normalize(&mut ring);
            Ok(ring)
        },
        Err(e) => Err(e),
    }
}

/// Builds the outer ring of every area in `areas`.
///
/// Each area has its own outcome, in the place of the area: the failure of
/// one area leaves the outcomes of all others as they are.
pub fn polygons(areas: &[Area], data: &Dataset) -> (outcomes: Vec<Result<Line, Error>>)
    ensures
        outcomes@.len() == areas@.len(),
        forall|i: int|
            0 <= i < areas@.len() ==> outcome(#[trigger] outcomes@[i]) == boundary_ring(
                data@,
                areas@[i].members@,
            ),
{
    let mut outcomes: Vec<Result<Line, Error>> = Vec::new();
    let mut i: usize = 0;
    while i < areas.len()
        invariant
            i <= areas.len(),
            outcomes@.len() == i,
            forall|j: int|
                0 <= j < i ==> outcome(#[trigger] outcomes@[j]) == boundary_ring(
                    data@,
                    areas@[j].members@,
                ),
        decreases areas.len() - i,
    {
        let r = as_polygon(&areas[i], data);
        outcomes.push(r);
        i += 1;
    }
    outcomes
}

} // verus!
