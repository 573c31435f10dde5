use vstd::prelude::*;
use crate::error::Error;
use crate::line::{copy_of, splice, spliced, Line};
use crate::multimap::{
    least_under, lemma_least_under_is_registered, lemma_without_is_shorter,
    lemma_without_keeps_others, with_entry, without, MultiMap,
};
use crate::orientation::{normalized, signed_area};
use crate::exact::Exact;
use crate::position::Position;

verus! {

/// The position sequences of `lines`, in the same order.
pub open spec fn paths(lines: Seq<Line>) -> Seq<Seq<Position>> {
    lines.map_values(|line: Line| line@)
}

/// What the endpoint index holds for the segment with number `id`: its start
/// and its end, or one registration only where the segment closes on itself.
pub open spec fn endpoints_of(segment: Seq<Position>, id: usize) -> Seq<(Position, usize)> {
    if segment.first() == segment.last() {
        seq![(segment.first(), id)]
    } else {
        seq![(segment.first(), id), (segment.last(), id)]
    }
}

/// The endpoint index of the segments with the numbers from 1 up to, but
/// without, `count`. Segment 0 seeds the ring and is never registered.
pub open spec fn endpoint_index(segments: Seq<Seq<Position>>, count: nat) -> Seq<
    (Position, usize),
>
    decreases count,
{
    if count <= 1 {
        Seq::empty()
    } else {
        endpoint_index(segments, (count - 1) as nat) + endpoints_of(
            segments[count - 1],
            (count - 1) as usize,
        )
    }
}

/// The outcome of extending `ring` until `index` is used up.
///
/// Each step takes the least segment number that is live at the ring's end out of
/// the index and splices its segment onto the ring. Once nothing is live the
/// ring must end where it starts.
pub open spec fn continued(
    segments: Seq<Seq<Position>>,
    ring: Seq<Position>,
    index: Seq<(Position, usize)>,
) -> Result<Seq<Position>, Error>
    decreases index.len(),
{
    if index.len() == 0 {
        if ring.first() == ring.last() {
            Ok(ring)
        } else {
            Err(Error::UnclosedRing)
        }
    } else {
        match least_under(index, ring.last()) {
            None => Err(Error::NoMatchingSegment),
            Some(id) => match spliced(ring, segments[id as int]) {
                None => Err(Error::NonContinuousPath),
                Some(longer) => {
                    proof {
                        lemma_least_under_is_registered(index, ring.last());
                        let at = index.index_of((ring.last(), id));
                        lemma_without_is_shorter(index, id, at);
                    }
                    continued(segments, longer, without(index, id))
                },
            },
        }
    }
}

/// The ring that `segments` assemble to, or the reason why they do not.
///
/// The first segment seeds the ring; all others are registered in the
/// endpoint index and spliced on one by one.
pub open spec fn assembled(segments: Seq<Seq<Position>>) -> Result<Seq<Position>, Error> {
    if segments.len() == 0 {
        Err(Error::MissingBoundaryMembers)
    } else {
        continued(segments, segments[0], endpoint_index(segments, segments.len()))
    }
}

/// The model of an assembly's outcome.
pub open spec fn outcome(r: Result<Line, Error>) -> Result<Seq<Position>, Error> {
    match r {
        Ok(ring) => Ok(ring@),
        Err(e) => Err(e),
    }
}

/// Creates one continuous closed ring from `linestrings`, which may come in
/// any order and direction.
pub fn create_continuous_linering(linestrings: &[Line]) -> (r: Result<Line, Error>)
    ensures
        outcome(r) == assembled(paths(linestrings@)),
{
    let n: usize = linestrings.len();
    if n == 0 {
        return Err(Error::MissingBoundaryMembers);
    }
    let ghost segments = paths(linestrings@);
    let mut endpoints: MultiMap<Position, usize> = MultiMap::new();
    let mut i: usize = 1;
    while i < n
        invariant
            1 <= i <= n,
            n == linestrings@.len(),
            segments == paths(linestrings@),
            endpoints@ == endpoint_index(segments, i as nat),
            forall|j: int| 0 <= j < endpoints@.len() ==> (#[trigger] endpoints@[j]).1 < i,
        decreases n - i,
    {
        let start = *linestrings[i].start();
        let end = *linestrings[i].end();
        let ghost before = endpoints@;
        assert(!before.contains((start, i)));
        endpoints.insert(start, i);
        assert(!before.push((start, i)).contains((end, i)) <==> start != end) by {
            if start == end {
                assert(before.push((start, i))[before.len() as int] == (end, i));
            }
        }
        endpoints.insert(end, i);
        assert(endpoints@ =~= before + endpoints_of(segments[i as int], i));
        i += 1;
    }
    let mut ring: Vec<Position> = copy_of(linestrings[0].points());
    while !endpoints.is_empty()
        invariant
            n == linestrings@.len(),
            segments == paths(linestrings@),
            ring@.len() >= 2,
            forall|j: int| 0 <= j < endpoints@.len() ==> (#[trigger] endpoints@[j]).1 < n,
            continued(segments, ring@, endpoints@) == assembled(segments),
        decreases endpoints@.len(),
    {
        let ghost index = endpoints@;
        let next_index = match endpoints.consume_one(&ring[ring.len() - 1]) {
            Some(id) => id,
            None => {
                return Err(Error::NoMatchingSegment);
            },
        };
        proof {
            lemma_least_under_is_registered(index, ring@.last());
            let at = index.index_of((ring@.last(), next_index));
            lemma_without_is_shorter(index, next_index, at);
            lemma_without_keeps_others(index, next_index);
        }
        match splice(&mut ring, &linestrings[next_index]) {
            Ok(()) => {},
            Err(e) => {
                return Err(e);
            },
        }
    }
    if !ring[0].same(&ring[ring.len() - 1]) {
        return Err(Error::UnclosedRing);
    }
    Ok(Line::from_points(ring))
}

/// Whether `ring` is wound clockwise: whether its signed area is positive.
pub fn is_clockwise(ring: &Line) -> (r: bool)
    ensures
        r == (signed_area(ring@) > 0),
{
    crate::orientation::is_clockwise(ring.points().as_slice())
}

/// Makes `ring` respect the right-hand rule: a ring wound clockwise is turned
/// around, any other is left as it is.
pub fn normalize(ring: &mut Line)
    ensures
        final(ring)@ == normalized(old(ring)@),
{
    if is_clockwise(ring) {
        ring.reverse();
    }
}

} // verus!
