//! What holds of every assembly, proved from the definition of
//! [`assembled`](crate::ring::assembled).

use vstd::prelude::*;
use crate::error::Error;
use crate::line::spliced;
use crate::multimap::{
    least_under, lemma_least_under_is_registered, lemma_least_under_is_unique,
    lemma_least_under_none, lemma_without_concat, lemma_without_empty, lemma_without_is_shorter,
    lemma_without_members, lemma_without_single, without,
};
use crate::position::Position;
use crate::ring::{assembled, continued, endpoint_index, endpoints_of};

verus! {

/// The number of positions in all of `segments` together.
pub open spec fn total_points(segments: Seq<Seq<Position>>) -> int
    decreases segments.len(),
{
    if segments.len() == 0 {
        0
    } else {
        total_points(segments.drop_last()) + segments.last().len()
    }
}

/// The numbers of the segments that extending `ring` takes out of `index`,
/// in the order in which it takes them.
pub open spec fn consumed(
    segments: Seq<Seq<Position>>,
    ring: Seq<Position>,
    index: Seq<(Position, usize)>,
) -> Seq<usize>
    decreases index.len(),
{
    if index.len() == 0 {
        Seq::empty()
    } else {
        match least_under(index, ring.last()) {
            None => Seq::empty(),
            Some(id) => match spliced(ring, segments[id as int]) {
                None => seq![id],
                Some(longer) => {
                    proof {
                        lemma_least_under_is_registered(index, ring.last());
                        let at = index.index_of((ring.last(), id));
                        lemma_without_is_shorter(index, id, at);
                    }
                    seq![id] + consumed(segments, longer, without(index, id))
                },
            },
        }
    }
}

/// The numbers of the segments that an assembly of `segments` consumes, in
/// order: the seed first, then every segment taken out of the endpoint
/// index.
pub open spec fn consumption_order(segments: Seq<Seq<Position>>) -> Seq<usize> {
    if segments.len() == 0 {
        Seq::empty()
    } else {
        seq![0usize] + consumed(segments, segments[0], endpoint_index(segments, segments.len()))
    }
}

/// Whether every segment holds at least two positions, and their number
/// fits a machine word.
pub open spec fn are_segments(segments: Seq<Seq<Position>>) -> bool {
    &&& segments.len() <= usize::MAX
    &&& forall|i: int| 0 <= i < segments.len() ==> (#[trigger] segments[i]).len() >= 2
}

/// The endpoint index of the segments numbered from 1 up to `count` from
/// which the segments in `gone` have been withdrawn.
spec fn live_index(segments: Seq<Seq<Position>>, count: nat, gone: Set<usize>) -> Seq<
    (Position, usize),
>
    decreases count,
{
    if count <= 1 {
        Seq::empty()
    } else {
        live_index(segments, (count - 1) as nat, gone) + live_entries(
            segments,
            count - 1,
            gone,
        )
    }
}

/// What the index holds for segment `i`, unless it is gone.
spec fn live_entries(segments: Seq<Seq<Position>>, i: int, gone: Set<usize>) -> Seq<
    (Position, usize),
> {
    if gone.contains(i as usize) {
        Seq::empty()
    } else {
        endpoints_of(segments[i], i as usize)
    }
}

/// The positions that the live segments numbered from 1 up to `count` still
/// add to a ring: each adds all of its positions but the shared one.
spec fn live_points(segments: Seq<Seq<Position>>, count: nat, gone: Set<usize>) -> int
    decreases count,
{
    if count <= 1 {
        0
    } else {
        live_points(segments, (count - 1) as nat, gone) + if gone.contains((count - 1) as usize) {
            0
        } else {
            segments[count - 1].len() - 1
        }
    }
}

/// The number of live segments among those numbered from 1 up to `count`.
spec fn live_count(count: nat, gone: Set<usize>) -> int
    decreases count,
{
    if count <= 1 {
        0
    } else {
        live_count((count - 1) as nat, gone) + if gone.contains((count - 1) as usize) {
            0int
        } else {
            1int
        }
    }
}

proof fn lemma_nothing_gone(segments: Seq<Seq<Position>>, count: nat)
    ensures
        live_index(segments, count, Set::empty()) == endpoint_index(segments, count),
        live_count(count, Set::empty()) == if count <= 1 {
            0
        } else {
            count - 1
        },
    decreases count,
{
    if count > 1 {
        lemma_nothing_gone(segments, (count - 1) as nat);
    }
}

proof fn lemma_all_points_live(segments: Seq<Seq<Position>>, count: nat)
    requires
        1 <= count <= segments.len(),
    ensures
        live_points(segments, count, Set::empty()) == total_points(segments.take(count as int))
            - segments[0].len() - (count - 1),
    decreases count,
{
    let upto = segments.take(count as int);
    assert(upto.drop_last() =~= segments.take(count - 1));
    assert(upto.last() == segments[count - 1]);
    if count > 1 {
        lemma_all_points_live(segments, (count - 1) as nat);
    } else {
        assert(total_points(upto.drop_last()) == 0);
    }
}

proof fn lemma_without_endpoints(segment: Seq<Position>, id: usize, value: usize)
    ensures
        without(endpoints_of(segment, id), value) == if id == value {
            Seq::<(Position, usize)>::empty()
        } else {
            endpoints_of(segment, id)
        },
{
    let a = (segment.first(), id);
    let b = (segment.last(), id);
    lemma_without_single(a, value);
    lemma_without_single(b, value);
    if segment.first() != segment.last() {
        assert(seq![a, b] =~= seq![a] + seq![b]);
        lemma_without_concat(seq![a], seq![b], value);
        if id == value {
            assert(without(seq![a], value) + without(seq![b], value) =~= Seq::<
                (Position, usize),
            >::empty());
        }
    }
}

proof fn lemma_withdrawal(segments: Seq<Seq<Position>>, count: nat, gone: Set<usize>, id: usize)
    requires
        count <= usize::MAX + 1,
    ensures
        without(live_index(segments, count, gone), id) == live_index(
            segments,
            count,
            gone.insert(id),
        ),
        live_points(segments, count, gone.insert(id)) == live_points(segments, count, gone) - if 1
            <= id < count && !gone.contains(id) {
            segments[id as int].len() - 1
        } else {
            0
        },
        live_count(count, gone.insert(id)) == live_count(count, gone) - if 1 <= id < count
            && !gone.contains(id) {
            1int
        } else {
            0int
        },
    decreases count,
{
    lemma_without_empty::<Position, usize>(id);
    if count > 1 {
        let i = count - 1;
        let front = live_index(segments, (count - 1) as nat, gone);
        let here = live_entries(segments, i, gone);
        lemma_withdrawal(segments, (count - 1) as nat, gone, id);
        lemma_without_concat(front, here, id);
        lemma_without_endpoints(segments[i], i as usize, id);
        assert(without(here, id) == live_entries(segments, i, gone.insert(id)));
    }
}

proof fn lemma_live_members(segments: Seq<Seq<Position>>, count: nat, gone: Set<usize>, j: int)
    requires
        count <= usize::MAX + 1,
        0 <= j < live_index(segments, count, gone).len(),
    ensures
        ({
            let (p, id) = live_index(segments, count, gone)[j];
            &&& 1 <= id < count
            &&& !gone.contains(id)
            &&& p == segments[id as int].first() || p == segments[id as int].last()
        }),
    decreases count,
{
    if count > 1 {
        let front = live_index(segments, (count - 1) as nat, gone);
        if j < front.len() {
            lemma_live_members(segments, (count - 1) as nat, gone, j);
        }
    }
}

proof fn lemma_nothing_live(segments: Seq<Seq<Position>>, count: nat, gone: Set<usize>)
    requires
        live_index(segments, count, gone).len() == 0,
    ensures
        live_points(segments, count, gone) == 0,
        live_count(count, gone) == 0,
    decreases count,
{
    if count > 1 {
        lemma_nothing_live(segments, (count - 1) as nat, gone);
    }
}

proof fn lemma_no_duplicates_with_new_first(first: usize, rest: Seq<usize>)
    requires
        rest.no_duplicates(),
        forall|j: int| 0 <= j < rest.len() ==> rest[j] != first,
    ensures
        (seq![first] + rest).no_duplicates(),
{
    let all = seq![first] + rest;
    assert forall|i: int, j: int| 0 <= i < all.len() && 0 <= j < all.len() && i != j implies all[i]
        != all[j] by {
        if i > 0 {
            assert(all[i] == rest[i - 1]);
        }
        if j > 0 {
            assert(all[j] == rest[j - 1]);
        }
    }
}

/// What holds while a ring is extended from an index that is the full index
/// without the segments in `gone`.
proof fn lemma_extension(segments: Seq<Seq<Position>>, ring: Seq<Position>, gone: Set<usize>)
    requires
        are_segments(segments),
        ring.len() >= 1,
    ensures
        ({
            let index = live_index(segments, segments.len(), gone);
            let order = consumed(segments, ring, index);
            &&& order.no_duplicates()
            &&& forall|j: int|
                0 <= j < order.len() ==> 1 <= #[trigger] order[j] < segments.len()
                    && !gone.contains(order[j])
            &&& continued(segments, ring, index) != Err::<Seq<Position>, Error>(
                Error::NonContinuousPath,
            )
            &&& match continued(segments, ring, index) {
                Ok(closed) => {
                    &&& closed.len() == ring.len() + live_points(segments, segments.len(), gone)
                    &&& closed.first() == closed.last()
                    &&& order.len() == live_count(segments.len(), gone)
                },
                Err(_) => true,
            }
        }),
    decreases live_index(segments, segments.len(), gone).len(),
{
    let n = segments.len();
    let index = live_index(segments, n, gone);
    if index.len() == 0 {
        lemma_nothing_live(segments, n, gone);
    } else {
        match least_under(index, ring.last()) {
            None => {},
            Some(id) => {
                lemma_least_under_is_registered(index, ring.last());
                let at = index.index_of((ring.last(), id));
                lemma_live_members(segments, n, gone, at);
                lemma_without_is_shorter(index, id, at);
                lemma_withdrawal(segments, n, gone, id);
                let segment = segments[id as int];
                let longer = spliced(ring, segment)->0;
                assert(spliced(ring, segment) is Some);
                assert(longer.len() == ring.len() + segment.len() - 1);
                lemma_extension(segments, longer, gone.insert(id));
                let rest = consumed(segments, longer, without(index, id));
                assert forall|j: int| 0 <= j < rest.len() implies rest[j] != id by {
                    assert(gone.insert(id).contains(id));
                }
                lemma_no_duplicates_with_new_first(id, rest);
                let order = seq![id] + rest;
                assert forall|j: int| 0 <= j < order.len() implies 1 <= #[trigger] order[j] < n
                    && !gone.contains(order[j]) by {
                    if j > 0 {
                        assert(order[j] == rest[j - 1]);
                        assert(!gone.insert(id).contains(rest[j - 1]));
                    }
                }
            },
        }
    }
}

/// A ring that was assembled is closed, and it has as many positions as all
/// segments hold together, less one for each joint between two segments,
/// where the shared endpoint counts once.
pub proof fn lemma_ring_is_closed_and_complete(segments: Seq<Seq<Position>>, ring: Seq<Position>)
    requires
        are_segments(segments),
        assembled(segments) == Ok::<Seq<Position>, Error>(ring),
    ensures
        ring.first() == ring.last(),
        ring.len() == total_points(segments) - (segments.len() - 1),
{
    let n = segments.len();
    lemma_nothing_gone(segments, n);
    lemma_all_points_live(segments, n);
    assert(segments.take(n as int) =~= segments);
    lemma_extension(segments, segments[0], Set::empty());
}

/// No assembly consumes a segment twice, however many segments meet in one
/// point, and it consumes no segment that is not there.
pub proof fn lemma_no_segment_is_consumed_twice(segments: Seq<Seq<Position>>)
    requires
        are_segments(segments),
    ensures
        consumption_order(segments).no_duplicates(),
        forall|j: int|
            0 <= j < consumption_order(segments).len() ==> #[trigger] consumption_order(
                segments,
            )[j] < segments.len(),
{
    let n = segments.len();
    if n > 0 {
        lemma_nothing_gone(segments, n);
        lemma_extension(segments, segments[0], Set::empty());
        let rest = consumed(segments, segments[0], endpoint_index(segments, n));
        lemma_no_duplicates_with_new_first(0, rest);
        let order = consumption_order(segments);
        assert forall|j: int| 0 <= j < order.len() implies #[trigger] order[j] < n by {
            if j > 0 {
                assert(order[j] == rest[j - 1]);
            }
        }
    }
}

/// An assembly that succeeds has consumed every segment exactly once: its
/// consumption order is as long as the input and holds no number twice.
pub proof fn lemma_success_consumes_every_segment_once(segments: Seq<Seq<Position>>)
    requires
        are_segments(segments),
        assembled(segments) is Ok,
    ensures
        consumption_order(segments).len() == segments.len(),
        consumption_order(segments).no_duplicates(),
        forall|id: usize| id < segments.len() ==> consumption_order(segments).contains(id),
{
    let n = segments.len();
    let order = consumption_order(segments);
    lemma_no_segment_is_consumed_twice(segments);
    lemma_nothing_gone(segments, n);
    lemma_extension(segments, segments[0], Set::empty());
    assert(order.len() == n);
    lemma_distinct_numbers_cover_the_range(order, n);
}

/// As many distinct numbers below `n` as there are numbers below `n` are
/// all of them.
proof fn lemma_distinct_numbers_cover_the_range(order: Seq<usize>, n: nat)
    requires
        order.len() == n,
        order.no_duplicates(),
        forall|j: int| 0 <= j < order.len() ==> order[j] < n,
    ensures
        forall|id: usize| id < n ==> order.contains(id),
{
    let ints = order.map_values(|id: usize| id as int);
    let range = vstd::set_lib::set_int_range(0, n as int);
    assert(ints.no_duplicates()) by {
        assert forall|i: int, j: int|
            0 <= i < ints.len() && 0 <= j < ints.len() && i != j implies ints[i] != ints[j] by {
            assert(order[i] != order[j]);
        }
    }
    ints.unique_seq_to_set();
    vstd::set_lib::lemma_int_range(0, n as int);
    assert(ints.to_set().subset_of(range)) by {
        assert forall|i: int| ints.to_set().contains(i) implies range.contains(i) by {
            assert(ints.contains(i));
            let j = choose|j: int| 0 <= j < ints.len() && ints[j] == i;
            assert(order[j] < n);
        }
    }
    vstd::set_lib::lemma_len_subset(ints.to_set(), range);
    vstd::set_lib::lemma_subset_equality(ints.to_set(), range);
    assert forall|id: usize| id < n implies order.contains(id) by {
        assert(range.contains(id as int));
        assert(ints.to_set().contains(id as int));
        assert(ints.contains(id as int));
        let j = choose|j: int| 0 <= j < ints.len() && ints[j] == id as int;
        assert(order[j] == id);
    }
}

/// The defensive failure does not occur: a segment found in the endpoint
/// index at the ring's end does share that endpoint.
pub proof fn lemma_path_is_always_continuous(segments: Seq<Seq<Position>>)
    requires
        are_segments(segments),
    ensures
        assembled(segments) != Err::<Seq<Position>, Error>(Error::NonContinuousPath),
{
    let n = segments.len();
    if n > 0 {
        lemma_nothing_gone(segments, n);
        lemma_extension(segments, segments[0], Set::empty());
    }
}

/// Whether `segment` starts or ends in `p`.
pub open spec fn touches(segment: Seq<Position>, p: Position) -> bool {
    segment.first() == p || segment.last() == p
}

/// Whether `segment` runs from `from` to `to`, in one direction or the
/// other.
pub open spec fn joins(segment: Seq<Position>, from: Position, to: Position) -> bool {
    ||| segment.first() == from && segment.last() == to
    ||| segment.first() == to && segment.last() == from
}

/// The junction after junction `k` on the way round.
pub open spec fn next_junction(junctions: Seq<Position>, k: int) -> Position {
    if k + 1 == junctions.len() {
        junctions[0]
    } else {
        junctions[k + 1]
    }
}

/// Whether `segments` factor into exactly one ring: taken in the order
/// `order`, which starts with segment 0 and names every segment once, they
/// lead from each of the pairwise distinct `junctions` to the next and from
/// the last back to the first. Only segment 0, the seed, has its direction
/// fixed: it starts at the first junction.
pub open spec fn forms_one_ring(
    segments: Seq<Seq<Position>>,
    order: Seq<usize>,
    junctions: Seq<Position>,
) -> bool {
    &&& segments.len() > 0
    &&& order.len() == segments.len()
    &&& junctions.len() == segments.len()
    &&& order.no_duplicates()
    &&& junctions.no_duplicates()
    &&& order[0] == 0
    &&& segments[0].first() == junctions[0]
    &&& forall|k: int| 0 <= k < order.len() ==> #[trigger] order[k] < segments.len()
    &&& forall|k: int|
        0 <= k < order.len() ==> joins(
            segments[(#[trigger] order[k]) as int],
            junctions[k],
            next_junction(junctions, k),
        )
}

/// Whether the segment `id` is still to come from place `k` of `order` on,
/// and touches `p`.
spec fn awaits(
    segments: Seq<Seq<Position>>,
    order: Seq<usize>,
    k: int,
    p: Position,
    id: usize,
) -> bool {
    exists|j: int|
        k <= j < order.len() && #[trigger] order[j] == id && touches(segments[id as int], p)
}

proof fn lemma_endpoints_are_registered(segments: Seq<Seq<Position>>, count: nat, id: usize)
    requires
        1 <= id < count <= usize::MAX + 1,
    ensures
        endpoint_index(segments, count).contains((segments[id as int].first(), id)),
        endpoint_index(segments, count).contains((segments[id as int].last(), id)),
    decreases count,
{
    let front = endpoint_index(segments, (count - 1) as nat);
    let here = endpoints_of(segments[count - 1], (count - 1) as usize);
    let all = endpoint_index(segments, count);
    if id == count - 1 {
        assert(all[front.len() as int] == here[0]);
        assert(all[front.len() + here.len() - 1] == here[here.len() - 1]);
    } else {
        lemma_endpoints_are_registered(segments, (count - 1) as nat, id);
        let a = front.index_of((segments[id as int].first(), id));
        let b = front.index_of((segments[id as int].last(), id));
        assert(all[a] == front[a]);
        assert(all[b] == front[b]);
    }
}

proof fn lemma_way_round(
    segments: Seq<Seq<Position>>,
    order: Seq<usize>,
    junctions: Seq<Position>,
    k: int,
    ring: Seq<Position>,
    index: Seq<(Position, usize)>,
)
    requires
        are_segments(segments),
        forms_one_ring(segments, order, junctions),
        1 <= k <= segments.len(),
        ring.len() >= 1,
        ring.first() == junctions[0],
        ring.last() == next_junction(junctions, k - 1),
        forall|e: (Position, usize)| #[trigger]
            index.contains(e) <==> awaits(segments, order, k, e.0, e.1),
    ensures
        continued(segments, ring, index) is Ok,
    decreases segments.len() - k,
{
    let n = segments.len() as int;
    if k == n {
        if index.len() > 0 {
            assert(index.contains(index[0]));
            assert(awaits(segments, order, k, index[0].0, index[0].1));
        }
    } else {
        let here = junctions[k];
        let due = order[k];
        assert(joins(segments[due as int], here, next_junction(junctions, k)));
        assert(awaits(segments, order, k, here, due));
        assert(index.contains((here, due)));
        lemma_least_under_none(index, here);
        let at = index.index_of((here, due));
        assert(index[at].0 == here);
        let id = least_under(index, here)->0;
        lemma_least_under_is_registered(index, here);
        assert(awaits(segments, order, k, here, id));
        let j = choose|j: int|
            k <= j < order.len() && #[trigger] order[j] == id && touches(
                segments[id as int],
                here,
            );
        assert(joins(segments[order[j] as int], junctions[j], next_junction(junctions, j)));
        assert(j == k);
        let segment = segments[id as int];
        assert(segment.len() >= 2);
        let longer = spliced(ring, segment)->0;
        assert(longer.first() == ring.first());
        assert(longer.last() == next_junction(junctions, k)) by {
            if segment.first() == ring.last() {
                assert(longer == ring + segment.skip(1));
                assert(longer.last() == segment.skip(1).last());
            } else {
                assert(longer == ring + segment.drop_last().reverse());
                assert(longer.last() == segment.drop_last().reverse().last());
            }
        }
        let rest = without(index, id);
        assert forall|e: (Position, usize)| #[trigger]
            rest.contains(e) <==> awaits(segments, order, k + 1, e.0, e.1) by {
            lemma_without_members(index, id, e);
            if rest.contains(e) {
                assert(awaits(segments, order, k, e.0, e.1));
                let i = choose|i: int|
                    k <= i < order.len() && #[trigger] order[i] == e.1 && touches(
                        segments[e.1 as int],
                        e.0,
                    );
                assert(i != k);
            }
            if awaits(segments, order, k + 1, e.0, e.1) {
                let i = choose|i: int|
                    k + 1 <= i < order.len() && #[trigger] order[i] == e.1 && touches(
                        segments[e.1 as int],
                        e.0,
                    );
                assert(order[i] != order[k]);
                assert(awaits(segments, order, k, e.0, e.1));
            }
        }
        lemma_least_under_is_registered(index, ring.last());
        lemma_without_is_shorter(index, id, index.index_of((ring.last(), id)));
        lemma_way_round(segments, order, junctions, k + 1, longer, rest);
    }
}

/// Segments that factor into exactly one ring are assembled: whatever their
/// order and their directions, the assembly succeeds.
pub proof fn lemma_one_ring_is_assembled(
    segments: Seq<Seq<Position>>,
    order: Seq<usize>,
    junctions: Seq<Position>,
)
    requires
        are_segments(segments),
        forms_one_ring(segments, order, junctions),
    ensures
        assembled(segments) is Ok,
{
    let n = segments.len();
    let index = endpoint_index(segments, n);
    assert(joins(segments[order[0] as int], junctions[0], next_junction(junctions, 0)));
    lemma_distinct_numbers_cover_the_range(order, n);
    lemma_nothing_gone(segments, n);
    assert forall|e: (Position, usize)| #[trigger]
        index.contains(e) <==> awaits(segments, order, 1, e.0, e.1) by {
        if index.contains(e) {
            lemma_live_members(segments, n, Set::empty(), index.index_of(e));
            assert(order.contains(e.1));
            let j = order.index_of(e.1);
            assert(order[j] == e.1);
            assert(j != 0);
        }
        if awaits(segments, order, 1, e.0, e.1) {
            let j = choose|j: int|
                1 <= j < order.len() && #[trigger] order[j] == e.1 && touches(
                    segments[e.1 as int],
                    e.0,
                );
            assert(order[j] != order[0]);
            lemma_endpoints_are_registered(segments, n, e.1);
        }
    }
    lemma_way_round(segments, order, junctions, 1, segments[0], index);
}

/// A single segment is assembled without a look into the endpoint index:
/// one that closes on itself is the ring, unchanged, and any other is no
/// ring.
pub proof fn lemma_single_segment_is_its_own_ring(segment: Seq<Position>)
    ensures
        assembled(seq![segment]) == if segment.first() == segment.last() {
            Ok::<Seq<Position>, Error>(segment)
        } else {
            Err::<Seq<Position>, Error>(Error::UnclosedRing)
        },
        consumption_order(seq![segment]) == seq![0usize],
{
    let segments = seq![segment];
    assert(endpoint_index(segments, 1).len() == 0);
    assert(consumption_order(segments) =~= seq![0usize]);
}

/// Two segments without a shared endpoint do not match.
pub proof fn lemma_strangers_do_not_match(first: Seq<Position>, second: Seq<Position>)
    requires
        !touches(second, first.first()),
        !touches(second, first.last()),
    ensures
        assembled(seq![first, second]) == Err::<Seq<Position>, Error>(Error::NoMatchingSegment),
{
    let segments = seq![first, second];
    let index = endpoint_index(segments, 2);
    assert(endpoint_index(segments, 1).len() == 0);
    assert(index =~= endpoints_of(second, 1));
    assert(index.len() > 0);
    lemma_least_under_none(index, first.last());
}

/// Two segments of which the second touches the end of the first are
/// assembled by one splice: the result is the spliced ring where that is
/// closed, and no ring where it is not.
pub proof fn lemma_pair_is_one_splice(first: Seq<Position>, second: Seq<Position>)
    requires
        touches(second, first.last()),
    ensures
        spliced(first, second) is Some,
        assembled(seq![first, second]) == if spliced(first, second)->0.first() == spliced(
            first,
            second,
        )->0.last() {
            Ok::<Seq<Position>, Error>(spliced(first, second)->0)
        } else {
            Err::<Seq<Position>, Error>(Error::UnclosedRing)
        },
{
    let segments = seq![first, second];
    let index = endpoint_index(segments, 2);
    let end = first.last();
    assert(endpoint_index(segments, 1).len() == 0);
    assert(index =~= endpoints_of(second, 1));
    if second.first() == end {
        assert(index[0] == (end, 1usize));
    } else {
        assert(index[1] == (end, 1usize));
    }
    lemma_least_under_is_unique(index, end, 1usize);
    assert(least_under(index, end) == Some(1usize));
    assert(segments[1] == second);
    let longer = spliced(first, second)->0;
    lemma_without_endpoints(second, 1, 1);
    let rest = without(index, 1);
    assert(rest.len() == 0);
    assert(continued(segments, longer, rest) == if longer.first() == longer.last() {
        Ok::<Seq<Position>, Error>(longer)
    } else {
        Err::<Seq<Position>, Error>(Error::UnclosedRing)
    });
    assert(continued(segments, first, index) == continued(segments, longer, rest));
}

/// A segment and the same segment walked back, or given a second time,
/// assemble to the way there and back.
pub proof fn lemma_there_and_back(p: Position, q: Position)
    ensures
        assembled(seq![seq![p, q], seq![q, p]]) == Ok::<Seq<Position>, Error>(seq![p, q, p]),
        assembled(seq![seq![p, q], seq![p, q]]) == Ok::<Seq<Position>, Error>(seq![p, q, p]),
{
    let there = seq![p, q];
    let back = seq![q, p];
    lemma_pair_is_one_splice(there, back);
    assert(there + back.skip(1) =~= seq![p, q, p]);
    lemma_pair_is_one_splice(there, there);
    assert(there + there.drop_last().reverse() =~= seq![p, q, p]);
    if p == q {
        assert(there + there.skip(1) =~= seq![p, q, p]);
    }
}

} // verus!
