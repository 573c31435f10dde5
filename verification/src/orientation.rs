use vstd::prelude::*;
use crate::position::Position;

verus! {

/// The shoelace term of the edge from `cur` to `next`.
pub open spec fn edge_term(cur: Position, next: Position) -> int {
    (next.x - cur.x) * (next.y + cur.y)
}

/// The sum of the shoelace terms of the edges between neighbours in `path`.
pub open spec fn path_sum(path: Seq<Position>) -> int
    decreases path.len(),
{
    if path.len() < 2 {
        0
    } else {
        path_sum(path.drop_last()) + edge_term(path[path.len() - 2], path.last())
    }
}

/// The signed area under `ring`, taken as a cycle: the edge from its last
/// position back to its first counts too. It is twice the enclosed area,
/// positive for a clockwise ring.
pub open spec fn signed_area(ring: Seq<Position>) -> int {
    if ring.len() == 0 {
        0
    } else {
        path_sum(ring) + edge_term(ring.last(), ring.first())
    }
}

/// The ring as the right-hand rule wants it: turned around if it is wound
/// clockwise, untouched otherwise. A ring of signed area zero counts as not
/// clockwise.
pub open spec fn normalized(ring: Seq<Position>) -> Seq<Position> {
    if signed_area(ring) > 0 {
        ring.reverse()
    } else {
        ring
    }
}

/// The shoelace term of one edge, which fits below 2^64 in size.
fn edge(cur: Position, next: Position) -> (t: i128)
    ensures
        t == edge_term(cur, next),
        -0xffff_ffff_0000_0000 <= t <= 0xffff_ffff_0000_0000,
{
    let dx: i64 = next.x as i64 - cur.x as i64;
    let sy: i64 = next.y as i64 + cur.y as i64;
    assert(-0xffff_ffff_0000_0000 <= dx * sy <= 0xffff_ffff_0000_0000) by (nonlinear_arith)
        requires
            -0xffff_ffff <= dx <= 0xffff_ffff,
            -0x1_0000_0000 <= sy <= 0x1_0000_0000,
    ;
    (dx as i128) * (sy as i128)
}

/// Whether `ring` is wound clockwise: whether its signed area is positive.
pub fn is_clockwise(ring: &[Position]) -> (r: bool)
    ensures
        r == (signed_area(ring@) > 0),
{
    let n: usize = ring.len();
    if n == 0 {
        return false;
    }
    // Positive and negative terms are summed apart: each sum stays below
    // 2^128 however long the ring is.
    let mut rising: u128 = 0;
    let mut falling: u128 = 0;
    let mut i: usize = 1;
    assert(ring@.take(1).len() < 2);
    while i < n
        invariant
            1 <= i <= n,
            n == ring@.len(),
            rising <= (i - 1) * 0xffff_ffff_0000_0000,
            falling <= (i - 1) * 0xffff_ffff_0000_0000,
            rising - falling == path_sum(ring@.take(i as int)),
        decreases n - i,
    {
        let t: i128 = edge(ring[i - 1], ring[i]);
        proof {
            let longer = ring@.take(i as int + 1);
            assert(longer.drop_last() =~= ring@.take(i as int));
            assert(longer[longer.len() - 2] == ring@[i - 1]);
            assert(longer.last() == ring@[i as int]);
        }
        if t > 0 {
            rising = rising + t as u128;
        } else {
            falling = falling + (-t) as u128;
        }
        i += 1;
    }
    assert(ring@.take(n as int) =~= ring@);
    let t: i128 = edge(ring[n - 1], ring[0]);
    if t > 0 {
        rising = rising + t as u128;
    } else {
        falling = falling + (-t) as u128;
    }
    rising > falling
}

/// An edge walked backwards has the opposite shoelace term.
pub proof fn lemma_edge_term_reversed(cur: Position, next: Position)
    ensures
        edge_term(next, cur) == -edge_term(cur, next),
{
    let dx = next.x - cur.x;
    let sy = next.y + cur.y;
    assert((-dx) * sy == -(dx * sy)) by (nonlinear_arith);
    assert(cur.x - next.x == -dx);
    assert(cur.y + next.y == sy);
}

/// The sum over a path is the term of its first edge and the sum over the
/// rest.
proof fn lemma_path_sum_from_front(path: Seq<Position>)
    requires
        path.len() >= 2,
    ensures
        path_sum(path) == edge_term(path[0], path[1]) + path_sum(path.skip(1)),
    decreases path.len(),
{
    let front = path.drop_last();
    let rest = path.skip(1);
    if path.len() == 2 {
        assert(path_sum(front) == 0);
        assert(path_sum(rest) == 0);
    } else {
        lemma_path_sum_from_front(front);
        assert(front.skip(1) =~= rest.drop_last());
        assert(rest[rest.len() - 2] == path[path.len() - 2]);
        assert(rest.last() == path.last());
    }
}

/// A path walked backwards has the opposite sum.
pub proof fn lemma_path_sum_reversed(path: Seq<Position>)
    ensures
        path_sum(path.reverse()) == -path_sum(path),
    decreases path.len(),
{
    let turned = path.reverse();
    if path.len() >= 2 {
        assert(turned.drop_last() =~= path.skip(1).reverse());
        assert(turned[turned.len() - 2] == path[1]);
        assert(turned.last() == path[0]);
        lemma_path_sum_reversed(path.skip(1));
        lemma_path_sum_from_front(path);
        lemma_edge_term_reversed(path[0], path[1]);
    }
}

/// Turning a ring around negates its signed area.
pub proof fn lemma_signed_area_reversed(ring: Seq<Position>)
    ensures
        signed_area(ring.reverse()) == -signed_area(ring),
{
    if ring.len() > 0 {
        let turned = ring.reverse();
        lemma_path_sum_reversed(ring);
        assert(turned.last() == ring.first());
        assert(turned.first() == ring.last());
        lemma_edge_term_reversed(ring.last(), ring.first());
    }
}

/// Normalising is idempotent: a normalised ring is not wound clockwise, so
/// normalising it once more leaves the order of its positions unchanged.
pub proof fn lemma_normalized_is_idempotent(ring: Seq<Position>)
    ensures
        signed_area(normalized(ring)) <= 0,
        normalized(normalized(ring)) == normalized(ring),
{
    lemma_signed_area_reversed(ring);
}

/// A ring that is not wound clockwise is its own normal form.
pub proof fn lemma_normalized_keeps_counter_clockwise(ring: Seq<Position>)
    requires
        signed_area(ring) <= 0,
    ensures
        normalized(ring) == ring,
{
}

/// The terms of two edges in a row add up to the term of the edge between
/// their far ends, where two of the three corners are the same point.
proof fn lemma_edge_terms_add_up(x: Position, y: Position, z: Position)
    requires
        x == y || y == z || x == z,
    ensures
        edge_term(x, y) + edge_term(y, z) == edge_term(x, z),
{
    assert(edge_term(x, x) == 0) by (nonlinear_arith);
    assert(edge_term(y, y) == 0) by (nonlinear_arith);
    lemma_edge_term_reversed(x, y);
}

/// Over a path through two points only, the sum is the term of the edge
/// from its first position to its last.
proof fn lemma_path_between_two_points(path: Seq<Position>, a: Position, b: Position)
    requires
        path.len() >= 1,
        forall|i: int| 0 <= i < path.len() ==> path[i] == a || path[i] == b,
    ensures
        path_sum(path) == edge_term(path.first(), path.last()),
    decreases path.len(),
{
    if path.len() == 1 {
        assert(edge_term(path[0], path[0]) == 0) by (nonlinear_arith);
    } else {
        let front = path.drop_last();
        assert forall|i: int| 0 <= i < front.len() implies front[i] == a || front[i] == b by {
            assert(front[i] == path[i]);
        }
        lemma_path_between_two_points(front, a, b);
        assert(front.last() == path[path.len() - 2]);
        assert(front.first() == path.first());
        lemma_edge_terms_add_up(path.first(), front.last(), path.last());
    }
}

/// A ring through fewer than three distinct points encloses nothing, however
/// often and in whichever direction it walks between them.
pub proof fn lemma_ring_through_two_points_has_no_area(
    ring: Seq<Position>,
    a: Position,
    b: Position,
)
    requires
        forall|i: int| 0 <= i < ring.len() ==> ring[i] == a || ring[i] == b,
    ensures
        signed_area(ring) == 0,
        normalized(ring) == ring,
{
    if ring.len() > 0 {
        lemma_path_between_two_points(ring, a, b);
        lemma_edge_term_reversed(ring.first(), ring.last());
    }
}

} // verus!
