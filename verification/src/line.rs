use vstd::prelude::*;
use crate::error::Error;
use crate::exact::Exact;
use crate::position::Position;

verus! {

/// The ring that results from splicing `segment` onto the end of `ring`.
///
/// A segment that starts where the ring ends follows it forwards, without its
/// first position. Otherwise a segment that ends where the ring ends follows
/// it backwards, without its last position. A segment that touches the ring's
/// end with neither endpoint cannot be spliced.
pub open spec fn spliced(ring: Seq<Position>, segment: Seq<Position>) -> Option<Seq<Position>> {
    if segment.first() == ring.last() {
        Some(ring + segment.skip(1))
    } else if segment.last() == ring.last() {
        Some(ring + segment.drop_last().reverse())
    } else {
        None
    }
}

/// An ordered run of at least two positions.
///
/// Its model is the sequence of its positions.
#[derive(Debug, PartialEq, Eq)]
pub struct Line {
    points: Vec<Position>,
}

impl View for Line {
    type V = Seq<Position>;

    closed spec fn view(&self) -> Seq<Position> {
        self.points@
    }
}

/// A vector with the same positions.
pub(crate) fn copy_of(points: &Vec<Position>) -> (copy: Vec<Position>)
    ensures
        copy@ == points@,
{
    let mut copy: Vec<Position> = Vec::new();
    let mut i: usize = 0;
    while i < points.len()
        invariant
            i <= points.len(),
            copy@ == points@.take(i as int),
        decreases points.len() - i,
    {
        copy.push(points[i]);
        assert(copy@ =~= points@.take(i as int + 1));
        i += 1;
    }
    assert(points@.take(i as int) =~= points@);
    copy
}

/// Splices `tail` onto the end of the growing ring `ring`, forwards or
/// backwards, whichever way it continues the ring. A tail that does not touch
/// the ring's end leaves the ring as it was.
pub(crate) fn splice(ring: &mut Vec<Position>, tail: &Line) -> (r: Result<(), Error>)
    requires
        old(ring)@.len() >= 1,
    ensures
        match spliced(old(ring)@, tail@) {
            Some(longer) => r is Ok && final(ring)@ == longer,
            None => r == Err::<(), Error>(Error::NonContinuousPath) && final(ring)@ == old(ring)@,
        },
{
    proof {
        use_type_invariant(tail);
    }
    let ghost before = ring@;
    let n: usize = tail.points.len();
    let end = ring[ring.len() - 1];
    if tail.points[0].same(&end) {
        let mut i: usize = 1;
        while i < n
            invariant
                1 <= i <= n,
                n == tail.points@.len(),
                ring@ == before + tail.points@.subrange(1, i as int),
            decreases n - i,
        {
            ring.push(tail.points[i]);
            assert(ring@ =~= before + tail.points@.subrange(1, i as int + 1));
            i += 1;
        }
        assert(tail.points@.subrange(1, n as int) =~= tail.points@.skip(1));
        Ok(())
    } else if tail.points[n - 1].same(&end) {
        let mut i: usize = n - 1;
        while i > 0
            invariant
                i <= n - 1,
                n == tail.points@.len(),
                ring@ == before + tail.points@.subrange(i as int, n - 1).reverse(),
            decreases i,
        {
            i -= 1;
            ring.push(tail.points[i]);
            assert(ring@ =~= before + tail.points@.subrange(i as int, n - 1).reverse());
        }
        assert(tail.points@.subrange(0, n - 1) =~= tail.points@.drop_last());
        Ok(())
    } else {
        Err(Error::NonContinuousPath)
    }
}

impl Clone for Line {
    fn clone(&self) -> (copy: Self)
        ensures
            copy@ == self@,
    {
        proof {
            use_type_invariant(self);
        }
        Line { points: copy_of(&self.points) }
    }
}

impl Line {
    /// Every line holds at least two positions.
    #[verifier::type_invariant]
    pub open spec fn well_formed(self) -> bool {
        self@.len() >= 2
    }

    /// The line through `value`, which must hold at least two positions.
    pub fn try_from(value: Vec<Position>) -> (r: Result<Line, Error>)
        ensures
            match r {
                Ok(line) => value@.len() >= 2 && line@ == value@,
                Err(e) => value@.len() < 2 && e == Error::DegenerateSegment,
            },
    {
        if value.len() < 2 {
            return Err(Error::DegenerateSegment);
        }
        Ok(Line { points: value })
    }

    /// The line through `points`.
    pub(crate) fn from_points(points: Vec<Position>) -> (line: Line)
        requires
            points@.len() >= 2,
        ensures
            line@ == points@,
    {
        Line { points }
    }

    /// The number of positions, which is never below two.
    pub fn len(&self) -> (n: usize)
        ensures
            n == self@.len(),
            n >= 2,
    {
        proof {
            use_type_invariant(self);
        }
        self.points.len()
    }

    /// The positions in order.
    pub fn points(&self) -> (points: &Vec<Position>)
        ensures
            points@ == self@,
            points@.len() >= 2,
    {
        proof {
            use_type_invariant(self);
        }
        &self.points
    }

    /// The first position.
    pub fn start(&self) -> (p: &Position)
        ensures
            self@.len() >= 2,
            *p == self@.first(),
    {
        proof {
            use_type_invariant(self);
        }
        &self.points[0]
    }

    /// The last position.
    pub fn end(&self) -> (p: &Position)
        ensures
            self@.len() >= 2,
            *p == self@.last(),
    {
        proof {
            use_type_invariant(self);
        }
        &self.points[self.points.len() - 1]
    }

    /// Splices `tail` onto the end of this line, forwards or backwards,
    /// whichever way it continues the line. A tail that does not touch the
    /// line's end leaves the line as it was.
    pub fn extend(&mut self, tail: &Line) -> (r: Result<(), Error>)
        ensures
            match spliced(old(self)@, tail@) {
                Some(longer) => r is Ok && final(self)@ == longer,
                None => r == Err::<(), Error>(Error::NonContinuousPath) && final(self)@ == old(
                    self,
                )@,
            },
    {
        proof {
            use_type_invariant(&*self);
        }
        let mut points = copy_of(&self.points);
        match splice(&mut points, tail) {
            Ok(()) => {
                self.points = points;
                Ok(())
            },
            Err(e) => Err(e),
        }
    }

    /// Turns the order of the positions around.
    pub fn reverse(&mut self)
        ensures
            final(self)@ == old(self)@.reverse(),
    {
        proof {
            use_type_invariant(&*self);
        }
        let n: usize = self.points.len();
        let mut turned: Vec<Position> = Vec::new();
        let mut i: usize = n;
        while i > 0
            invariant
                i <= n,
                n == self.points@.len(),
                turned@ == self.points@.skip(i as int).reverse(),
            decreases i,
        {
            i -= 1;
            turned.push(self.points[i]);
            assert(turned@ =~= self.points@.skip(i as int).reverse());
        }
        assert(self.points@.skip(0) =~= self.points@);
        self.points = turned;
    }
}

} // verus!
