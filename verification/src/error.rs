use vstd::prelude::*;

verus! {

/// Why no ring could be produced for an area.
///
/// Every failure is local to the area it was found in.
#[derive(Clone, Copy, Debug, PartialEq, Eq, Structural)]
pub enum Error {
    /// The area names no member with the outer role.
    MissingBoundaryMembers,
    /// A referenced way or node is absent from the dataset.
    UnresolvedMember,
    /// A member resolves to fewer than two positions.
    DegenerateSegment,
    /// No remaining segment touches the current end of the ring.
    NoMatchingSegment,
    /// A segment found at the ring's end shares no endpoint with it.
    NonContinuousPath,
    /// All segments are used, yet the ring does not end where it starts.
    UnclosedRing,
}

impl Error {
    /// The cause in words.
    pub open spec fn text(self) -> Seq<char> {
        match self {
            Error::MissingBoundaryMembers => "no linestrings"@,
            Error::UnresolvedMember => "a member of the boundary is missing"@,
            Error::DegenerateSegment => "cannot construct line with less than two points"@,
            Error::NoMatchingSegment => "No more matching linestrings found"@,
            Error::NonContinuousPath => "Linestrings do not form a continuous path"@,
            Error::UnclosedRing => "Ends of the linestrings don't form a ring"@,
        }
    }

    /// The cause in words, for a report.
    pub fn message(&self) -> (words: &'static str)
        ensures
            words@ == self.text(),
    {
        match self {
            Error::MissingBoundaryMembers => "no linestrings",
            Error::UnresolvedMember => "a member of the boundary is missing",
            Error::DegenerateSegment => "cannot construct line with less than two points",
            Error::NoMatchingSegment => "No more matching linestrings found",
            Error::NonContinuousPath => "Linestrings do not form a continuous path",
            Error::UnclosedRing => "Ends of the linestrings don't form a ring",
        }
    }
}

} // verus!
