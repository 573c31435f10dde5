use vstd::prelude::*;

verus! {

/// Values that executable code can compare for exact equality.
pub trait Exact: Sized {
    /// Whether `self` and `other` are the same value.
    fn same(&self, other: &Self) -> (r: bool)
        ensures
            r == (*self == *other),
    ;
}

/// Values in a total order that executable code can decide.
pub trait Ranked: Exact {
    /// The place of the value in the order: a value comes before another
    /// exactly when its rank is the lower one.
    spec fn rank(&self) -> int;

    /// Different values have different ranks.
    proof fn lemma_rank_is_exact(a: &Self, b: &Self)
        ensures
            a.rank() == b.rank() ==> *a == *b,
    ;

    /// Whether `self` comes before `other`.
    fn precedes(&self, other: &Self) -> (r: bool)
        ensures
            r == (self.rank() < other.rank()),
    ;
}

impl Exact for i32 {
    fn same(&self, other: &Self) -> (r: bool) {
        *self == *other
    }
}

impl Ranked for i32 {
    open spec fn rank(&self) -> int {
        *self as int
    }

    proof fn lemma_rank_is_exact(a: &Self, b: &Self) {
    }

    fn precedes(&self, other: &Self) -> (r: bool) {
        *self < *other
    }
}

impl Exact for i64 {
    fn same(&self, other: &Self) -> (r: bool) {
        *self == *other
    }
}

impl Ranked for i64 {
    open spec fn rank(&self) -> int {
        *self as int
    }

    proof fn lemma_rank_is_exact(a: &Self, b: &Self) {
    }

    fn precedes(&self, other: &Self) -> (r: bool) {
        *self < *other
    }
}

impl Exact for u32 {
    fn same(&self, other: &Self) -> (r: bool) {
        *self == *other
    }
}

impl Ranked for u32 {
    open spec fn rank(&self) -> int {
        *self as int
    }

    proof fn lemma_rank_is_exact(a: &Self, b: &Self) {
    }

    fn precedes(&self, other: &Self) -> (r: bool) {
        *self < *other
    }
}

impl Exact for u64 {
    fn same(&self, other: &Self) -> (r: bool) {
        *self == *other
    }
}

impl Ranked for u64 {
    open spec fn rank(&self) -> int {
        *self as int
    }

    proof fn lemma_rank_is_exact(a: &Self, b: &Self) {
    }

    fn precedes(&self, other: &Self) -> (r: bool) {
        *self < *other
    }
}

impl Exact for usize {
    fn same(&self, other: &Self) -> (r: bool) {
        *self == *other
    }
}

impl Ranked for usize {
    open spec fn rank(&self) -> int {
        *self as int
    }

    proof fn lemma_rank_is_exact(a: &Self, b: &Self) {
    }

    fn precedes(&self, other: &Self) -> (r: bool) {
        *self < *other
    }
}

} // verus!
