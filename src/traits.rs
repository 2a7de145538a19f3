//! The two capabilities that a value domain supplies to the interval algebra.
//!
//! Every value of a domain has a position, an integer, and the domain's order
//! is the order of positions. The smallest and largest values bound the
//! positions, and one step moves a value to the next or previous position.
use vstd::prelude::*;

verus! {

/// A domain with a least and a greatest value, totally ordered by position
pub trait Bounded: Sized + Copy {
    /// Where a value stands in the domain's order
    spec fn rank(&self) -> int;

    /// The position of the least value
    spec fn min_rank() -> int;

    /// The position of the greatest value
    spec fn max_rank() -> int;

    /// The value at a position of the domain
    spec fn at_rank(k: int) -> Self;

    /// Each position of the domain holds a value
    proof fn lemma_at_rank(k: int)
        requires
            Self::min_rank() <= k <= Self::max_rank(),
        ensures
            Self::at_rank(k).rank() == k,
    ;

    /// Every value lies between the least and the greatest one
    proof fn lemma_rank_bounds(v: Self)
        ensures
            Self::min_rank() <= v.rank() <= Self::max_rank(),
    ;

    /// Two values at one position are the same value
    proof fn lemma_rank_injective(a: Self, b: Self)
        requires
            a.rank() == b.rank(),
        ensures
            a == b,
    ;

    /// The least value of the domain
    fn min_val() -> (r: Self)
        ensures
            r.rank() == Self::min_rank(),
    ;

    /// The greatest value of the domain
    fn max_val() -> (r: Self)
        ensures
            r.rank() == Self::max_rank(),
    ;

    /// Whether `self` comes no later than `other`
    fn not_after(&self, other: &Self) -> (r: bool)
        ensures
            r == (self.rank() <= other.rank()),
    ;
}

/// A domain whose values are separated by one consistent step
pub trait Stepped: Bounded {
    /// The quantum between neighbouring values
    fn step() -> Self;

    /// The next value, or the greatest value itself
    fn increment(&self) -> (r: Self)
        ensures
            r.rank() == if self.rank() < Self::max_rank() {
                self.rank() + 1
            } else {
                self.rank()
            },
    ;

    /// The previous value, or the least value itself
    fn decrement(&self) -> (r: Self)
        ensures
            r.rank() == if self.rank() > Self::min_rank() {
                self.rank() - 1
            } else {
                self.rank()
            },
    ;
}

/// The least value of a domain
pub fn bounded_min<T: Bounded>() -> (r: T)
    ensures
        r.rank() == T::min_rank(),
{
    T::min_val()
}

/// The greatest value of a domain
pub fn bounded_max<T: Bounded>() -> (r: T)
    ensures
        r.rank() == T::max_rank(),
{
    T::max_val()
}

} // verus!
