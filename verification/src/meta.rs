use vstd::prelude::*;

verus! {

use core::cmp::Ordering;

/// The owner tag attached to an identifier: any value with a total order,
/// used purely as a tie-breaker between identifiers whose digits coincide.
/// An implementation supplies a specification-level strict order and an
/// executable three-way comparison that realizes it.
pub trait Meta: Sized {
    /// The strict order the tag's comparison realizes.
    spec fn lt_spec(&self, other: &Self) -> bool;

    /// Three-way comparison deciding the strict order both ways; equality
    /// means that neither tag orders below the other.
    fn meta_cmp(&self, other: &Self) -> (r: Ordering)
        ensures
            (r == Ordering::Less <==> self.lt_spec(other)),
            (r == Ordering::Greater <==> other.lt_spec(self)),
            (r == Ordering::Equal <==> !self.lt_spec(other) && !other.lt_spec(self)),
    ;
}

impl Meta for u64 {
    open spec fn lt_spec(&self, other: &Self) -> bool {
        *self < *other
    }

    fn meta_cmp(&self, other: &Self) -> (r: Ordering) {
        if *self < *other {
            Ordering::Less
        } else if *self > *other {
            Ordering::Greater
        } else {
            Ordering::Equal
        }
    }
}

impl Meta for u128 {
    open spec fn lt_spec(&self, other: &Self) -> bool {
        *self < *other
    }

    fn meta_cmp(&self, other: &Self) -> (r: Ordering) {
        if *self < *other {
            Ordering::Less
        } else if *self > *other {
            Ordering::Greater
        } else {
            Ordering::Equal
        }
    }
}

} // verus!
