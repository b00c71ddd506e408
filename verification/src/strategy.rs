use vstd::prelude::*;

verus! {

/// The identifier allocation strategy used at one hierarchy depth.
#[derive(Clone, Copy, PartialEq, Eq, Structural)]
pub enum LSEQStrategy {
    /// Generate identifiers by adding a delta to the left neighbour's digit.
    AddFromLeft,
    /// Generate identifiers by subtracting a delta from the right
    /// neighbour's digit.
    SubtractFromRight,
}

impl LSEQStrategy {
    /// One of the two strategies, chosen uniformly at random.
    ///
    /// Relies on rand::random::<bool>: a fresh draw from the thread-local
    /// generator; nothing is promised of the outcome.
    #[verifier::external_body]
    pub fn random() -> LSEQStrategy {
        if rand::random::<bool>() {
            LSEQStrategy::AddFromLeft
        } else {
            LSEQStrategy::SubtractFromRight
        }
    }
}

} // verus!
