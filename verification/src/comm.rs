//! What the parties of a distributed run exchange. A run of one party exchanges nothing.
use vstd::prelude::*;

verus! {

/// The exchange between parties.
pub trait Comm {
    /// The number of this party.
    fn rank(&self) -> (r: usize);

    /// How many parties there are.
    fn size(&self) -> (r: usize);

    /// The best split candidate of all parties; every party gets the same.
    fn allreduce_best_split<S>(&self, local: Option<S>) -> (r: Option<S>);

    /// Sends the sides that rows take, one bit each, from the party that holds the feature.
    fn broadcast_partition(&self, root: usize, bits: &mut Vec<u8>);

    /// Adds up the gradient pairs of all parties.
    fn allreduce_gpair<G>(&self, local: &mut Vec<G>);
}

/// The only party.
#[derive(Clone, Copy, Debug, PartialEq, Eq, Structural)]
pub struct Local;

impl Comm for Local {
    fn rank(&self) -> (r: usize)
        ensures
            r == 0,
    {
        0
    }

    fn size(&self) -> (r: usize)
        ensures
            r == 1,
    {
        1
    }

    fn allreduce_best_split<S>(&self, local: Option<S>) -> (r: Option<S>)
        ensures
            r == local,
    {
        local
    }

    fn broadcast_partition(&self, root: usize, bits: &mut Vec<u8>)
        ensures
            *final(bits) == *old(bits),
    {
    }

    fn allreduce_gpair<G>(&self, local: &mut Vec<G>)
        ensures
            *final(local) == *old(local),
    {
    }
}

} // verus!
