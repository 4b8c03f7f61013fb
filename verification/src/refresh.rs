//! The periodic maintenance of a channel.
use vstd::prelude::*;

verus! {

/// The refresh policy of a controller. It issues nothing: the devices are
/// modelled without a need for refresh.
#[derive(Debug, Default)]
pub struct Refresh {}

impl Refresh {
    /// Lets the policy see the cycle `clk`.
    pub fn tick(&mut self, clk: u64)
        ensures
            *final(self) == *old(self),
    {
    }
}

} // verus!
