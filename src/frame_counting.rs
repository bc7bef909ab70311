//! The number of the simulation tick that is running.
use vstd::prelude::*;

verus! {

/// The number of a simulation tick: starts at zero and grows by one per tick.
#[derive(Clone, Copy, Debug, PartialEq, Eq, Structural, PartialOrd, Ord, Hash)]
pub struct FrameCount(pub u64);

impl FrameCount {
    /// Moves the counter on to the next tick.
    pub fn advance(&mut self)
        requires
            old(self).0 < u64::MAX,
        ensures
            final(self).0 == old(self).0 + 1,
    {
        self.0 = self.0 + 1;
    }
}

impl Default for FrameCount {
    fn default() -> (r: Self)
        ensures
            r.0 == 0,
    {
        FrameCount(0)
    }
}

} // verus!
