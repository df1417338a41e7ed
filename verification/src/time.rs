//! Instants, as the library keeps them.

use vstd::prelude::*;

verus! {

/// An instant of the wall clock: the milliseconds since the Unix epoch.
#[derive(Clone, Copy, Debug, PartialEq, Eq, Structural)]
pub struct Timestamp {
    pub unix_millis: u64,
}

impl Timestamp {
    /// The milliseconds from `earlier` to this instant, where `earlier` is
    /// not the later of the two.
    pub open spec fn since(self, earlier: Timestamp) -> Option<u64> {
        if earlier.unix_millis <= self.unix_millis {
            Some((self.unix_millis - earlier.unix_millis) as u64)
        } else {
            None
        }
    }

    /// The time that passed from `earlier` to this instant. There is none
    /// where the clock went back in between.
    pub fn duration_since(self, earlier: Timestamp) -> (d: Option<u64>)
        ensures
            d == self.since(earlier),
    {
        if earlier.unix_millis <= self.unix_millis {
            Some(self.unix_millis - earlier.unix_millis)
        } else {
            None
        }
    }
}

} // verus!
