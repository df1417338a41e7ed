//! Verbosity of events and of data entries, named by the tags `info`,
//! `debug` and `trace`.

use vstd::prelude::*;

verus! {

/// How much detail an entry carries. `Info` is the most important and the
/// default; a reader set to one level takes that level and those before it.
#[derive(PartialEq, Eq, PartialOrd, Ord, Debug, Clone, Copy, Structural)]
pub enum Level {
    Info,
    Debug,
    Trace,
}

impl Level {
    /// The place of the level in the order `Info < Debug < Trace`.
    pub open spec fn rank(self) -> nat {
        match self {
            Level::Info => 1,
            Level::Debug => 2,
            Level::Trace => 3,
        }
    }

    /// Whether this level is `bound` or comes before it.
    pub fn at_most(self, bound: Level) -> (b: bool)
        ensures
            b == (self.rank() <= bound.rank()),
    {
        match (self, bound) {
            (Level::Info, _) => true,
            (Level::Debug, Level::Info) => false,
            (Level::Debug, _) => true,
            (Level::Trace, Level::Trace) => true,
            (Level::Trace, _) => false,
        }
    }
}

} // verus!
