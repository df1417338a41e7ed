//! Levels of tasks, named by the tags `l0` to `l3`.

use vstd::prelude::*;

verus! {

/// The level of a task. Tasks are of level `L1` unless a tag in their name
/// says otherwise; a reporter leaves out what comes after its own level.
#[derive(Clone, Copy, PartialEq, PartialOrd, Eq, Ord, Debug, Structural)]
pub enum Level {
    L0,
    L1,
    L2,
    L3,
}

impl Level {
    /// The place of the level in the order `L0 < L1 < L2 < L3`.
    pub open spec fn rank(self) -> nat {
        match self {
            Level::L0 => 0,
            Level::L1 => 1,
            Level::L2 => 2,
            Level::L3 => 3,
        }
    }

    fn number(self) -> (n: u8)
        ensures
            n == self.rank(),
    {
        match self {
            Level::L0 => 0,
            Level::L1 => 1,
            Level::L2 => 2,
            Level::L3 => 3,
        }
    }

    /// Whether this level is `bound` or comes before it.
    pub fn at_most(self, bound: Level) -> (b: bool)
        ensures
            b == (self.rank() <= bound.rank()),
    {
        self.number() <= bound.number()
    }
}

impl Default for Level {
    fn default() -> (l: Level)
        ensures
            l == Level::L1,
    {
        Level::L1
    }
}

} // verus!
