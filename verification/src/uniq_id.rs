//! Task identifiers.

use vstd::prelude::*;

verus! {

/// The identifier of a task. A source of identifiers hands them out in
/// increasing order and never twice.
#[derive(Clone, Copy, Hash, PartialOrd, PartialEq, Ord, Eq, Debug, Structural)]
pub struct UniqID(pub u64);

impl UniqID {
    /// The identifier as a number.
    pub fn as_u64(&self) -> (n: u64)
        ensures
            n == self.0,
    {
        self.0
    }
}

/// A source of identifiers: it counts up from zero.
#[derive(Debug)]
pub struct UniqIDs {
    next: u64,
}

impl UniqIDs {
    /// The number of the identifier that is handed out next.
    pub closed spec fn following(&self) -> u64 {
        self.next
    }

    /// A source that has handed out nothing.
    pub fn new() -> (ids: UniqIDs)
        ensures
            ids.following() == 0,
    {
        UniqIDs { next: 0 }
    }

    /// Whether the source can still hand out an identifier.
    pub fn has_next(&self) -> (b: bool)
        ensures
            b == (self.following() < u64::MAX),
    {
        self.next < u64::MAX
    }

    /// Hands out an identifier: one more than the one before.
    pub fn next_id(&mut self) -> (id: UniqID)
        requires
            old(self).following() < u64::MAX,
        ensures
            id.0 == old(self).following(),
            final(self).following() == old(self).following() + 1,
    {
        let id = UniqID(self.next);
        self.next = self.next + 1;
        id
    }
}

} // verus!
