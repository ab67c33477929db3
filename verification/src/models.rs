//! The priority classes of docks.

use vstd::prelude::*;

verus! {

/// Importance of a dock. `First` is the most important class and is put out
/// earliest; `Third` is the class of every dock that was given no priority.
#[derive(Debug, Clone, Copy, PartialEq, Eq, PartialOrd, Ord, Hash, Structural)]
pub enum Priority {
    First,
    Second,
    Third,
}

impl Priority {
    /// Position of the class in the order `First < Second < Third`.
    pub open spec fn rank(self) -> nat {
        match self {
            Priority::First => 1,
            Priority::Second => 2,
            Priority::Third => 3,
        }
    }

    /// Whether `self` is strictly more important than `other`.
    pub open spec fn outranks(self, other: Priority) -> bool {
        self.rank() < other.rank()
    }

    /// Decides whether `self` is strictly more important than `other`.
    pub fn is_more_important_than(self, other: Priority) -> (b: bool)
        ensures
            b == self.outranks(other),
    {
        match (self, other) {
            (Priority::First, Priority::Second) => true,
            (Priority::First, Priority::Third) => true,
            (Priority::Second, Priority::Third) => true,
            _ => false,
        }
    }
}

} // verus!
