//! What side an asset is on.

use vstd::prelude::*;

verus! {

/// Which force an asset belongs to.
#[derive(Clone, Copy, PartialEq, Eq, Debug, Structural)]
pub enum Side {
    /// Blue force (the user's, conventionally).
    Blue,
    /// Red force.
    Red,
}

impl Side {
    /// The side's position in per-side arrays: Blue first, then Red.
    pub fn index(self) -> (r: usize)
        ensures
            r == (if self == Side::Blue { 0usize } else { 1usize }),
    {
        match self {
            Side::Blue => 0,
            Side::Red => 1,
        }
    }
}

} // verus!
