//! What ground fires shot at.

use vstd::prelude::*;

verus! {

/// What ground fires shot at: a unit, an air-defence battery, or a C2 post, each by its
/// index in its own list.
///
/// Ordered so a fire log sorts by target list, then index.
#[derive(Clone, Copy, PartialEq, Eq, PartialOrd, Ord, Hash, Debug, Structural)]
pub enum FireTarget {
    /// Index into the units.
    Unit(usize),
    /// Index into the air-defence batteries.
    AirDefence(usize),
    /// Index into the C2 posts.
    C2(usize),
}

impl FireTarget {
    /// The unit index, if this was a unit.
    pub fn unit(self) -> (r: Option<usize>)
        ensures
            match self {
                FireTarget::Unit(i) => r == Some(i),
                _ => r is None,
            },
    {
        match self {
            FireTarget::Unit(i) => Some(i),
            _ => None,
        }
    }
}

} // verus!
