//! C2 post stat-block defaults.

use vstd::prelude::*;

verus! {

/// A command post is one vehicle unless its stat block says otherwise.
pub fn default_elements() -> (r: u32)
    ensures
        r == 1,
{
    1
}

} // verus!
