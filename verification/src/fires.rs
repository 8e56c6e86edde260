//! How a weapon delivers effect.

use vstd::prelude::*;

verus! {

/// How a weapon delivers effect.
#[derive(Clone, Copy, PartialEq, Eq, Debug, Structural)]
pub enum WeaponClass {
    /// Flat trajectory, needs line of sight, hits against a silhouette.
    Direct,
    /// Ballistic arc, dispersion and area effect around an aim point.
    Indirect,
}

} // verus!
