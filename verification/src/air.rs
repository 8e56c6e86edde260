//! What an airframe's altitude is measured from.

use vstd::prelude::*;

verus! {

/// What an airframe's altitude is measured from: the dial that decides whether terrain
/// can mask it.
#[derive(Clone, Copy, PartialEq, Eq, Debug, Structural)]
pub enum AltitudeRef {
    /// Above ground level: the airframe follows the terrain and is never masked by the
    /// hill it overflies.
    Agl,
    /// Above mean sea level: the airframe cruises level, so higher ground masks it.
    Amsl,
}

impl Default for AltitudeRef {
    /// Altitudes are above ground unless stated otherwise.
    fn default() -> (r: AltitudeRef)
        ensures
            r == AltitudeRef::Agl,
    {
        AltitudeRef::Agl
    }
}

} // verus!
