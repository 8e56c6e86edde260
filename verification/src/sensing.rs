//! Sensing modalities and the unit stat-block defaults.

use vstd::prelude::*;

verus! {

/// The propagation channel a sensor works in.
#[derive(Clone, Copy, PartialEq, Eq, Debug, Structural)]
pub enum Modality {
    /// Line-of-sight visual sensing, attenuated by canopy.
    Optical,
}

/// The key a modality reads in a signature table.
pub open spec fn modality_name(modality: Modality) -> Seq<char> {
    match modality {
        Modality::Optical => seq!['o', 'p', 't', 'i', 'c', 'a', 'l'],
    }
}

/// The `signature` table key a modality reads. One match arm, in one place, so adding a
/// modality cannot leave a signature table silently unread by one caller.
pub fn modality_key(modality: Modality) -> (r: &'static str)
    ensures
        r@ == modality_name(modality),
{
    match modality {
        Modality::Optical => {
            let k = "optical";
            proof {
                reveal_strlit("optical");
                assert(k@ =~= modality_name(modality));
            }
            k
        },
    }
}

/// A unit is one element unless its stat block says otherwise.
pub fn default_element_count() -> (r: u32)
    ensures
        r == 1,
{
    1
}

} // verus!
