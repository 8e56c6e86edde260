//! Terrain classification and the named map recipes.

use vstd::prelude::*;

verus! {

/// How a cell is classified. Drives cover, concealment, mobility, and how the cell
/// blocks or attenuates line of sight.
#[derive(Clone, Copy, PartialEq, Eq, Debug, Structural)]
pub enum TerrainType {
    /// Bare, trafficable ground: no blocking feature, no concealment.
    Open,
    /// Woodland: a canopy that attenuates sightlines and conceals.
    Trees,
    /// Built-up: buildings that hard-block sightlines and give strong cover.
    Urban,
}

impl Default for TerrainType {
    /// Unclassified ground is open.
    fn default() -> (r: TerrainType)
        ensures
            r == TerrainType::Open,
    {
        TerrainType::Open
    }
}

/// A named recipe, so the common maps can be asked for by name.
#[derive(Clone, Copy, PartialEq, Eq, Debug, Structural)]
pub enum TerrainPreset {
    /// A featureless plain: the fixture for isolating a model from terrain.
    FlatPlain,
    /// Gentle relief and scattered copses: the default battlegroup map.
    RollingHills,
    /// Rolling relief under heavy forest: concealment everywhere, few sightlines.
    WoodedHills,
    /// A few small built-up areas on open ground.
    LightUrban,
    /// A dense built-up belt: hard line-of-sight blocking and short engagement ranges.
    DenseUrban,
    /// A high ridge across the middle of a rolling map, with a wooded valley either side.
    MountainPass,
}

/// Rolling relief scatters three urban blocks unless told otherwise.
pub fn default_urban_blocks() -> (r: u32)
    ensures
        r == 3,
{
    3
}

} // verus!
