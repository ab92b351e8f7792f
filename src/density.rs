//! Settings of the density textures synthesized from surfel substances.

use vstd::prelude::*;

verus! {

/// How the substance values of the surfels near a texel combine into the
/// density of that texel.
#[derive(Clone, Copy, Debug, PartialEq, Eq, Structural)]
pub enum SubstanceFilter {
    /// The unweighted average of the substance values.
    Flat,
    /// A weighted average: the nearest surfel weighs most, and the weight
    /// falls with distance down to a floor that the farthest surfel gets.
    Smooth,
}

} // verus!
