//! Guided blending: the configuration of a blend between two or more
//! textures, driven per pixel by the value of a guide texture.

use vstd::prelude::*;
use crate::blend::stops::{Stop, Stops, StopsError, has_cenith_key, is_sorted_by_cenith};

verus! {

/// Blending algorithm for use by `GuidedBlend`.
#[derive(Debug, Clone, Copy, PartialEq, Eq, Structural)]
pub enum BlendType {
    /// Linear blending for a blend between color values.
    Linear,
    /// Blending by interpreting pixels as tangent-space normals and blending
    /// their slopes, which keeps the detail of normal maps better than
    /// averaging directions.
    Normal,
}

/// Blend stops together with the way to blend between two of them.
#[derive(Debug)]
pub struct GuidedBlend<I> {
    pub stops: Stops<I>,
    pub blend_type: BlendType,
}

impl<I> GuidedBlend<I> {
    /// A linear blend between the given stops. Fails where none is given.
    pub fn new(stops: Vec<Stop<I>>) -> (r: Result<Self, StopsError>)
        ensures
            stops@.len() > 0 <==> r is Ok,
            match r {
                Ok(blend) => {
                    &&& blend.blend_type == BlendType::Linear
                    &&& blend.stops@.to_multiset() == stops@.to_multiset()
                    &&& is_sorted_by_cenith(blend.stops@)
                    &&& forall|key: int|
                        #[trigger] blend.stops@.filter(has_cenith_key(key)) == stops@.filter(has_cenith_key(key))
                },
                Err(e) => e == StopsError::Empty,
            },
    {
        Self::with_type(stops, BlendType::Linear)
    }

    /// A blend of the given type between the given stops. Fails where none
    /// is given.
    pub fn with_type(stops: Vec<Stop<I>>, blend_type: BlendType) -> (r: Result<Self, StopsError>)
        ensures
            stops@.len() > 0 <==> r is Ok,
            match r {
                Ok(blend) => {
                    &&& blend.blend_type == blend_type
                    &&& blend.stops@.to_multiset() == stops@.to_multiset()
                    &&& is_sorted_by_cenith(blend.stops@)
                    &&& forall|key: int|
                        #[trigger] blend.stops@.filter(has_cenith_key(key)) == stops@.filter(has_cenith_key(key))
                },
                Err(e) => e == StopsError::Empty,
            },
    {
        match Stops::new(stops) {
            Ok(stops) => Ok(GuidedBlend { stops, blend_type }),
            Err(e) => Err(e),
        }
    }
}

} // verus!
