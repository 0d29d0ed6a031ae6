use vstd::prelude::*;

verus! {

/// A perfect mirror: every incoming ray leaves along its reflection about the
/// surface normal.
#[derive(Debug, Clone, Copy)]
pub struct SpecularMaterial {}

impl SpecularMaterial {
    /// Creates a perfect mirror.
    pub fn create() -> (r: SpecularMaterial)
        ensures
            r == (SpecularMaterial {}),
    {
        SpecularMaterial {}
    }

    /// A mirror scatters light into a single direction only, so its
    /// reflectance is a delta distribution.
    pub fn is_delta(&self) -> (r: bool)
        ensures
            r,
    {
        true
    }
}

} // verus!
