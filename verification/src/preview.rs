use vstd::prelude::*;

verus! {

/// The shapes on which a node's output can be previewed.
#[derive(Debug, Clone, Copy, PartialEq, Eq, Hash, Structural)]
pub enum PreviewMode {
    Square,
    Square2X2,
    Square3X3,
    Sphere,
    Cuboid,
    Tetra,
    Torus,
}

impl Default for PreviewMode {
    fn default() -> (res: Self)
        ensures
            res == PreviewMode::Square,
    {
        PreviewMode::Square
    }
}

/// Computed state that says whether we are in 3D preview mode vs 2d. This sets up and tears
/// down the 3d scene.
#[derive(Debug, Clone, PartialEq, Eq, Hash, Structural)]
pub struct PreviewMode3d;

/// The preview modes that show a three-dimensional shape.
pub open spec fn is_3d(mode: PreviewMode) -> bool {
    mode is Cuboid || mode is Sphere || mode is Tetra || mode is Torus
}

impl PreviewMode3d {
    /// The 3D preview state for a preview mode: present exactly for the modes that show a
    /// three-dimensional shape.
    pub fn compute(sources: PreviewMode) -> (res: Option<PreviewMode3d>)
        ensures
            res is Some <==> is_3d(sources),
    {
        match sources {
            PreviewMode::Cuboid | PreviewMode::Sphere | PreviewMode::Tetra | PreviewMode::Torus => {
                Some(PreviewMode3d)
            },
            _ => None,
        }
    }
}

/// Every preview mode shows a three-dimensional shape but the flat square ones: Sphere,
/// Cuboid, Tetra and Torus are 3D, and Square, Square2X2 and Square3X3 are not.
pub proof fn lemma_3d_modes(mode: PreviewMode)
    ensures
        is_3d(mode) <==> !(mode is Square || mode is Square2X2 || mode is Square3X3),
{
}

} // verus!
