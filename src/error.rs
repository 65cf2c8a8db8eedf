use vstd::prelude::*;

verus! {

/// Conditions under which a scene or a render is refused before any pixel
/// is produced.
#[derive(Clone, Copy, Debug, PartialEq, Eq, Structural)]
pub enum RenderError {
    /// A sphere with a non-positive radius, or outside the representable volume.
    InvalidGeometry,
    /// An albedo channel or a fuzz outside `[0, 1]`.
    InvalidMaterial,
    /// A direction that cannot be normalized: a camera looking at its own
    /// position, or with an up vector that is zero or along the view.
    DegenerateVector,
    /// A sample count of zero, or an image too small to sample.
    InvalidConfiguration,
}

} // verus!
