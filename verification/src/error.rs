use vstd::prelude::*;

verus! {

/// The engine's error taxonomy.
///
/// Degenerate statistics (an image with zero dynamic range) are not an
/// error: `threshold::otsu_threshold` and `spectral::freq_normalize` fall
/// back to a documented fixed value instead.
#[derive(Clone, Copy, Debug, PartialEq, Eq, Structural)]
pub enum EngineError {
    /// The buffer length does not match the declared width times height.
    InvalidDimensions,
    /// The kernel length is not a perfect square, or the window does not
    /// fit inside the image extent.
    InvalidKernel,
}

} // verus!
