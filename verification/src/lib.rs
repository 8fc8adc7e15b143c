//! A pure, stateless image-transform engine.
//!
//! The engine works on flat, row-major pixel buffers (`Vec<[u8; 3]>`, channels
//! stored blue, green, red) and on flat coefficient buffers (`Vec<i64>`,
//! fixed-point spectral coefficients).  Every operation is a pure function
//! from a buffer plus numeric parameters to a freshly allocated buffer; no
//! state persists between calls.
//!
//! Fractional data — kernel weights and cosine-basis values — enter the
//! engine as fixed-point integers (see `window::KERNEL_ONE` and
//! `spectral::BASIS_ONE`), so every result is an exact integer function of
//! the inputs.

pub mod codec;
pub mod error;
pub mod pointwise;
pub mod rank;
pub mod spectral;
pub mod threshold;
pub mod window;
