//! Error taxonomy of the LUT engine.

use vstd::prelude::*;

verus! {

/// Which registry a failed lookup was against.
#[derive(Debug, Clone, Copy, PartialEq, Eq, Structural)]
pub enum ResourceKind {
    Lut,
    Sampler,
}

/// Why a LUT text failed to parse.
#[derive(Debug)]
pub enum FormatError {
    /// The size directive's token is not an unsigned decimal number.
    BadSizeToken { token: Vec<u8> },
    /// The declared cubic dimension lies outside `2..=65535`.
    SizeOutOfRange { size: usize },
    /// A data line appeared before any size directive, or no size directive
    /// was found at all.
    MissingSize,
    /// A data line does not hold exactly three whitespace-separated tokens.
    WrongTokenCount { line: Vec<u8>, count: usize },
    /// A token of a data line does not parse as a floating-point number.
    BadFloat { token: Vec<u8> },
    /// The number of data lines does not equal the declared dimension cubed.
    WrongLineCount { expected: u64, got: u64 },
}

/// Errors of the LUT engine.
#[derive(Debug)]
pub enum LutError {
    /// Malformed LUT text.
    Format(FormatError),
    /// A supplied buffer's length disagrees with the declared dimensions.
    SizeMismatch { dim: u32, len: usize },
    /// The named LUT file format or pixel format is not one the engine knows.
    UnsupportedFormat { format: String },
    /// No LUT or sampler is registered under the given name.
    NotFound { kind: ResourceKind, name: String },
    /// Device-side failure: adapter or device acquisition, buffer mapping,
    /// or command submission. The engine itself never raises it; the device
    /// layer reports it through this variant.
    Device { reason: String },
}

} // verus!
