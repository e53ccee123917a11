use vstd::prelude::*;

verus! {

/// What went wrong.
#[derive(Debug, Clone, Copy, PartialEq, Eq, Structural)]
pub enum ErrorKind {
    /// A size that is not `WxH` or `N` with decimal `u32` numbers.
    InvalidSize,
    /// A size with a zero side.
    NonPositiveSize,
    /// A side above `MAX_DIM`.
    SideTooLarge,
    /// More than `MAX_PIXELS` pixels.
    TooManyPixels,
    /// A color that is not 3, 4, 6 or 8 hex digits (after an optional `#`).
    InvalidColor,
    /// An output file extension other than png, jpg, jpeg or webp.
    UnsupportedExtension,
    /// An output path without an extension.
    MissingExtension,
}

/// An error, with the text it is about: the size or color given, or the
/// (lower-cased) extension that is not supported, or the path that has no
/// extension.
#[derive(Debug, PartialEq, Eq)]
pub struct Error {
    pub kind: ErrorKind,
    pub input: String,
}

} // verus!
