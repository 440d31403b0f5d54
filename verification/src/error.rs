//! The ways in which grid detection and extraction can fail.

use vstd::prelude::*;

verus! {

/// Why a picture could not be processed.
#[derive(Debug, PartialEq, Eq)]
pub enum FpcError {
    /// No opaque pixel was met while looking for the named edge of the
    /// border (`"left"`, `"right"`, `"top"` or `"bottom"`).
    MissingBorder(&'static str),
    /// No blank pixel was met while measuring the thickness of the border.
    BlankNotFound,
    /// The picture could not be decoded or encoded; the text is the codec's
    /// own message.
    ImageError(String),
    /// A fallback for failures that have no kind of their own.
    Unknown,
}

} // verus!
