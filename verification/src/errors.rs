//! The error kinds of the pipeline. Every error aborts the run: there is no
//! retry and no partial rendering.

use vstd::prelude::*;

verus! {

/// Everything that can go wrong between configuration and rendering.
#[derive(Debug, Clone, PartialEq, Eq)]
pub enum Error {
    /// JSON output and explicit color (or body) output were both requested.
    ConflictingOutputMode,
    /// A filter pattern is not a valid regular expression; carries the pattern.
    InvalidPattern(String),
    /// The HTTP request itself failed; carries the target URL and the cause.
    RequestFailed(String, String),
    /// A response header value is not displayable text; carries the header name.
    HeaderDecodeError(String),
}

} // verus!
