//! Run configuration: the parsed command-line values, the color-mode state
//! machine, and the validation that rejects conflicting output modes before
//! any request is made.

use vstd::prelude::*;
use crate::errors::Error;

verus! {

/// Color selection: a tiny state machine resolved once, before any output.
#[derive(Debug, Clone, Copy, PartialEq, Eq, Structural)]
pub enum Color {
    Always,
    Auto,
    Never,
}

/// Output shape: machine-readable JSON or styled text.
#[derive(Debug, Clone, Copy, PartialEq, Eq, Structural)]
pub enum RenderMode {
    Json,
    Text,
}

/// What `Color` resolves to, given whether the output stream can show color.
pub open spec fn spec_colorize(c: Color, stream_supports_color: bool) -> bool {
    match c {
        Color::Always => true,
        Color::Auto => stream_supports_color,
        Color::Never => false,
    }
}

impl Color {
    /// Resolves the color mode into the immutable `colorize` flag.
    /// `Always` and `Never` override; `Auto` delegates to the capability of
    /// the output stream, which the caller has detected.
    pub fn init(self, stream_supports_color: bool) -> (colorize: bool)
        ensures
            colorize == spec_colorize(self, stream_supports_color),
    {
        match self {
            Color::Always => true,
            Color::Auto => stream_supports_color,
            Color::Never => false,
        }
    }
}

/// The validated run configuration.
pub struct Args {
    /// Color mode for text output.
    pub color: Color,
    /// Comma-separated header-name patterns; `None` means no filtering.
    pub filter: Option<String>,
    /// Render as one JSON object instead of styled text.
    pub json: bool,
    /// Also display the response body (text mode only).
    pub body: bool,
    /// The URL to request.
    pub url: String,
}

/// A configuration is consistent unless JSON output is combined with an
/// explicit color choice or with body display. `Color::Auto` is the default
/// and counts as "color not requested".
pub open spec fn spec_config_ok(color: Color, json: bool, body: bool) -> bool {
    !(json && (color != Color::Auto || body))
}

impl Args {
    /// The render mode this configuration selects.
    pub fn mode(&self) -> (m: RenderMode)
        ensures
            m == (if self.json {
                RenderMode::Json
            } else {
                RenderMode::Text
            }),
    {
        if self.json {
            RenderMode::Json
        } else {
            RenderMode::Text
        }
    }

    /// Checks the configuration for conflicting output modes. This runs
    /// before any network activity; a conflict aborts the whole run.
    pub fn validate(&self) -> (r: Result<(), Error>)
        ensures
            r is Ok <==> spec_config_ok(self.color, self.json, self.body),
            r is Err ==> r matches Err(Error::ConflictingOutputMode),
    {
        if self.json && (!matches!(self.color, Color::Auto) || self.body) {
            Err(Error::ConflictingOutputMode)
        } else {
            Ok(())
        }
    }
}

} // verus!
