//! A library for a one-shot HTTP header inspector: it validates the run
//! configuration, compiles header-name filters, orders response headers
//! deterministically, and renders them as styled text or as one JSON object.
//!
//! The pieces, leaf to root: `filter` compiles a comma-separated filter
//! expression into case-insensitive regular expressions; `headers` applies
//! them to the raw response headers, decodes the values and sorts the kept
//! entries; `render` and `json` turn the ordered entries into text; `config`
//! holds the argument set, the color-mode state machine and the validation
//! that rejects conflicting output modes before any request is made.
//! Performing the one HTTP request and writing the rendered text to the
//! output stream belong to the binary around this library.

pub mod config;
pub mod errors;
pub mod filter;
pub mod headers;
pub mod json;
pub mod render;
pub mod strutil;
