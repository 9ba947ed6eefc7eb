//! The error taxonomy of the scrape pipeline.
//!
//! Every failure of parsing, merging or metadata resolution is fatal to the
//! current scrape: no partial metrics document is ever produced.

use vstd::prelude::*;

verus! {

/// A typed scrape failure.
#[derive(Debug, Clone, Copy, PartialEq, Eq, Structural)]
pub enum WgError {
    /// A dump line matches neither the device nor the peer schema, or a
    /// numeric or enumerated field in it is invalid. Carries the index of
    /// the offending line (starting from zero).
    MalformedRecord(usize),
    /// The same interface name was queried twice.
    DuplicateInterface,
    /// A config-derived metadata blob cannot be split into sections.
    InvalidConfig,
    /// A peer comment looked like JSON (started with `{`) but is not a valid
    /// JSON object of non-empty strings, or one of its label names collides
    /// with a built-in label.
    InvalidPeerComment,
    /// The name-mapping source is not a valid JSON object of strings.
    InvalidNameMapping,
    /// The external tool failed; surfaced by the invoking layer, never
    /// produced by the pipeline itself.
    ExternalToolFailure,
}

} // verus!
