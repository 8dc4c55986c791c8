//! Resolves short template names ("rust", "node") into ignore-file text.
//!
//! Three namespaces overlap: templates cached from a remote listing,
//! templates the user wrote locally, and user-defined aliases that expand
//! to other names. The resolution engine merges them with a fixed
//! precedence (user template, then alias, then remote template) and
//! concatenates the chosen contents in request order. A separate detector
//! matches a directory listing against declarative rules to suggest
//! applicable template names.

use vstd::prelude::*;

pub mod cli;
pub mod data;
pub mod detector;
pub mod ignore;
pub mod strutil;
pub mod user_data;

verus! {

/// Why a namespace store could not be built from its backing sources.
pub enum StoreError {
    /// The remote cache is missing or failed to parse; a refresh is due.
    CacheUnavailable,
    /// The user configuration exists but failed to parse; it must be
    /// surfaced, never silently overwritten.
    UserConfigCorrupt,
}

impl StoreError {
    /// A short human-readable description of the failure.
    pub fn message(&self) -> (r: &'static str)
        ensures
            *self is CacheUnavailable ==> r@ == "cache is missing or unreadable, run an update"@,
            *self is UserConfigCorrupt ==> r@ == "user configuration could not be parsed"@,
    {
        match self {
            StoreError::CacheUnavailable => "cache is missing or unreadable, run an update",
            StoreError::UserConfigCorrupt => "user configuration could not be parsed",
        }
    }
}

} // verus!
