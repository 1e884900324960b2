//! Checks over a crate graph: the lint levels, and the helpers that the
//! checks share (sorted-slice search, content hashing, crate records).

pub mod hash;
pub mod krate;
pub mod search;
pub mod sort;
pub mod text;

pub use krates::DepKind;
pub use semver::Version;
pub use crate::krate::Kid;
pub use crate::krate::Krate;
pub use crate::hash::hash;
pub use crate::search::binary_search;
pub use crate::search::contains;
pub use crate::search::binary_search_str;
pub use crate::search::contains_str;

use vstd::prelude::*;

verus! {

/// The possible lint levels for the various lints. These function similarly
/// to the standard Rust lint levels.
#[derive(PartialEq, Eq, Structural, Clone, Copy, Debug)]
pub enum LintLevel {
    /// A debug or info diagnostic _may_ be emitted if the lint is violated
    Allow,
    /// A warning will be emitted if the lint is violated, but the command
    /// will succeed
    Warn,
    /// An error will be emitted if the lint is violated, and the command
    /// will fail with a non-zero exit code
    Deny,
}

impl Default for LintLevel {
    /// A lint that is not configured warns.
    fn default() -> (r: Self)
        ensures
            r == LintLevel::Warn,
    {
        LintLevel::Warn
    }
}

/// The level used where a configuration leaves a warning lint unset.
pub fn lint_warn() -> (r: LintLevel)
    ensures
        r == LintLevel::Warn,
{
    LintLevel::Warn
}

/// The level used where a configuration leaves a denying lint unset.
pub fn lint_deny() -> (r: LintLevel)
    ensures
        r == LintLevel::Deny,
{
    LintLevel::Deny
}

} // verus!
