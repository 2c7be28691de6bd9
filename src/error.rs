//! What can go wrong while bundling.

use vstd::prelude::*;

verus! {

/// A bundling failure, with the resource involved.
#[derive(Debug, PartialEq, Eq)]
pub enum BundleError {
    /// A file that was looked for is not in the source tree.
    PathNotFound { path: String },
    /// A source file does not parse.
    ParseError { path: String, message: String },
    /// Modules nest deeper than the source tree has files: a module
    /// declaration leads back to a file that is being expanded.
    ModuleCycle { path: String },
    /// A name that must become an identifier is not one.
    InvalidName { name: String },
    /// A fixed pattern or attribute text failed to parse.
    Internal { message: String },
}

} // verus!
