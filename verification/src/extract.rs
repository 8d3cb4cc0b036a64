//! What the extraction of one file's static imports yields.

use vstd::prelude::*;

verus! {

/// The outcome of resolving a file's static imports: the absolute paths of
/// the imports that resolved to regular files, and the others with the reason.
#[derive(Debug)]
pub struct ExtractResult {
    pub resolved: Vec<String>,
    pub unresolved: Vec<UnresolvedImport>,
}

/// An import that could not be resolved to a regular file.
#[derive(Debug)]
pub struct UnresolvedImport {
    pub raw: String,
    pub reason: String,
}

} // verus!
