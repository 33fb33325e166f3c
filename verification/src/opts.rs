//! What a run is asked to do.

use std::path::PathBuf;
use vstd::prelude::*;

verus! {

/// `std::path::PathBuf`, carried through unread.
#[verifier::external_type_specification]
#[verifier::external_body]
pub struct ExPathBuf(PathBuf);

/// What to patch, and the paths to set.
pub struct Opts {
    /// Binary to patch
    pub bin: PathBuf,
    /// New runtime path
    pub set_runpath: Option<String>,
    /// New interpreter path
    pub set_interpreter: Option<String>,
}

} // verus!
