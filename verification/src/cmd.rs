//! The commands a caller can ask of a repository.
//!
//! Parsing command-line text into one of these values, running the file
//! system work around it, and printing the outcome belong to the caller;
//! the library receives the parsed value.
use vstd::prelude::*;

verus! {

/// One parsed repository command.
#[derive(Debug, PartialEq, Eq)]
pub enum GitCommand {
    /// Create an empty repository, or leave an existing one as it is.
    Init {},
    /// Stage the named files for addition to the next commit.
    Add { paths: Vec<String> },
    /// Unstage the named files, or stage tracked ones for removal.
    Rm { paths: Vec<String> },
    /// Save a snapshot of the staged changes under a message.
    Commit { message: String },
    /// Report branches, staged changes and working-tree differences.
    Status {},
    /// Report the chain of commits from the current one to the root.
    Log {},
    /// Create a branch with the given name at the current commit.
    Branch { name: String },
}

} // verus!
