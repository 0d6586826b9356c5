//! The closed set of failures that repository operations report.
use vstd::prelude::*;
use vstd::string::StringExecFns;

verus! {

/// Every failure a repository command can report, as a typed value.
/// Callers branch on the variant; `message` renders the fixed wording.
#[derive(Debug, PartialEq, Eq)]
pub enum GitError {
    /// Repository layout could not be created.
    GitInitError(String),
    /// The HEAD file could not be set up.
    InitHeadError(String),
    /// A path could not be staged for addition.
    StagedAddError(String),
    /// A path could not be staged for removal.
    StagedRemoveError(String),
    /// Removal was requested for a path that is neither staged nor tracked.
    StagedRemoveNoReasonError,
    /// Commit construction failed at the storage layer.
    CommitError(String),
    /// A commit was attempted with a blank message.
    EmptyMessageError,
    /// A commit was attempted while both staging sets were empty.
    NothingToCommitError,
    /// A branch with the requested name already exists.
    BranchError(String),
    /// An operand path does not exist.
    FileNotExistError(String),
    /// An underlying file operation failed.
    FileOpError(String),
    /// Persisted data could not be encoded or decoded.
    SerdeOpError(String),
    /// A digest could not be computed.
    CryptoError(String),
}

impl GitError {
    /// The wording of each variant, stated over views.
    pub open spec fn spec_message(&self) -> Seq<char> {
        match self {
            GitError::GitInitError(s) => "init : "@ + s@,
            GitError::InitHeadError(s) => "head : "@ + s@,
            GitError::StagedAddError(s) => "add : "@ + s@,
            GitError::StagedRemoveError(s) => "rm : "@ + s@,
            GitError::StagedRemoveNoReasonError => "No reason to remove the file"@,
            GitError::CommitError(s) => "commit : "@ + s@,
            GitError::EmptyMessageError => "Please enter a commit message."@,
            GitError::NothingToCommitError => "No changes added to the commit."@,
            GitError::BranchError(s) => "branch : "@ + s@,
            GitError::FileNotExistError(s) => "File "@ + s@ + " does not exist."@,
            GitError::FileOpError(s) => "file op fatal: "@ + s@,
            GitError::SerdeOpError(s) => "serialized/deserialized fatal: "@ + s@,
            GitError::CryptoError(s) => "crypto error: "@ + s@,
        }
    }

    /// The fixed, user-visible wording of this failure.
    pub fn message(&self) -> (r: String)
        ensures
            r@ == self.spec_message(),
    {
        match self {
            GitError::GitInitError(s) => {
                let mut m = String::from_str("init : ");
                m.append(s.as_str());
                m
            },
            GitError::InitHeadError(s) => {
                let mut m = String::from_str("head : ");
                m.append(s.as_str());
                m
            },
            GitError::StagedAddError(s) => {
                let mut m = String::from_str("add : ");
                m.append(s.as_str());
                m
            },
            GitError::StagedRemoveError(s) => {
                let mut m = String::from_str("rm : ");
                m.append(s.as_str());
                m
            },
            GitError::StagedRemoveNoReasonError => String::from_str(
                "No reason to remove the file",
            ),
            GitError::CommitError(s) => {
                let mut m = String::from_str("commit : ");
                m.append(s.as_str());
                m
            },
            GitError::EmptyMessageError => String::from_str("Please enter a commit message."),
            GitError::NothingToCommitError => String::from_str("No changes added to the commit."),
            GitError::BranchError(s) => {
                let mut m = String::from_str("branch : ");
                m.append(s.as_str());
                m
            },
            GitError::FileNotExistError(s) => {
                let mut m = String::from_str("File ");
                m.append(s.as_str());
                m.append(" does not exist.");
                m
            },
            GitError::FileOpError(s) => {
                let mut m = String::from_str("file op fatal: ");
                m.append(s.as_str());
                m
            },
            GitError::SerdeOpError(s) => {
                let mut m = String::from_str("serialized/deserialized fatal: ");
                m.append(s.as_str());
                m
            },
            GitError::CryptoError(s) => {
                let mut m = String::from_str("crypto error: ");
                m.append(s.as_str());
                m
            },
        }
    }
}

} // verus!
