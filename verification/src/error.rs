//! The errors of repository operations.
use vstd::prelude::*;

verus! {

/// Why an operation failed. Failures of the file system and of parsing stored objects are
/// carried as their message text.
#[derive(Debug)]
pub enum VaultError {
    NotARepo,
    ObjectNotFound(String),
    BranchNotFound(String),
    BranchExists(String),
    NothingToUndo,
    Io(String),
    Json(String),
    AlreadyInit(String),
}

/// `e` reports that the object `h` is missing.
pub open spec fn is_not_found(e: VaultError, h: Seq<char>) -> bool {
    e matches VaultError::ObjectNotFound(x) && x@ == h
}

/// `e` reports that the branch `n` is missing.
pub open spec fn is_branch_not_found(e: VaultError, n: Seq<char>) -> bool {
    e matches VaultError::BranchNotFound(x) && x@ == n
}

/// The message that an error shows.
pub open spec fn error_message(e: VaultError) -> Seq<char> {
    match e {
        VaultError::NotARepo => "Not a vault repository (no .vault directory found)"@,
        VaultError::ObjectNotFound(s) => "Object Not found: "@ + s@,
        VaultError::BranchNotFound(s) => "Branch not found: "@ + s@,
        VaultError::BranchExists(_) => "Branch already exists"@,
        VaultError::NothingToUndo => "Nothing to undo - operation log is empty"@,
        VaultError::Io(s) => "IO error: "@ + s@,
        VaultError::Json(s) => "Serialization error: "@ + s@,
        VaultError::AlreadyInit(s) => "Repository already initialised at "@ + s@,
    }
}

impl VaultError {
    /// The message that the error shows.
    pub fn message(&self) -> (r: String)
        ensures
            r@ == error_message(*self),
    {
        match self {
            VaultError::NotARepo => crate::text::owned(
                "Not a vault repository (no .vault directory found)",
            ),
            VaultError::ObjectNotFound(s) => crate::text::concat("Object Not found: ", s.as_str()),
            VaultError::BranchNotFound(s) => crate::text::concat("Branch not found: ", s.as_str()),
            VaultError::BranchExists(_) => crate::text::owned("Branch already exists"),
            VaultError::NothingToUndo => crate::text::owned(
                "Nothing to undo - operation log is empty",
            ),
            VaultError::Io(s) => crate::text::concat("IO error: ", s.as_str()),
            VaultError::Json(s) => crate::text::concat("Serialization error: ", s.as_str()),
            VaultError::AlreadyInit(s) => crate::text::concat(
                "Repository already initialised at ",
                s.as_str(),
            ),
        }
    }
}

} // verus!
