//! Error shapes surfaced to the application's clients: contextual I/O
//! failures, vault and filesystem errors, and the structured response body.
//! The underlying system error is carried as its rendered message.

use vstd::prelude::*;

verus! {

/// Context for an I/O failure: what was attempted, on which path, and the
/// system error's message.
pub struct IoErrorContext {
    pub message: String,
    pub operation: String,
    pub path: Option<String>,
}

/// Vault-specific failures.
pub enum VaultError {
    AlreadyExists(String),
    InvalidPath(String),
    NotAccessible(String),
    NotEmpty(String),
}

/// Filesystem operation failures.
pub enum FileSystemError {
    PermissionDenied { path: String, operation: String },
    PathTraversal { attempted_path: String },
    FileTooBig { path: String, size: u64, max_size: u64 },
    InvalidFileName { name: String, reason: String },
    DiskFull,
}

/// Structured error body sent to API clients.
pub struct ErrorResponse {
    pub error: String,
    pub message: String,
    pub details: Option<String>,
    pub recovery_suggestion: Option<String>,
}

impl FileSystemError {
    /// Suggested recovery step, where one is known.
    pub fn recovery_suggestion(&self) -> (r: Option<&'static str>)
        ensures
            (*self matches FileSystemError::DiskFull) ==> (r matches Some(s) && s@
                == "Free up disk space and try again."@),
            (*self matches FileSystemError::PermissionDenied { .. }) ==> (r matches Some(s) && s@
                == "Check file permissions or run with appropriate privileges."@),
            (*self matches FileSystemError::PathTraversal { .. }) ==> r is None,
            (*self matches FileSystemError::FileTooBig { .. }) ==> r is None,
            (*self matches FileSystemError::InvalidFileName { .. }) ==> r is None,
    {
        match self {
            FileSystemError::DiskFull => Some("Free up disk space and try again."),
            FileSystemError::PermissionDenied { .. } => Some(
                "Check file permissions or run with appropriate privileges.",
            ),
            _ => None,
        }
    }
}

} // verus!
