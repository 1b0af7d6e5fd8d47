//! The error kinds that the library's operations report.

use vstd::prelude::*;

verus! {

/// Every failure the library can report to a caller.
#[derive(Clone, Copy, Debug, PartialEq, Eq, Structural)]
pub enum JournalError {
    /// The buffer is shorter than the lengths its header declares.
    MalformedHeader,
    /// The key string's byte length lies outside [8, 32].
    KeyInvalid,
    /// Decryption was requested but no key was supplied.
    MissingKey,
    /// The AEAD tag did not verify: wrong key or corrupted data.
    AuthenticationFailed,
    /// An underlying read, write, network or entropy fault.
    IoFailure,
    /// The remote manifest was not found; callers recover with an empty one.
    RemoteManifestUnavailable,
}

impl JournalError {
    /// A short description of the error, for display by callers.
    pub fn message(&self) -> (r: &'static str)
        ensures
            match self {
                JournalError::MalformedHeader => r@ == "malformed header"@,
                JournalError::KeyInvalid => r@ == "key length must be between 8 and 32 bytes"@,
                JournalError::MissingKey => r@ == "key required for encrypted file"@,
                JournalError::AuthenticationFailed => r@ == "authentication failed"@,
                JournalError::IoFailure => r@ == "input/output failure"@,
                JournalError::RemoteManifestUnavailable => r@ == "remote manifest unavailable"@,
            },
    {
        match self {
            JournalError::MalformedHeader => "malformed header",
            JournalError::KeyInvalid => "key length must be between 8 and 32 bytes",
            JournalError::MissingKey => "key required for encrypted file",
            JournalError::AuthenticationFailed => "authentication failed",
            JournalError::IoFailure => "input/output failure",
            JournalError::RemoteManifestUnavailable => "remote manifest unavailable",
        }
    }
}

} // verus!
