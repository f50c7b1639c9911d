use vstd::prelude::*;

verus! {

/// Every failure the library reports. Each operation's contract says exactly
/// which variant comes back on which inputs.
#[derive(Clone, Copy, PartialEq, Eq, Structural, Debug)]
pub enum SshdConfigError {
    /// A decoded value cannot be coerced into the keyword's known type shape.
    MalformedKeyword,
    /// The managed file's fingerprint no longer matches the recorded one:
    /// the file was edited outside the tool's control.
    TamperedFile,
    /// The external validator rejected the staged candidate configuration.
    ValidationRejected,
    /// A (changed entries, update kinds) pair handed to the reconciler does
    /// not fit the base snapshot: an internal-invariant defect.
    InconsistentDiff,
    /// The committed file is in place but the daemon reload did not succeed.
    ReloadFailed,
    /// No pristine backup could be established, so no commit was attempted.
    BackupFailed,
    /// A requested keyword name is not present in the snapshot.
    UnknownKeyword,
    /// Input text does not follow the expected syntax.
    ParseError,
}

impl SshdConfigError {
    /// A short stable name for the variant, for callers that render errors.
    pub fn describe(&self) -> &'static str {
        match self {
            SshdConfigError::MalformedKeyword => "malformed keyword value",
            SshdConfigError::TamperedFile => "managed file was modified externally",
            SshdConfigError::ValidationRejected => "staged configuration was rejected by the validator",
            SshdConfigError::InconsistentDiff => "inconsistent diff handed to the reconciler",
            SshdConfigError::ReloadFailed => "configuration committed but daemon reload failed",
            SshdConfigError::BackupFailed => "could not establish a pristine backup",
            SshdConfigError::UnknownKeyword => "requested keyword is not known",
            SshdConfigError::ParseError => "input text is not well formed",
        }
    }
}

} // verus!
