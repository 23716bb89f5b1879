//! The failures that the note store reports.

use vstd::prelude::*;

verus! {

/// Why an operation of the note store did not complete.
#[derive(Debug, Clone, Copy, PartialEq, Eq, Structural)]
pub enum NoteError {
    /// The text is too long for one AES-GCM message, or the nonce is not 96 bits.
    Encryption,
    /// The sealed blob is shorter than a nonce.
    BlobTooShort,
    /// The authentication tag does not match: wrong key or altered blob.
    Authentication,
    /// The decrypted bytes are not valid UTF-8.
    InvalidUtf8,
    /// A record of a transfer file that the reader or the writer rejects.
    MalformedRecord,
    /// A timestamp field of the transfer file is not an RFC 3339 instant.
    InvalidTimestamp,
    /// Two rows of an import carry the same identifier.
    DuplicateId,
    /// The identifier counter is exhausted.
    StoreFull,
}

} // verus!
