use vstd::prelude::*;

verus! {

/// Why a token or a guess was rejected.
#[derive(Debug, Clone, Copy, PartialEq, Eq, Structural)]
pub enum Error {
    /// The token is not two transport-encoded segments joined by the separator.
    InvalidFormat,
    /// The token's tag does not authenticate its payload under the current key.
    TamperedOrExpiredToken,
    /// The payload is authentic but does not decompress or parse into a record.
    MalformedPayload,
    /// The guess was made against a round that is already won or failed.
    TerminalSession,
    /// The guess and the secret differ in length.
    LengthMismatch,
    /// Compressing a record failed; no input can cause this.
    InternalCompressionFailure,
    /// Writing a record's fields failed; no input can cause this.
    InternalSerializationFailure,
    /// The secret key is empty, or too long for the MAC.
    InvalidKey,
}

} // verus!
