use vstd::prelude::*;

verus! {

/// Every failure the protocol layer reports, by kind.
#[derive(Clone, Copy, Debug, PartialEq, Eq, Structural)]
pub enum ProtocolError {
    /// Fewer bytes than a header holds.
    MalformedHeader,
    /// The frame does not open with the protocol's magic.
    BadMagic,
    /// The declared body length exceeds the largest body allowed.
    OversizedLength,
    /// Fewer bytes than the header declares.
    Truncated,
    /// More bytes than the header declares.
    TrailingBytes,
    /// The digest does not match the header and body.
    IntegrityFailure,
    /// The command code is not in the registry, or is `Unknown`.
    UnknownCommand,
    /// A ciphertext failed authentication, or a session binding did not hold.
    AuthFailure,
    /// The handshake password did not match.
    PasswordMismatch,
    /// A request that could not be understood.
    GeneralError,
}

} // verus!
