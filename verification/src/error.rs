//! Fault kinds of the codec, the handshake and the store.
use vstd::prelude::*;

verus! {

/// What can go wrong while serving a connection.
///
/// The codec kinds (`Truncated`, `EndOfStream`, `Encoding`,
/// `EncodingArity`), the handshake kinds (`ProtocolMagic`,
/// `ProtocolVersion`) and `Unsupported` are fatal to the connection;
/// `StoreIO` is reported in-band where a build failed.
#[derive(Clone, Copy, Debug, PartialEq, Eq, Structural)]
pub enum Error {
    /// A value ended before all its bytes arrived.
    Truncated,
    /// The stream ended cleanly right where a value would have begun.
    EndOfStream,
    /// A string's bytes are not valid UTF-8.
    Encoding,
    /// A sequence encoder was handed more or fewer elements than declared.
    EncodingArity,
    /// The first handshake word was not the client magic number.
    ProtocolMagic,
    /// The client's protocol version cannot be served.
    ProtocolVersion,
    /// An operation or stderr-message tag is unknown, or known
    /// but not served.
    Unsupported,
    /// A filesystem or archive failure during ingest or build.
    StoreIO,
}

impl Error {
    /// A short diagnostic name for the fault.
    pub fn message(&self) -> (r: &'static str)
        ensures
            r@ == self.spec_message(),
    {
        match self {
            Error::Truncated => "truncated value",
            Error::EndOfStream => "end of stream",
            Error::Encoding => "invalid string encoding",
            Error::EncodingArity => "sequence length mismatch",
            Error::ProtocolMagic => "protocol magic mismatch",
            Error::ProtocolVersion => "protocol version mismatch",
            Error::Unsupported => "unsupported operation",
            Error::StoreIO => "store i/o failure",
        }
    }

    pub open spec fn spec_message(&self) -> Seq<char> {
        match self {
            Error::Truncated => "truncated value"@,
            Error::EndOfStream => "end of stream"@,
            Error::Encoding => "invalid string encoding"@,
            Error::EncodingArity => "sequence length mismatch"@,
            Error::ProtocolMagic => "protocol magic mismatch"@,
            Error::ProtocolVersion => "protocol version mismatch"@,
            Error::Unsupported => "unsupported operation"@,
            Error::StoreIO => "store i/o failure"@,
        }
    }
}

} // verus!
