//! The ways in which a proxied connection can fail.

use vstd::prelude::*;

verus! {

/// The kind of an I/O failure met while reading or writing a socket.
#[derive(Clone, Copy, Debug, PartialEq, Eq, Structural)]
pub enum IoKind {
    /// The peer closed the stream in the middle of a unit that had begun.
    UnexpectedEof,
    /// No byte can be had at present, though the stream is still open.
    WouldBlock,
    /// Any other failure of the transport.
    Other,
}

/// Why a connection was closed.
#[derive(Clone, Copy, Debug, PartialEq, Eq, Structural)]
pub enum Error {
    /// A record's content type was not `handshake`.
    MalformedRecord { content_type: u8 },
    /// A record declared more payload than the record layer allows.
    RecordTooLarge { length: u16 },
    /// The first handshake message was not a ClientHello.
    NotClientHello { handshake_type: u8 },
    /// The host name entry was cut short, empty, or not valid UTF-8.
    MalformedClientHello,
    /// The stream ended before a host name entry was found.
    NoSniHostName,
    /// The client did not finish its ClientHello in time.
    InspectionTimeout,
    /// No upstream is configured for the host name that the client sent.
    UnknownHost,
    /// The upstream could not be reached.
    UpstreamDialFailed,
    /// A read or a write failed.
    IoError(IoKind),
}

} // verus!
