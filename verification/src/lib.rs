//! The core of an SNI-routing TLS proxy, free of I/O.
//!
//! A client's first bytes are read through a stack of byte streams: a
//! [`RecordingReader`] keeps a tape of every byte taken from the client, a
//! [`HandshakeRecordReader`] strips the TLS record framing, and
//! [`read_sni_host_name_from_client_hello`] walks the ClientHello, through a
//! [`ParserCursor`], to the `server_name` extension. [`inspect_stream`] puts
//! the three together. [`Connection`] decides what becomes of one proxied
//! connection from the events that the caller's sockets and timers produce,
//! with a [`HostMapping`] to tell the upstream of a host name.

pub mod client_hello;
pub mod connection;
pub mod cursor;
pub mod error;
pub mod inspection;
pub mod mapping;
pub mod record;
pub mod recording;
pub mod stream;
pub mod wire;

pub use client_hello::read_sni_host_name_from_client_hello;
pub use connection::{Action, Connection, Event, Phase};
pub use cursor::ParserCursor;
pub use error::{Error, IoKind};
pub use inspection::inspect_stream;
pub use mapping::HostMapping;
pub use record::{HandshakeRecordReader, RecordReaderState};
pub use recording::RecordingReader;
pub use stream::{ByteStream, MemoryStream};
