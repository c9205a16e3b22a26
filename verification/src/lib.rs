//! Client runtime for the XRCE wire protocol: a MicroCDR codec over caller
//! supplied buffers, the message schema, a byte-stuffed CRC-16 framing
//! transport for serial links, and the session that ties them together.
use vstd::prelude::*;

pub mod communication;
pub mod error;
pub mod header;
pub mod micro_cdr;
pub mod serial;
pub mod session;
pub mod stream_id;
pub mod submessage;
pub mod time;
pub mod types;

verus! {

/// Minimum time, in milliseconds, that one connection attempt waits for a reply.
pub const MIN_SESSION_CONNECTION_INTERVAL: i32 = 1000;

/// Number of times the `CREATE_CLIENT` message is sent before giving up.
pub const MAX_SESSION_CONNECTION_ATTEMPTS: usize = 10;

/// Byte order of multi-byte values in a CDR stream.
#[derive(PartialEq, Eq, Clone, Copy, Debug, Structural)]
pub enum Endianness {
    BigEndianness,
    LittleEndianness,
}

/// Failures of the transport and of the session.
#[derive(PartialEq, Eq, Clone, Copy, Debug, Structural)]
pub enum Error {
    /// The link accepted only this many payload bytes of a frame.
    PartWritten(usize),
    /// A frame arrived from an address other than the agent's.
    RemoteAddrError,
    /// The time budget ran out before a frame arrived.
    Timeout,
    /// The platform reported a failure of the serial link.
    IoError,
    /// The agent answered the handshake with a negative status.
    Denied,
    /// A received message could not be decoded or was not meant for this session.
    InvalidData,
    /// The agent speaks another protocol version or is of another vendor.
    Incompatible,
}

/// The result of an operation of the transport or of the session.
pub type Result<T> = core::result::Result<T, Error>;

} // verus!
