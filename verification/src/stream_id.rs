//! Classification of the stream id byte of a message header.
//!
//! Id 0 is the stream without ordering, ids 1 to 127 are the best-effort
//! streams, ids 128 to 255 the reliable ones. Within its class a stream is
//! known by its index, counted from 0.
use vstd::prelude::*;

verus! {

/// The first id of a best-effort stream.
pub const BEST_EFFORT_STREAM_THRESHOLD: u8 = 1;

/// The first id of a reliable stream.
pub const RELIABLE_STREAM_THRESHOLD: u8 = 128;

/// The class of a stream, which says how its messages are ordered and recovered.
#[derive(Debug, Clone, Copy, PartialEq, Eq, Structural)]
pub enum StreamType {
    NoneStream,
    BestEffortStream,
    ReliableStream,
    /// Never found on the wire.
    SharedMemoryStream,
}

/// Whether a stream brings messages in or takes them out.
#[derive(Debug, Clone, Copy, PartialEq, Eq, Structural)]
pub enum StreamDirection {
    InputStream,
    OutputStream,
}

/// A stream of a session: its id byte, the class and index that the byte
/// stands for, and its direction, which the byte does not tell.
#[derive(Debug, Clone, Copy, PartialEq, Eq, Structural)]
pub struct StreamId {
    pub raw: u8,
    pub index: u8,
    pub type_u: StreamType,
    pub direction: StreamDirection,
}

/// The class of the stream with the given id.
pub open spec fn type_of_raw(raw: u8) -> StreamType {
    if raw < BEST_EFFORT_STREAM_THRESHOLD {
        StreamType::NoneStream
    } else if raw < RELIABLE_STREAM_THRESHOLD {
        StreamType::BestEffortStream
    } else {
        StreamType::ReliableStream
    }
}

/// The index, within its class, of the stream with the given id.
pub open spec fn index_of_raw(raw: u8) -> u8 {
    if raw < BEST_EFFORT_STREAM_THRESHOLD {
        raw
    } else if raw < RELIABLE_STREAM_THRESHOLD {
        (raw - BEST_EFFORT_STREAM_THRESHOLD) as u8
    } else {
        (raw - RELIABLE_STREAM_THRESHOLD) as u8
    }
}

/// The id of the stream of the given class and index. The stream without
/// ordering and the shared-memory stream have id 0.
pub open spec fn raw_of(type_u: StreamType, index: u8) -> int {
    match type_u {
        StreamType::NoneStream => 0,
        StreamType::BestEffortStream => index + BEST_EFFORT_STREAM_THRESHOLD,
        StreamType::ReliableStream => index + RELIABLE_STREAM_THRESHOLD,
        StreamType::SharedMemoryStream => 0,
    }
}

/// The class has a stream of the given index: the id made of them is that
/// of a stream of the class.
pub open spec fn has_index(type_u: StreamType, index: u8) -> bool {
    match type_u {
        StreamType::NoneStream => true,
        StreamType::BestEffortStream => index + BEST_EFFORT_STREAM_THRESHOLD
            < RELIABLE_STREAM_THRESHOLD,
        StreamType::ReliableStream => index + RELIABLE_STREAM_THRESHOLD <= u8::MAX,
        StreamType::SharedMemoryStream => true,
    }
}

impl StreamId {
    /// The id was made by classifying its `raw` byte.
    pub open spec fn classified(&self) -> bool {
        self.type_u == type_of_raw(self.raw) && self.index == index_of_raw(self.raw)
    }

    /// The stream of the given class and index.
    pub fn new(index: u8, type_u: StreamType, direction: StreamDirection) -> (id: Self)
        requires
            has_index(type_u, index),
        ensures
            id.raw == raw_of(type_u, index),
            id.index == index,
            id.type_u == type_u,
            id.direction == direction,
    {
        StreamId {
            raw: match type_u {
                StreamType::NoneStream => 0,
                StreamType::BestEffortStream => index + BEST_EFFORT_STREAM_THRESHOLD,
                StreamType::ReliableStream => index + RELIABLE_STREAM_THRESHOLD,
                StreamType::SharedMemoryStream => 0,
            },
            index,
            type_u,
            direction,
        }
    }

    /// The stream with the given id byte, in the direction the caller says.
    pub fn from_raw(stream_id_raw: u8, direction: StreamDirection) -> (id: Self)
        ensures
            id.raw == stream_id_raw,
            id.type_u == type_of_raw(stream_id_raw),
            id.index == index_of_raw(stream_id_raw),
            id.direction == direction,
            id.classified(),
            id.type_u != StreamType::SharedMemoryStream,
    {
        let (index, type_u) = if BEST_EFFORT_STREAM_THRESHOLD > stream_id_raw {
            (stream_id_raw, StreamType::NoneStream)
        } else if RELIABLE_STREAM_THRESHOLD > stream_id_raw {
            (stream_id_raw - BEST_EFFORT_STREAM_THRESHOLD, StreamType::BestEffortStream)
        } else {
            (stream_id_raw - RELIABLE_STREAM_THRESHOLD, StreamType::ReliableStream)
        };
        StreamId { raw: stream_id_raw, index, type_u, direction }
    }
}

/// Every id byte is the id of the stream that it is classified as.
pub proof fn lemma_raw_of_classified(raw: u8)
    ensures
        has_index(type_of_raw(raw), index_of_raw(raw)),
        raw_of(type_of_raw(raw), index_of_raw(raw)) == raw,
{
}

/// A best-effort or reliable stream made of a class and an index that the
/// class has is classified as that class and index.
pub proof fn lemma_classified_raw_of(type_u: StreamType, index: u8)
    requires
        type_u == StreamType::BestEffortStream || type_u == StreamType::ReliableStream,
        has_index(type_u, index),
    ensures
        type_of_raw(raw_of(type_u, index) as u8) == type_u,
        index_of_raw(raw_of(type_u, index) as u8) == index,
{
}

} // verus!
