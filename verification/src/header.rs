//! The header that starts every XRCE message.
//!
//! ```text
//! 0                8               16               24               31
//! +----------------+--------+-------+----------------+----------------+
//! |    sessionId   |     streamId   |            sequenceNr           |
//! +----------------+----------------+----------------+----------------+
//! |                  clientKey (if sessionId <= 127)                  |
//! +----------------+--------+-------+----------------+----------------+
//! ```
use vstd::prelude::*;
use crate::error::Error;
use crate::micro_cdr::{
    CdrStream, Decoder, Encoder, NATIVE_ENDIANNESS, wire_bytes, lemma_wire_roundtrip,
    lemma_fits_width, lemma_le_bytes_len,
};

verus! {

/// Number of bytes of a client key.
pub const CLIENT_KEY_SIZE: usize = 4;

/// Session ids from this one on belong to sessions whose messages carry no client key.
pub const SESSION_ID_WITHOUT_CLIENT_KEY: u8 = 0x80;

/// The key by which an agent knows a client.
pub type ClientKey = [u8; 4];

/// The header of a message: the session and the stream it belongs to, its
/// number in the stream and, for sessions that send it, the key of the client.
#[derive(Debug, PartialEq, Eq, Clone, Copy)]
pub struct MessageHeader {
    pub session_id: u8,
    pub stream_id: u8,
    pub sequence_num: u16,
    pub key: Option<ClientKey>,
}

impl MessageHeader {
    /// The key is there exactly if the session id asks for one.
    pub open spec fn wf(&self) -> bool {
        self.key is Some <==> self.session_id < SESSION_ID_WITHOUT_CLIENT_KEY
    }

    /// The bytes of the key, none where there is no key.
    pub open spec fn key_bytes(&self) -> Seq<u8> {
        match self.key {
            Some(k) => k@,
            None => Seq::empty(),
        }
    }

    /// The number of bytes the header takes on the wire.
    pub open spec fn wire_size(&self) -> nat {
        if self.key is Some { 8 } else { 4 }
    }

    /// The header on the wire: the two ids, the sequence number, the key if there is one.
    pub open spec fn encoding(&self, order: crate::Endianness) -> Seq<u8> {
        seq![self.session_id, self.stream_id] + wire_bytes(order, self.sequence_num as nat, 2)
            + self.key_bytes()
    }

    /// The stream `s` after this header is written to it.
    pub open spec fn written(&self, s: CdrStream) -> CdrStream {
        let t = s.put_u8(self.session_id).put_u8(self.stream_id).put_unsigned(
            self.sequence_num as nat,
            2,
        );
        match self.key {
            Some(k) => t.put_u8(k@[0]).put_u8(k@[1]).put_u8(k@[2]).put_u8(k@[3]),
            None => t,
        }
    }

    /// The stream `s` after the two ids and the sequence number are read from it.
    pub open spec fn after_ids(s: CdrStream) -> CdrStream {
        s.skip(1, 1).skip(1, 1).skip(2, 2)
    }

    /// The stream `s` after a header is read from it: past the ids and the
    /// sequence number, and past the key where the session id asks for one.
    pub open spec fn after_read(s: CdrStream) -> CdrStream {
        let t = Self::after_ids(s);
        if t.ok() && s.peek_u8() < SESSION_ID_WITHOUT_CLIENT_KEY {
            t.skip(1, 1).skip(1, 1).skip(1, 1).skip(1, 1)
        } else {
            t
        }
    }

    /// This header is the one that starts at the cursor of `s`.
    pub open spec fn is_read(&self, s: CdrStream) -> bool {
        &&& self.session_id == s.peek_u8()
        &&& self.stream_id == s.skip(1, 1).peek_u8()
        &&& self.sequence_num == s.skip(1, 1).skip(1, 1).peek_unsigned(2)
        &&& self.wf()
        &&& self.key is Some ==> self.key_bytes() == Self::after_ids(s).peek(1, 4)
    }

    /// A header with the given fields.
    pub fn new(session_id: u8, stream_id: u8, seq_num: u16, key: Option<ClientKey>) -> (header:
        Self)
        ensures
            header.session_id == session_id,
            header.stream_id == stream_id,
            header.sequence_num == seq_num,
            header.key == key,
    {
        MessageHeader { session_id, stream_id, sequence_num: seq_num, key }
    }

    /// Writes the header: session id, stream id, sequence number and, if
    /// there is one, the four bytes of the key. Stops at the first field
    /// that finds no room.
    pub fn serialize(&self, encoder: &mut Encoder) -> (r: Result<(), Error>)
        requires
            old(encoder).wf(),
        ensures
            final(encoder).wf(),
            final(final(encoder).buf)@ == final(old(encoder).buf)@,
            final(encoder).capacity() == old(encoder).capacity(),
            final(encoder).is_stream(r, self.written(old(encoder).stream())),
    {
        encoder.serialize_u8(self.session_id)?;
        encoder.serialize_u8(self.stream_id)?;
        encoder.serialize_u16(self.sequence_num)?;
        if let Some(key) = self.key {
            encoder.serialize_u8(key[0])?;
            encoder.serialize_u8(key[1])?;
            encoder.serialize_u8(key[2])?;
            encoder.serialize_u8(key[3])?;
        }
        Ok(())
    }

    /// Reads a header: session id, stream id, sequence number and, where the
    /// session id is below `SESSION_ID_WITHOUT_CLIENT_KEY`, the four bytes of
    /// the key. Stops at the first field that the buffer does not hold.
    pub fn deserialize(decoder: &mut Decoder) -> (r: Result<MessageHeader, Error>)
        ensures
            final(decoder).is_stream(r, Self::after_read(old(decoder).stream())),
            r matches Ok(header) ==> header.is_read(old(decoder).stream()),
    {
        let ghost s = decoder.stream();
        let session_id = decoder.deserialize_u8()?;
        let stream_id = decoder.deserialize_u8()?;
        let sequence_num = decoder.deserialize_u16()?;
        let key = if session_id < SESSION_ID_WITHOUT_CLIENT_KEY {
            let k1 = decoder.deserialize_u8()?;
            let k2 = decoder.deserialize_u8()?;
            let k3 = decoder.deserialize_u8()?;
            let k4 = decoder.deserialize_u8()?;
            let key = [k1, k2, k3, k4];
            proof {
                assert(key@ =~= Self::after_ids(s).peek(1, 4));
            }
            Some(key)
        } else {
            None
        };
        Ok(MessageHeader { session_id, stream_id, sequence_num, key })
    }

    /// Writes the header at the start of `buf` in the native byte order and
    /// returns the number of bytes written.
    pub fn to_slice(self, buf: &mut [u8]) -> (r: Result<usize, Error>)
        ensures
            final(buf)@.len() == old(buf)@.len(),
            final(buf)@ == self.written(CdrStream::start(old(buf)@, NATIVE_ENDIANNESS)).bytes,
            match r {
                Ok(n) => {
                    &&& old(buf)@.len() >= self.wire_size()
                    &&& n == self.wire_size()
                    &&& final(buf)@ == self.encoding(NATIVE_ENDIANNESS) + old(buf)@.skip(n as int)
                },
                Err(e) => e == Error::BufferNotEnough && old(buf)@.len() < self.wire_size(),
            },
    {
        let ghost before = buf@;
        proof {
            self.lemma_written_at_start(before, NATIVE_ENDIANNESS);
        }
        let mut ucdr = Encoder::new(buf);
        match self.serialize(&mut ucdr) {
            Ok(()) => Ok(ucdr.finalize()),
            Err(e) => Err(e),
        }
    }

    /// Reads the header at the start of `buf` in the native byte order.
    pub fn from_slice(buf: &[u8]) -> (r: Result<MessageHeader, Error>)
        ensures
            match r {
                Ok(header) => {
                    &&& buf@.len() >= header.wire_size()
                    &&& header.wf()
                    &&& header.encoding(NATIVE_ENDIANNESS) == buf@.subrange(
                        0,
                        header.wire_size() as int,
                    )
                },
                Err(e) => {
                    &&& e == Error::BufferNotEnough
                    &&& buf@.len() < 4 || (buf@[0] < SESSION_ID_WITHOUT_CLIENT_KEY && buf@.len()
                        < 8)
                },
            },
    {
        let mut ucdr = Decoder::new(buf);
        let r = MessageHeader::deserialize(&mut ucdr);
        proof {
            if let Ok(header) = r {
                header.lemma_read_at_start(buf@, NATIVE_ENDIANNESS);
            }
        }
        r
    }

    /// A header written at the start of a buffer takes its first `wire_size`
    /// bytes, which then hold its encoding, if the buffer is that long, and
    /// finds no room for some field if it is shorter.
    pub proof fn lemma_written_at_start(&self, bytes: Seq<u8>, order: crate::Endianness)
        ensures
            ({
                let s = self.written(CdrStream::start(bytes, order));
                &&& s.ok() <==> bytes.len() >= self.wire_size()
                &&& s.ok() ==> s.offset == self.wire_size() && s.bytes == self.encoding(order)
                    + bytes.skip(self.wire_size() as int)
            }),
    {
        lemma_le_bytes_len(self.sequence_num as nat, 2);
    }

    /// A header whose encoding starts a buffer has the session id in byte
    /// 0 and, if it has a key, the key in bytes 4 to 7.
    pub proof fn lemma_encoding_bytes(&self, bytes: Seq<u8>)
        requires
            bytes.len() >= self.wire_size(),
            self.encoding(NATIVE_ENDIANNESS) == bytes.subrange(0, self.wire_size() as int),
        ensures
            bytes[0] == self.session_id,
            bytes[1] == self.stream_id,
            self.key is Some ==> self.key_bytes() == bytes.subrange(4, 8),
    {
        let e = self.encoding(NATIVE_ENDIANNESS);
        let b = bytes.subrange(0, self.wire_size() as int);
        lemma_le_bytes_len(self.sequence_num as nat, 2);
        assert(e[0] == b[0]);
        assert(e[1] == b[1]);
        if self.key is Some {
            assert(self.key_bytes() =~= bytes.subrange(4, 8)) by {
                assert forall|i: int| 0 <= i < 4 implies self.key_bytes()[i] == bytes.subrange(
                    4,
                    8,
                )[i] by {
                    assert(e[4 + i] == b[4 + i]);
                }
            }
        }
    }

    /// A header read at the start of a buffer has the first bytes of the buffer as its encoding.
    pub proof fn lemma_read_at_start(&self, bytes: Seq<u8>, order: crate::Endianness)
        requires
            Self::after_read(CdrStream::start(bytes, order)).ok(),
            self.is_read(CdrStream::start(bytes, order)),
        ensures
            bytes.len() >= self.wire_size(),
            self.encoding(order) == bytes.subrange(0, self.wire_size() as int),
    {
        let s = CdrStream::start(bytes, order);
        crate::micro_cdr::lemma_wire_bytes_of_value(order, s.skip(1, 1).skip(1, 1).peek(2, 2));
    }

    /// A header whose key is there exactly if its session id asks for one,
    /// written at the start of a buffer and read back from there in the same
    /// byte order, is the header that was written.
    pub proof fn lemma_roundtrip(&self, other: &Self, bytes: Seq<u8>, order: crate::Endianness)
        requires
            self.wf(),
            bytes.len() >= self.wire_size(),
            other.is_read(self.written(CdrStream::start(bytes, order)).rewind()),
        ensures
            Self::after_read(self.written(CdrStream::start(bytes, order)).rewind()).ok(),
            other.session_id == self.session_id,
            other.stream_id == self.stream_id,
            other.sequence_num == self.sequence_num,
            other.key is Some <==> self.key is Some,
            other.key_bytes() == self.key_bytes(),
    {
        let w = self.written(CdrStream::start(bytes, order));
        lemma_fits_width(self.sequence_num as nat);
        lemma_wire_roundtrip(order, self.sequence_num as nat, 2);
        let r = w.rewind();
        assert(r.skip(1, 1).skip(1, 1).peek(2, 2) =~= wire_bytes(
            order,
            self.sequence_num as nat,
            2,
        ));
    }
}

} // verus!
