//! The header that starts every sub-message of an XRCE message.
//!
//! ```text
//! 0       4       8               16               24               31
//! +-------+-------+----------------+----------------+----------------+
//! |  submessageId |       flags    |         submessageLength        |
//! +-------+-------+----------------+----------------+----------------+
//! ```
//!
//! Bit 0 of the flags says in which byte order the sub-message is encoded (1
//! for little-endian). For `Create`, bit 1 is the reuse flag and bit 2 the
//! replace flag. For `Fragment`, bit 1 marks the last fragment. For
//! `WriteData` and `Data`, bits 1 to 7 hold the data format.
use vstd::prelude::*;
use crate::Endianness;
use crate::error::Error;
use crate::micro_cdr::{
    CdrStream, Decoder, Encoder, NATIVE_ENDIANNESS, wire_bytes, lemma_wire_roundtrip,
    lemma_fits_width, lemma_le_bytes_len,
};

verus! {

/// Number of bytes of a sub-message header.
pub const SUBHEADER_SIZE: usize = 4;

/// How the payload of a `WriteData` or `Data` sub-message is laid out.
#[derive(Debug, Clone, Copy, PartialEq, Eq, Structural)]
pub enum DataFormat {
    FormatData,
    FormatSample,
    FormatDataSeq,
    FormatSampleSeq,
    FormatPackedSamples,
}

impl DataFormat {
    /// The number that stands for the format on the wire.
    pub open spec fn code(self) -> u8 {
        match self {
            DataFormat::FormatData => 0x00,
            DataFormat::FormatSample => 0x01,
            DataFormat::FormatDataSeq => 0x04,
            DataFormat::FormatSampleSeq => 0x05,
            DataFormat::FormatPackedSamples => 0x07,
        }
    }

    /// The format that `value` stands for, if it stands for one.
    pub open spec fn of_code(value: u8) -> Option<DataFormat> {
        if value == 0x00 {
            Some(DataFormat::FormatData)
        } else if value == 0x01 {
            Some(DataFormat::FormatSample)
        } else if value == 0x04 {
            Some(DataFormat::FormatDataSeq)
        } else if value == 0x05 {
            Some(DataFormat::FormatSampleSeq)
        } else if value == 0x07 {
            Some(DataFormat::FormatPackedSamples)
        } else {
            None
        }
    }

    /// The number that stands for the format on the wire.
    pub fn to_u8(self) -> (value: u8)
        ensures
            value == self.code(),
    {
        match self {
            DataFormat::FormatData => 0x00,
            DataFormat::FormatSample => 0x01,
            DataFormat::FormatDataSeq => 0x04,
            DataFormat::FormatSampleSeq => 0x05,
            DataFormat::FormatPackedSamples => 0x07,
        }
    }

    /// The format that `value` stands for.
    pub fn try_from(value: u8) -> (r: Result<DataFormat, Error>)
        ensures
            match r {
                Ok(format) => Self::of_code(value) == Some(format),
                Err(e) => Self::of_code(value) is None && e == Error::InvalidFormat(value),
            },
    {
        match value {
            0x00 => Ok(DataFormat::FormatData),
            0x01 => Ok(DataFormat::FormatSample),
            0x04 => Ok(DataFormat::FormatDataSeq),
            0x05 => Ok(DataFormat::FormatSampleSeq),
            0x07 => Ok(DataFormat::FormatPackedSamples),
            _ => Err(Error::InvalidFormat(value)),
        }
    }

    /// Every format is the one that its number stands for.
    pub proof fn lemma_code_roundtrip(self)
        ensures
            Self::of_code(self.code()) == Some(self),
            self.code() <= 7,
    {
    }
}

/// The kind of a sub-message, the length of its payload and the flags that
/// belong to its kind.
#[derive(Debug, Clone, Copy, PartialEq, Eq, Structural)]
pub enum SubMessageHeader {
    CreateClient(u16),
    /// Length, replace, reuse.
    Create(u16, bool, bool),
    GetInfo(u16),
    Delete(u16),
    StatusAgent(u16),
    Status(u16),
    Info(u16),
    WriteData(u16, DataFormat),
    ReadData(u16),
    Data(u16, DataFormat),
    AckNack(u16),
    HeartBeat(u16),
    Reset(u16),
    /// Length, last fragment.
    Fragment(u16, bool),
    TimeStamp(u16),
    TimeStampReply(u16),
}

/// The value of a flag bit: 1 if it is set, 0 if not.
pub open spec fn bit(set: bool) -> nat {
    if set { 1 } else { 0 }
}

/// Bit 0 of the flags for the given byte order.
pub open spec fn endianness_flag(order: Endianness) -> nat {
    match order {
        Endianness::LittleEndianness => 1,
        Endianness::BigEndianness => 0,
    }
}

impl SubMessageHeader {
    /// The number that stands for the kind of sub-message on the wire.
    pub open spec fn id(self) -> u8 {
        match self {
            SubMessageHeader::CreateClient(_) => 0,
            SubMessageHeader::Create(_, _, _) => 1,
            SubMessageHeader::GetInfo(_) => 2,
            SubMessageHeader::Delete(_) => 3,
            SubMessageHeader::StatusAgent(_) => 4,
            SubMessageHeader::Status(_) => 5,
            SubMessageHeader::Info(_) => 6,
            SubMessageHeader::WriteData(_, _) => 7,
            SubMessageHeader::ReadData(_) => 8,
            SubMessageHeader::Data(_, _) => 9,
            SubMessageHeader::AckNack(_) => 10,
            SubMessageHeader::HeartBeat(_) => 11,
            SubMessageHeader::Reset(_) => 12,
            SubMessageHeader::Fragment(_, _) => 13,
            SubMessageHeader::TimeStamp(_) => 14,
            SubMessageHeader::TimeStampReply(_) => 15,
        }
    }

    /// The length of the payload that follows the header.
    pub open spec fn length(self) -> u16 {
        match self {
            SubMessageHeader::CreateClient(len) => len,
            SubMessageHeader::Create(len, _, _) => len,
            SubMessageHeader::GetInfo(len) => len,
            SubMessageHeader::Delete(len) => len,
            SubMessageHeader::StatusAgent(len) => len,
            SubMessageHeader::Status(len) => len,
            SubMessageHeader::Info(len) => len,
            SubMessageHeader::WriteData(len, _) => len,
            SubMessageHeader::ReadData(len) => len,
            SubMessageHeader::Data(len, _) => len,
            SubMessageHeader::AckNack(len) => len,
            SubMessageHeader::HeartBeat(len) => len,
            SubMessageHeader::Reset(len) => len,
            SubMessageHeader::Fragment(len, _) => len,
            SubMessageHeader::TimeStamp(len) => len,
            SubMessageHeader::TimeStampReply(len) => len,
        }
    }

    /// Bits 1 to 7 of the flags, as the number they make when bit 0 is left out.
    pub open spec fn kind_flags(self) -> nat {
        match self {
            SubMessageHeader::Create(_, replace, reuse) => 4 * bit(replace) + 2 * bit(reuse),
            SubMessageHeader::WriteData(_, format) => 2 * format.code() as nat,
            SubMessageHeader::Data(_, format) => 2 * format.code() as nat,
            SubMessageHeader::Fragment(_, last) => 2 * bit(last),
            _ => 0,
        }
    }

    /// The flags byte in a stream of the given byte order.
    pub open spec fn flags(self, order: Endianness) -> u8 {
        (self.kind_flags() + endianness_flag(order)) as u8
    }

    /// The header that the three fields of a sub-message header stand for,
    /// if they stand for one: the id names one of the sixteen kinds, and for
    /// `WriteData` and `Data` bits 1 to 7 of the flags name a data format.
    pub open spec fn of_fields(id: u8, flags: u8, len: u16) -> Result<SubMessageHeader, Error> {
        if id == 0 {
            Ok(SubMessageHeader::CreateClient(len))
        } else if id == 1 {
            Ok(SubMessageHeader::Create(len, (flags / 4) % 2 == 1, (flags / 2) % 2 == 1))
        } else if id == 2 {
            Ok(SubMessageHeader::GetInfo(len))
        } else if id == 3 {
            Ok(SubMessageHeader::Delete(len))
        } else if id == 4 {
            Ok(SubMessageHeader::StatusAgent(len))
        } else if id == 5 {
            Ok(SubMessageHeader::Status(len))
        } else if id == 6 {
            Ok(SubMessageHeader::Info(len))
        } else if id == 7 {
            match DataFormat::of_code(flags / 2) {
                Some(format) => Ok(SubMessageHeader::WriteData(len, format)),
                None => Err(Error::InvalidFormat(flags / 2)),
            }
        } else if id == 8 {
            Ok(SubMessageHeader::ReadData(len))
        } else if id == 9 {
            match DataFormat::of_code(flags / 2) {
                Some(format) => Ok(SubMessageHeader::Data(len, format)),
                None => Err(Error::InvalidFormat(flags / 2)),
            }
        } else if id == 10 {
            Ok(SubMessageHeader::AckNack(len))
        } else if id == 11 {
            Ok(SubMessageHeader::HeartBeat(len))
        } else if id == 12 {
            Ok(SubMessageHeader::Reset(len))
        } else if id == 13 {
            Ok(SubMessageHeader::Fragment(len, (flags / 2) % 2 == 1))
        } else if id == 14 {
            Ok(SubMessageHeader::TimeStamp(len))
        } else if id == 15 {
            Ok(SubMessageHeader::TimeStampReply(len))
        } else {
            Err(Error::InvalidFormat(id))
        }
    }

    /// The header on the wire, in a stream of the given byte order.
    pub open spec fn encoding(self, order: Endianness) -> Seq<u8> {
        seq![self.id(), self.flags(order)] + wire_bytes(order, self.length() as nat, 2)
    }

    /// The stream `s` after this header is written to it.
    pub open spec fn written(self, s: CdrStream) -> CdrStream {
        s.put_u8(self.id()).put_u8(self.flags(s.order)).put_unsigned(self.length() as nat, 2)
    }

    /// The stream `s` after the three fields of a header are read from it.
    pub open spec fn after_read(s: CdrStream) -> CdrStream {
        s.skip(1, 1).skip(1, 1).skip(2, 2)
    }

    /// What the three fields at the cursor of `s` stand for.
    pub open spec fn read(s: CdrStream) -> Result<SubMessageHeader, Error> {
        Self::of_fields(
            s.peek_u8(),
            s.skip(1, 1).peek_u8(),
            s.skip(1, 1).skip(1, 1).peek_unsigned(2) as u16,
        )
    }

    /// The id, the flags for the given byte order, and the length.
    pub fn fields(self, order: Endianness) -> (r: (u8, u8, u16))
        ensures
            r.0 == self.id(),
            r.1 == self.flags(order),
            r.2 == self.length(),
            self.kind_flags() + endianness_flag(order) <= 15,
    {
        let (id, flags, length): (u8, u8, u16) = match self {
            SubMessageHeader::CreateClient(len) => (0u8, 0u8, len),
            SubMessageHeader::Create(len, replace, reuse) => (
                1u8,
                (if replace { 4u8 } else { 0u8 }) + (if reuse { 2u8 } else { 0u8 }),
                len,
            ),
            SubMessageHeader::GetInfo(len) => (2u8, 0u8, len),
            SubMessageHeader::Delete(len) => (3u8, 0u8, len),
            SubMessageHeader::StatusAgent(len) => (4u8, 0u8, len),
            SubMessageHeader::Status(len) => (5u8, 0u8, len),
            SubMessageHeader::Info(len) => (6u8, 0u8, len),
            SubMessageHeader::WriteData(len, format) => (7u8, format.to_u8() * 2, len),
            SubMessageHeader::ReadData(len) => (8u8, 0u8, len),
            SubMessageHeader::Data(len, format) => (9u8, format.to_u8() * 2, len),
            SubMessageHeader::AckNack(len) => (10u8, 0u8, len),
            SubMessageHeader::HeartBeat(len) => (11u8, 0u8, len),
            SubMessageHeader::Reset(len) => (12u8, 0u8, len),
            SubMessageHeader::Fragment(len, last) => (13u8, if last { 2u8 } else { 0u8 }, len),
            SubMessageHeader::TimeStamp(len) => (14u8, 0u8, len),
            SubMessageHeader::TimeStampReply(len) => (15u8, 0u8, len),
        };
        let marker: u8 = match order {
            Endianness::LittleEndianness => 1u8,
            Endianness::BigEndianness => 0u8,
        };
        (id, flags + marker, length)
    }

    /// The header that the three fields stand for. An id above 15, and for
    /// `WriteData` and `Data` a format that is none, is refused.
    pub fn from_fields(id: u8, flags: u8, len: u16) -> (r: Result<SubMessageHeader, Error>)
        ensures
            r == Self::of_fields(id, flags, len),
    {
        match id {
            0 => Ok(SubMessageHeader::CreateClient(len)),
            1 => Ok(SubMessageHeader::Create(len, (flags / 4) % 2 == 1, (flags / 2) % 2 == 1)),
            2 => Ok(SubMessageHeader::GetInfo(len)),
            3 => Ok(SubMessageHeader::Delete(len)),
            4 => Ok(SubMessageHeader::StatusAgent(len)),
            5 => Ok(SubMessageHeader::Status(len)),
            6 => Ok(SubMessageHeader::Info(len)),
            7 => match DataFormat::try_from(flags / 2) {
                Ok(format) => Ok(SubMessageHeader::WriteData(len, format)),
                Err(e) => Err(e),
            },
            8 => Ok(SubMessageHeader::ReadData(len)),
            9 => match DataFormat::try_from(flags / 2) {
                Ok(format) => Ok(SubMessageHeader::Data(len, format)),
                Err(e) => Err(e),
            },
            10 => Ok(SubMessageHeader::AckNack(len)),
            11 => Ok(SubMessageHeader::HeartBeat(len)),
            12 => Ok(SubMessageHeader::Reset(len)),
            13 => Ok(SubMessageHeader::Fragment(len, (flags / 2) % 2 == 1)),
            14 => Ok(SubMessageHeader::TimeStamp(len)),
            15 => Ok(SubMessageHeader::TimeStampReply(len)),
            _ => Err(Error::InvalidFormat(id)),
        }
    }

    /// Writes the header: id, flags and length. Bit 0 of the flags is set
    /// from the byte order of the encoder. Stops at the first field that
    /// finds no room.
    pub fn serialize(&self, encoder: &mut Encoder) -> (r: Result<(), Error>)
        requires
            old(encoder).wf(),
        ensures
            final(encoder).wf(),
            final(final(encoder).buf)@ == final(old(encoder).buf)@,
            final(encoder).capacity() == old(encoder).capacity(),
            final(encoder).is_stream(r, self.written(old(encoder).stream())),
    {
        let (id, flags, length) = self.fields(encoder.endianness);
        encoder.serialize_u8(id)?;
        encoder.serialize_u8(flags)?;
        encoder.serialize_u16(length)?;
        Ok(())
    }

    /// Reads a header: id, flags and length. Stops at the first field that
    /// the buffer does not hold; fields that stand for no header are
    /// consumed and refused.
    pub fn deserialize(decoder: &mut Decoder) -> (r: Result<SubMessageHeader, Error>)
        ensures
            final(decoder).bytes() == old(decoder).bytes(),
            final(decoder).byte_order() == old(decoder).byte_order(),
            final(decoder).position() == Self::after_read(old(decoder).stream()).offset,
            if Self::after_read(old(decoder).stream()).ok() {
                r == Self::read(old(decoder).stream())
            } else {
                r == Err::<SubMessageHeader, Error>(Error::BufferNotEnough)
            },
    {
        let id = decoder.deserialize_u8()?;
        let flags = decoder.deserialize_u8()?;
        let len = decoder.deserialize_u16()?;
        Self::from_fields(id, flags, len)
    }

    /// Writes the header at the start of `buf` in the native byte order and
    /// returns the number of bytes written.
    pub fn to_slice(self, buf: &mut [u8]) -> (r: Result<usize, Error>)
        ensures
            final(buf)@.len() == old(buf)@.len(),
            final(buf)@ == self.written(CdrStream::start(old(buf)@, NATIVE_ENDIANNESS)).bytes,
            match r {
                Ok(n) => {
                    &&& old(buf)@.len() >= SUBHEADER_SIZE
                    &&& n == SUBHEADER_SIZE
                    &&& final(buf)@ == self.encoding(NATIVE_ENDIANNESS) + old(buf)@.skip(4)
                },
                Err(e) => e == Error::BufferNotEnough && old(buf)@.len() < SUBHEADER_SIZE,
            },
    {
        let ghost before = buf@;
        proof {
            self.lemma_written_at_start(before, NATIVE_ENDIANNESS);
        }
        let mut ucdr = Encoder::new(buf);
        match self.serialize(&mut ucdr) {
            Ok(()) => Ok(ucdr.finalize()),
            Err(e) => Err(e),
        }
    }

    /// Reads the header at the start of `buf` in the native byte order.
    pub fn from_slice(buf: &[u8]) -> (r: Result<SubMessageHeader, Error>)
        ensures
            if buf@.len() >= SUBHEADER_SIZE {
                r == Self::of_fields(
                    buf@[0],
                    buf@[1],
                    crate::micro_cdr::wire_value(NATIVE_ENDIANNESS, buf@.subrange(2, 4)) as u16,
                )
            } else {
                r == Err::<SubMessageHeader, Error>(Error::BufferNotEnough)
            },
    {
        let mut ucdr = Decoder::new(buf);
        SubMessageHeader::deserialize(&mut ucdr)
    }

    /// A header written at the start of a buffer takes its first four bytes,
    /// which then hold its encoding, if the buffer is that long, and finds no
    /// room for some field if it is shorter.
    pub proof fn lemma_written_at_start(self, bytes: Seq<u8>, order: Endianness)
        ensures
            ({
                let s = self.written(CdrStream::start(bytes, order));
                &&& s.ok() <==> bytes.len() >= 4
                &&& s.ok() ==> s.offset == 4 && s.bytes == self.encoding(order) + bytes.skip(4)
            }),
    {
        lemma_le_bytes_len(self.length() as nat, 2);
    }

    /// The fields of any header, in either byte order, stand for that header.
    pub proof fn lemma_fields_roundtrip(self, order: Endianness)
        ensures
            Self::of_fields(self.id(), self.flags(order), self.length()) == Ok::<
                SubMessageHeader,
                Error,
            >(self),
    {
    }

    /// Any header, written at the start of a buffer of four bytes or more
    /// and read back from there in the same byte order, is the header that
    /// was written.
    pub proof fn lemma_roundtrip(self, bytes: Seq<u8>, order: Endianness)
        requires
            bytes.len() >= 4,
        ensures
            Self::after_read(self.written(CdrStream::start(bytes, order)).rewind()).ok(),
            Self::read(self.written(CdrStream::start(bytes, order)).rewind()) == Ok::<
                SubMessageHeader,
                Error,
            >(self),
    {
        let w = self.written(CdrStream::start(bytes, order)).rewind();
        lemma_fits_width(self.length() as nat);
        lemma_wire_roundtrip(order, self.length() as nat, 2);
        assert(w.skip(1, 1).skip(1, 1).peek(2, 2) =~= wire_bytes(order, self.length() as nat, 2));
    }
}

} // verus!
