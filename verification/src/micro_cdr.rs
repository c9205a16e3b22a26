//! MicroCDR: an alignment-aware, endian-selectable binary codec that works
//! on a buffer the caller lends it and never allocates.
//!
//! Every value of width `W` (1, 2, 4 or 8 bytes) starts at a multiple of `W`
//! counted from the start of the stream. The encoder fills the gap with zero
//! bytes, the decoder skips it.
use vstd::prelude::*;
use vstd::slice::slice_subrange;
use vstd::array::array_as_slice;
use vstd::string::{is_ascii, StringSliceAdditionalSpecFns};
use vstd::utf8::{encode_utf8, is_ascii_chars, valid_utf8};
use crate::Endianness;
use crate::error::Error;

verus! {

/// Byte order in which values are written when none is asked for.
pub const NATIVE_ENDIANNESS: Endianness = Endianness::LittleEndianness;

/// The widths a CDR primitive can have.
pub open spec fn is_width(width: nat) -> bool {
    width == 1 || width == 2 || width == 4 || width == 8
}

/// The first multiple of `width` at or after `offset`.
pub open spec fn align_up(offset: nat, width: nat) -> nat {
    if width == 0 || offset % width == 0 {
        offset
    } else {
        (offset + width - offset % width) as nat
    }
}

/// The `width` low-order bytes of `value`, least significant first.
pub open spec fn le_bytes(value: nat, width: nat) -> Seq<u8>
    decreases width,
{
    if width == 0 {
        Seq::empty()
    } else {
        seq![(value % 256) as u8] + le_bytes(value / 256, (width - 1) as nat)
    }
}

/// The number whose little-endian digits in base 256 are `bytes`.
pub open spec fn le_value(bytes: Seq<u8>) -> nat
    decreases bytes.len(),
{
    if bytes.len() == 0 {
        0
    } else {
        bytes[0] as nat + 256 * le_value(bytes.drop_first())
    }
}

/// `value` can be written in `width` bytes.
pub open spec fn fits_width(value: nat, width: nat) -> bool
    decreases width,
{
    if width == 0 {
        value == 0
    } else {
        fits_width(value / 256, (width - 1) as nat)
    }
}

/// The bytes that stand for `value` in a stream of the given byte order.
pub open spec fn wire_bytes(endianness: Endianness, value: nat, width: nat) -> Seq<u8> {
    match endianness {
        Endianness::LittleEndianness => le_bytes(value, width),
        Endianness::BigEndianness => le_bytes(value, width).reverse(),
    }
}

/// The number that `bytes` stand for in a stream of the given byte order.
pub open spec fn wire_value(endianness: Endianness, bytes: Seq<u8>) -> nat {
    match endianness {
        Endianness::LittleEndianness => le_value(bytes),
        Endianness::BigEndianness => le_value(bytes.reverse()),
    }
}

/// `buf` after a value of the given width is written at `offset`: zero bytes
/// up to the next multiple of `width`, then `data`, the rest untouched.
pub open spec fn put_aligned(buf: Seq<u8>, offset: nat, width: nat, data: Seq<u8>) -> Seq<u8> {
    let start = align_up(offset, width);
    Seq::new(
        buf.len(),
        |i: int|
            if offset <= i < start {
                0u8
            } else if start <= i < start + data.len() {
                data[i - start]
            } else {
                buf[i]
            },
    )
}

/// The `len` bytes of the value of the given width that follows `offset` in `buf`.
pub open spec fn value_bytes(buf: Seq<u8>, offset: nat, width: nat, len: nat) -> Seq<u8> {
    buf.subrange(align_up(offset, width) as int, (align_up(offset, width) + len) as int)
}

/// The 32-bit length that follows `offset` in `buf`.
pub open spec fn length_field(endianness: Endianness, buf: Seq<u8>, offset: nat) -> nat {
    wire_value(endianness, value_bytes(buf, offset, 4, 4))
}

/// The bytes that follow the 32-bit length after `offset` in `buf`, as many as the length says.
pub open spec fn counted_bytes(endianness: Endianness, buf: Seq<u8>, offset: nat) -> Seq<u8> {
    buf.subrange(
        (align_up(offset, 4) + 4) as int,
        (align_up(offset, 4) + 4 + length_field(endianness, buf, offset)) as int,
    )
}

/// A CDR stream as a value: what the buffer holds, where the cursor is, the
/// byte order, and what went wrong, if anything did. A step that fails
/// records why and, unless its description says otherwise, changes nothing
/// else; every step after it changes nothing at all. So the stream stays as
/// the last successful step left it, and `fault` tells the first failure.
pub struct CdrStream {
    pub bytes: Seq<u8>,
    pub offset: nat,
    pub order: Endianness,
    pub fault: Option<Error>,
}

impl CdrStream {
    /// The stream at the start of a buffer that holds `bytes`.
    pub open spec fn start(bytes: Seq<u8>, order: Endianness) -> CdrStream {
        CdrStream { bytes, offset: 0, order, fault: None }
    }

    /// The same buffer with the cursor at `offset`.
    pub open spec fn at(self, offset: nat) -> CdrStream {
        CdrStream { offset, ..self }
    }

    /// The same buffer with the cursor back at its start.
    pub open spec fn rewind(self) -> CdrStream {
        self.at(0)
    }

    /// No step has failed.
    pub open spec fn ok(self) -> bool {
        self.fault is None
    }

    /// This stream once a step has failed for the given reason.
    pub open spec fn fail(self, e: Error) -> CdrStream {
        if self.ok() {
            CdrStream { fault: Some(e), ..self }
        } else {
            self
        }
    }

    /// The next value of the given width, `len` bytes long, lies inside the buffer.
    pub open spec fn fits(self, width: nat, len: nat) -> bool {
        align_up(self.offset, width) + len <= self.bytes.len()
    }

    /// The stream after `data` is written as one value of the given width.
    /// Fails with `BufferNotEnough` unless the padding and the data fit.
    pub open spec fn put(self, width: nat, data: Seq<u8>) -> CdrStream {
        if self.ok() && self.fits(width, data.len()) {
            CdrStream {
                bytes: put_aligned(self.bytes, self.offset, width, data),
                offset: align_up(self.offset, width) + data.len(),
                ..self
            }
        } else {
            self.fail(Error::BufferNotEnough)
        }
    }

    /// The stream after an unsigned value of `width` bytes is written.
    pub open spec fn put_unsigned(self, value: nat, width: nat) -> CdrStream {
        self.put(width, wire_bytes(self.order, value, width))
    }

    /// The stream after one byte is written.
    pub open spec fn put_u8(self, v: u8) -> CdrStream {
        self.put(1, seq![v])
    }

    /// The stream after a boolean is written: 1 for `true`, 0 for `false`.
    pub open spec fn put_bool(self, v: bool) -> CdrStream {
        self.put(1, seq![if v { 1u8 } else { 0u8 }])
    }

    /// The stream after a character is written. Fails with `InvalidChar`
    /// unless the character is ASCII.
    pub open spec fn put_char(self, c: char) -> CdrStream {
        if c as u32 > 0x7F {
            self.fail(Error::InvalidChar(c))
        } else {
            self.put_u8(c as u8)
        }
    }

    /// The stream after a length is written as an unsigned 32-bit value.
    /// Fails with `NumberOutOfRange` if the length is no such value.
    pub open spec fn put_len(self, n: nat) -> CdrStream {
        if n > u32::MAX {
            self.fail(Error::NumberOutOfRange)
        } else {
            self.put_unsigned(n, 4)
        }
    }

    /// The stream after a sequence is started. Fails with
    /// `SequenceMustHaveLength` if its length is not given.
    pub open spec fn put_seq(self, len: Option<usize>) -> CdrStream {
        match len {
            None => self.fail(Error::SequenceMustHaveLength),
            Some(n) => self.put_len(n as nat),
        }
    }

    /// The stream after a byte sequence is written: its length, then the
    /// bytes, all or nothing.
    pub open spec fn put_counted(self, data: Seq<u8>) -> CdrStream {
        if data.len() > u32::MAX {
            self.fail(Error::NumberOutOfRange)
        } else {
            self.put(4, bytes_payload(self.order, data))
        }
    }

    /// The stream after a string is written: the length of its bytes and
    /// terminator, the bytes, the terminator, all or nothing. Fails with
    /// `InvalidString` unless every character is ASCII.
    pub open spec fn put_string(self, text: Seq<char>) -> CdrStream {
        if !is_ascii_chars(text) {
            self.fail(Error::InvalidString)
        } else if encode_utf8(text).len() >= u32::MAX {
            self.fail(Error::NumberOutOfRange)
        } else {
            self.put(4, str_payload(self.order, encode_utf8(text)))
        }
    }

    /// The stream after a value of the given width, `len` bytes long, is
    /// read. Fails with `BufferNotEnough` unless the padding and the value
    /// lie inside the buffer.
    pub open spec fn skip(self, width: nat, len: nat) -> CdrStream {
        if self.ok() && self.fits(width, len) {
            CdrStream { offset: align_up(self.offset, width) + len, ..self }
        } else {
            self.fail(Error::BufferNotEnough)
        }
    }

    /// The `len` bytes of the next value of the given width.
    pub open spec fn peek(self, width: nat, len: nat) -> Seq<u8> {
        value_bytes(self.bytes, self.offset, width, len)
    }

    /// The byte that comes next.
    pub open spec fn peek_u8(self) -> u8 {
        self.peek(1, 1)[0]
    }

    /// The unsigned value of `width` bytes that comes next.
    pub open spec fn peek_unsigned(self, width: nat) -> nat {
        wire_value(self.order, self.peek(width, width))
    }

    /// The 32-bit length that comes next.
    pub open spec fn peek_len(self) -> nat {
        length_field(self.order, self.bytes, self.offset)
    }

    /// The bytes that follow the length that comes next, as many as it says.
    pub open spec fn peek_counted(self) -> Seq<u8> {
        counted_bytes(self.order, self.bytes, self.offset)
    }

    /// The bytes of the string that comes next: the counted bytes without the terminator.
    pub open spec fn peek_text(self) -> Seq<u8> {
        self.peek_counted().drop_last()
    }

    /// The stream after a boolean is read. A byte other than 0 and 1 is
    /// consumed and fails with `InvalidBoolEncoding`.
    pub open spec fn skip_bool(self) -> CdrStream {
        if self.ok() && self.fits(1, 1) && self.peek_u8() > 1 {
            self.skip(1, 1).fail(Error::InvalidBoolEncoding(self.peek_u8()))
        } else {
            self.skip(1, 1)
        }
    }

    /// The stream after a character is read. A byte that is not ASCII is
    /// left in place and fails with `InvalidCharEncoding`.
    pub open spec fn skip_char(self) -> CdrStream {
        if self.ok() && self.fits(1, 1) && self.peek_u8() > 0x7F {
            self.fail(Error::InvalidCharEncoding)
        } else {
            self.skip(1, 1)
        }
    }

    /// The stream after a length and as many bytes as it says are read, all or nothing.
    pub open spec fn skip_counted(self) -> CdrStream {
        self.skip(4, 4 + self.peek_len())
    }

    /// The stream after a string is read. Counted bytes that are no string,
    /// for having no terminator or for not being UTF-8, are consumed and
    /// fail with `InvalidString` or `InvalidUtf8Encoding`.
    pub open spec fn skip_string(self) -> CdrStream {
        let t = self.skip_counted();
        if !self.ok() || !t.ok() {
            t
        } else if self.peek_len() == 0 {
            t.fail(Error::InvalidString)
        } else if !valid_utf8(self.peek_text()) {
            t.fail(Error::InvalidUtf8Encoding)
        } else {
            t
        }
    }
}

/// Two's complement of a signed 8-bit value.
pub open spec fn i8_bits(v: i8) -> u8 {
    if v >= 0 { v as u8 } else { (v + 0x100) as u8 }
}

/// Two's complement of a signed 16-bit value.
pub open spec fn i16_bits(v: i16) -> u16 {
    if v >= 0 { v as u16 } else { (v + 0x1_0000) as u16 }
}

/// Two's complement of a signed 32-bit value.
pub open spec fn i32_bits(v: i32) -> u32 {
    if v >= 0 { v as u32 } else { (v + 0x1_0000_0000) as u32 }
}

/// Two's complement of a signed 64-bit value.
pub open spec fn i64_bits(v: i64) -> u64 {
    if v >= 0 { v as u64 } else { (v + 0x1_0000_0000_0000_0000) as u64 }
}

/// The signed 8-bit value with the given two's complement.
pub open spec fn i8_from_bits(u: u8) -> i8 {
    if u < 0x80 { u as i8 } else { (u - 0x100) as i8 }
}

/// The signed 16-bit value with the given two's complement.
pub open spec fn i16_from_bits(u: u16) -> i16 {
    if u < 0x8000 { u as i16 } else { (u - 0x1_0000) as i16 }
}

/// The signed 32-bit value with the given two's complement.
pub open spec fn i32_from_bits(u: u32) -> i32 {
    if u < 0x8000_0000 { u as i32 } else { (u - 0x1_0000_0000) as i32 }
}

/// The signed 64-bit value with the given two's complement.
pub open spec fn i64_from_bits(u: u64) -> i64 {
    if u < 0x8000_0000_0000_0000 { u as i64 } else { (u - 0x1_0000_0000_0000_0000) as i64 }
}

/// The encoding of a string: its length with the terminator counted, its
/// bytes, and the terminating zero.
pub open spec fn str_payload(endianness: Endianness, text: Seq<u8>) -> Seq<u8> {
    wire_bytes(endianness, text.len() + 1, 4) + text + seq![0u8]
}

/// The encoding of a byte sequence: its length, then the bytes.
pub open spec fn bytes_payload(endianness: Endianness, data: Seq<u8>) -> Seq<u8> {
    wire_bytes(endianness, data.len(), 4) + data
}

/// A value written in `width` bytes takes `width` bytes.
pub proof fn lemma_le_bytes_len(value: nat, width: nat)
    ensures
        le_bytes(value, width).len() == width,
    decreases width,
{
    if width > 0 {
        lemma_le_bytes_len(value / 256, (width - 1) as nat);
    }
}

/// Little-endian digits read back give the number they were made from.
pub proof fn lemma_le_roundtrip(value: nat, width: nat)
    requires
        fits_width(value, width),
    ensures
        le_value(le_bytes(value, width)) == value,
    decreases width,
{
    if width > 0 {
        let rest = le_bytes(value / 256, (width - 1) as nat);
        lemma_le_roundtrip(value / 256, (width - 1) as nat);
        assert(le_bytes(value, width).drop_first() =~= rest);
    }
}

/// A value written in either byte order and read back in the same order is
/// the value that was written.
pub proof fn lemma_wire_roundtrip(endianness: Endianness, value: nat, width: nat)
    requires
        fits_width(value, width),
    ensures
        wire_bytes(endianness, value, width).len() == width,
        wire_value(endianness, wire_bytes(endianness, value, width)) == value,
{
    lemma_le_bytes_len(value, width);
    lemma_le_roundtrip(value, width);
    assert(le_bytes(value, width).reverse().reverse() =~= le_bytes(value, width));
}

/// Whatever `width` bytes say, in either byte order, can be written in `width` bytes.
pub proof fn lemma_le_value_fits(bytes: Seq<u8>)
    ensures
        fits_width(le_value(bytes), bytes.len()),
    decreases bytes.len(),
{
    if bytes.len() > 0 {
        lemma_le_value_fits(bytes.drop_first());
    }
}

/// Bytes read as a number and written again in the same byte order are the same bytes.
pub proof fn lemma_wire_bytes_of_value(endianness: Endianness, bytes: Seq<u8>)
    ensures
        wire_bytes(endianness, wire_value(endianness, bytes), bytes.len()) == bytes,
{
    match endianness {
        Endianness::LittleEndianness => {
            lemma_le_bytes_of_value(bytes);
        },
        Endianness::BigEndianness => {
            lemma_le_bytes_of_value(bytes.reverse());
        },
    }
}

/// Little-endian digits read as a number and written again are the same digits.
proof fn lemma_le_bytes_of_value(bytes: Seq<u8>)
    ensures
        le_bytes(le_value(bytes), bytes.len()) == bytes,
    decreases bytes.len(),
{
    if bytes.len() > 0 {
        lemma_le_bytes_of_value(bytes.drop_first());
    }
}

/// What `width` little-endian digits stand for is below 256 to the power `width`.
proof fn lemma_le_value_bound(bytes: Seq<u8>)
    ensures
        bytes.len() == 1 ==> le_value(bytes) < 0x100,
        bytes.len() == 2 ==> le_value(bytes) < 0x1_0000,
        bytes.len() == 4 ==> le_value(bytes) < 0x1_0000_0000,
        bytes.len() == 8 ==> le_value(bytes) < 0x1_0000_0000_0000_0000,
{
    lemma_le_value_fits(bytes);
    reveal_with_fuel(fits_width, 9);
}

/// What any `width` bytes stand for is below 256 to the power `width`.
pub proof fn lemma_wire_value_bound(endianness: Endianness, bytes: Seq<u8>)
    ensures
        bytes.len() == 1 ==> wire_value(endianness, bytes) < 0x100,
        bytes.len() == 2 ==> wire_value(endianness, bytes) < 0x1_0000,
        bytes.len() == 4 ==> wire_value(endianness, bytes) < 0x1_0000_0000,
        bytes.len() == 8 ==> wire_value(endianness, bytes) < 0x1_0000_0000_0000_0000,
{
    lemma_le_value_bound(bytes);
    lemma_le_value_bound(bytes.reverse());
}

/// The bytes of `value` in the given order, in the first `width` places of the result.
fn unsigned_to_wire(value: u64, width: usize, endianness: Endianness) -> (out: [u8; 8])
    requires
        1 <= width <= 8,
    ensures
        out@.subrange(0, width as int) == wire_bytes(endianness, value as nat, width as nat),
{
    let mut out = [0u8; 8];
    let mut rest = value;
    let mut i: usize = 0;
    let ghost digits = le_bytes(value as nat, width as nat);
    proof {
        lemma_le_bytes_len(value as nat, width as nat);
    }
    while i < width
        invariant
            1 <= width <= 8,
            i <= width,
            digits == le_bytes(value as nat, width as nat),
            digits.len() == width,
            digits.subrange(i as int, width as int) == le_bytes(rest as nat, (width - i) as nat),
            forall|j: int|
                0 <= j < i ==> #[trigger] digits[j] == out@[match endianness {
                    Endianness::LittleEndianness => j,
                    Endianness::BigEndianness => width - 1 - j,
                }],
        decreases width - i,
    {
        let idx = match endianness {
            Endianness::LittleEndianness => i,
            Endianness::BigEndianness => width - 1 - i,
        };
        proof {
            let tail = le_bytes(rest as nat, (width - i) as nat);
            assert(tail[0] == (rest % 256) as u8);
            assert(digits.subrange(i as int + 1, width as int) =~= digits.subrange(
                i as int,
                width as int,
            ).drop_first());
        }
        out[idx] = (rest % 256) as u8;
        rest = rest / 256;
        i = i + 1;
    }
    out
}

/// The number that `bytes` stand for in the given byte order.
fn unsigned_from_wire(bytes: &[u8], endianness: Endianness) -> (value: u64)
    requires
        1 <= bytes@.len() <= 8,
    ensures
        value == wire_value(endianness, bytes@),
{
    let width = bytes.len();
    let ghost digits = match endianness {
        Endianness::LittleEndianness => bytes@,
        Endianness::BigEndianness => bytes@.reverse(),
    };
    let mut acc: u64 = 0;
    let mut i: usize = width;
    while i > 0
        invariant
            1 <= width <= 8,
            width == bytes@.len(),
            i <= width,
            digits.len() == width,
            digits == match endianness {
                Endianness::LittleEndianness => bytes@,
                Endianness::BigEndianness => bytes@.reverse(),
            },
            acc == le_value(digits.subrange(i as int, width as int)),
        decreases i,
    {
        i = i - 1;
        let idx = match endianness {
            Endianness::LittleEndianness => i,
            Endianness::BigEndianness => width - 1 - i,
        };
        let b = bytes[idx];
        proof {
            let cur = digits.subrange(i as int, width as int);
            assert(cur.drop_first() =~= digits.subrange(i as int + 1, width as int));
            lemma_le_value_bound_upto(cur);
        }
        acc = acc * 256 + b as u64;
    }
    assert(digits.subrange(0, width as int) =~= digits);
    acc
}

/// What up to eight little-endian digits stand for fits 64 bits.
proof fn lemma_le_value_bound_upto(bytes: Seq<u8>)
    requires
        bytes.len() <= 8,
    ensures
        le_value(bytes) <= u64::MAX,
{
    lemma_le_value_fits(bytes);
    reveal_with_fuel(fits_width, 9);
}

/// A cursor that writes CDR values into a borrowed buffer.
///
/// `offset` counts the bytes produced since the encoder was made; it is both
/// the place of the next byte in `buf` and the number alignment goes by.
/// The fields are public so that contracts can say what becomes of the
/// buffer that was lent; code that changes them must keep `offset` inside
/// the buffer, which is what `wf` asks.
pub struct Encoder<'storage> {
    pub buf: &'storage mut [u8],
    pub offset: usize,
    pub endianness: Endianness,
}

impl<'storage> Encoder<'storage> {
    /// The cursor lies inside the buffer.
    pub open spec fn wf(&self) -> bool {
        self.offset <= self.buf@.len()
    }

    /// The length of the buffer.
    pub open spec fn capacity(&self) -> nat {
        self.buf@.len()
    }

    /// The stream this encoder writes, with every step so far successful.
    pub open spec fn stream(&self) -> CdrStream {
        CdrStream {
            bytes: self.buf@,
            offset: self.offset as nat,
            order: self.endianness,
            fault: None,
        }
    }

    /// This encoder and the result `r` of the steps taken are what the
    /// stream `s` says: the buffer, the cursor and the byte order are those of
    /// `s`, and `r` is the failure that `s` records, or `Ok` if it records none.
    pub open spec fn is_stream(&self, r: Result<(), Error>, s: CdrStream) -> bool {
        &&& self.buf@ == s.bytes
        &&& self.offset == s.offset
        &&& self.endianness == s.order
        &&& r == match s.fault {
            None => Ok::<(), Error>(()),
            Some(e) => Err::<(), Error>(e),
        }
    }

    /// An encoder at the start of `buffer`, writing in the native byte order.
    pub fn new(buffer: &'storage mut [u8]) -> (encoder: Self)
        ensures
            encoder.wf(),
            encoder.offset == 0,
            encoder.endianness == NATIVE_ENDIANNESS,
            encoder.buf@ == old(buffer)@,
            final(buffer)@ == final(encoder.buf)@,
    {
        Encoder { buf: buffer, offset: 0, endianness: NATIVE_ENDIANNESS }
    }

    /// An encoder at the start of `buffer`, writing in the byte order given.
    pub fn new_with_endianness(buffer: &'storage mut [u8], endianness: Endianness) -> (encoder:
        Self)
        ensures
            encoder.wf(),
            encoder.offset == 0,
            encoder.endianness == endianness,
            encoder.buf@ == old(buffer)@,
            final(buffer)@ == final(encoder.buf)@,
    {
        Encoder { buf: buffer, offset: 0, endianness }
    }

    /// The number of bytes produced so far. Ends the encoding pass.
    pub fn finalize(self) -> (produced: usize)
        ensures
            produced == self.offset,
            final(self.buf)@ == old(self.buf)@,
    {
        self.offset
    }

    /// The offset just after `bytes` more bytes, if the buffer has that many left.
    pub fn check_avaliable(&self, bytes: usize) -> (r: Result<usize, Error>)
        requires
            self.wf(),
        ensures
            match r {
                Ok(end) => end == self.offset + bytes && end <= self.capacity(),
                Err(e) => e == Error::BufferNotEnough && self.offset + bytes > self.capacity(),
            },
    {
        if bytes <= self.buf.len() - self.offset {
            Ok(self.offset + bytes)
        } else {
            Err(Error::BufferNotEnough)
        }
    }

    /// Writes `data` as one value of the given width: zero bytes up to the
    /// next multiple of `width`, then the bytes. Writes nothing if the
    /// padding and the bytes do not both fit.
    pub fn put(&mut self, width: usize, data: &[u8]) -> (r: Result<(), Error>)
        requires
            old(self).wf(),
            is_width(width as nat),
        ensures
            final(self).wf(),
            final(final(self).buf)@ == final(old(self).buf)@,
            final(self).capacity() == old(self).capacity(),
            final(self).is_stream(r, old(self).stream().put(width as nat, data@)),
    {
        let rem = self.offset % width;
        let pad = if rem == 0 { 0 } else { width - rem };
        let room = self.buf.len() - self.offset;
        if pad > room || data.len() > room - pad {
            return Err(Error::BufferNotEnough);
        }
        let origin = self.offset;
        let start = origin + pad;
        let ghost before = self.buf@;
        let mut i: usize = origin;
        while i < start
            invariant
                origin <= i <= start <= self.buf@.len(),
                self.buf@.len() == before.len(),
                self.offset == origin,
                self.endianness == old(self).endianness,
                final(self.buf)@ == final(old(self).buf)@,
                forall|k: int|
                    0 <= k < before.len() ==> #[trigger] self.buf@[k] == if origin <= k < i {
                        0u8
                    } else {
                        before[k]
                    },
            decreases start - i,
        {
            self.buf[i] = 0;
            i = i + 1;
        }
        let mut j: usize = 0;
        while j < data.len()
            invariant
                j <= data@.len(),
                start + data@.len() <= self.buf@.len(),
                start + data@.len() <= usize::MAX,
                self.buf@.len() == before.len(),
                self.offset == origin,
                self.endianness == old(self).endianness,
                final(self.buf)@ == final(old(self).buf)@,
                forall|k: int|
                    0 <= k < before.len() ==> #[trigger] self.buf@[k] == if origin <= k < start {
                        0u8
                    } else if start <= k < start + j {
                        data@[k - start]
                    } else {
                        before[k]
                    },
            decreases data@.len() - j,
        {
            self.buf[start + j] = data[j];
            j = j + 1;
        }
        self.offset = start + data.len();
        assert(self.buf@ =~= put_aligned(before, origin as nat, width as nat, data@));
        Ok(())
    }

    /// Writes an unsigned value of `width` bytes in the encoder's byte order.
    fn put_unsigned(&mut self, value: u64, width: usize) -> (r: Result<(), Error>)
        requires
            old(self).wf(),
            is_width(width as nat),
        ensures
            final(self).wf(),
            final(final(self).buf)@ == final(old(self).buf)@,
            final(self).capacity() == old(self).capacity(),
            final(self).is_stream(r, old(self).stream().put_unsigned(value as nat, width as nat)),
    {
        let out = unsigned_to_wire(value, width, self.endianness);
        self.put(width, slice_subrange(array_as_slice(&out), 0, width))
    }

    /// Moves the cursor to the next multiple of the size of `T`, filling the
    /// gap with zero bytes.
    pub fn set_pos_of<T>(&mut self) -> (r: Result<(), Error>)
        requires
            old(self).wf(),
            is_width(vstd::layout::size_of::<T>()),
        ensures
            final(self).wf(),
            final(final(self).buf)@ == final(old(self).buf)@,
            final(self).capacity() == old(self).capacity(),
            final(self).is_stream(
                r,
                old(self).stream().put(vstd::layout::size_of::<T>(), Seq::empty()),
            ),
    {
        let spare = [0u8; 1];
        let nothing = slice_subrange(array_as_slice(&spare), 0, 0);
        proof {
            assert(nothing@ =~= Seq::<u8>::empty());
        }
        self.put(core::mem::size_of::<T>(), nothing)
    }

    /// Writes a length as an unsigned 32-bit value.
    pub fn write_usize_as_u32(&mut self, v: usize) -> (r: Result<(), Error>)
        requires
            old(self).wf(),
        ensures
            final(self).wf(),
            final(final(self).buf)@ == final(old(self).buf)@,
            final(self).capacity() == old(self).capacity(),
            final(self).is_stream(r, old(self).stream().put_len(v as nat)),
    {
        if v > u32::MAX as usize {
            return Err(Error::NumberOutOfRange);
        }
        self.serialize_u32(v as u32)
    }

    /// Writes a boolean as one byte, 1 for `true` and 0 for `false`.
    pub fn serialize_bool(&mut self, v: bool) -> (r: Result<(), Error>)
        requires
            old(self).wf(),
        ensures
            final(self).wf(),
            final(final(self).buf)@ == final(old(self).buf)@,
            final(self).capacity() == old(self).capacity(),
            final(self).is_stream(r, old(self).stream().put_bool(v)),
    {
        let byte = [if v { 1u8 } else { 0u8 }];
        let r = self.put(1, array_as_slice(&byte));
        proof {
            assert(byte@ =~= seq![if v { 1u8 } else { 0u8 }]);
        }
        r
    }

    /// Writes an unsigned 8-bit value.
    pub fn serialize_u8(&mut self, v: u8) -> (r: Result<(), Error>)
        requires
            old(self).wf(),
        ensures
            final(self).wf(),
            final(final(self).buf)@ == final(old(self).buf)@,
            final(self).capacity() == old(self).capacity(),
            final(self).is_stream(r, old(self).stream().put_u8(v)),
    {
        let byte = [v];
        let r = self.put(1, array_as_slice(&byte));
        proof {
            assert(byte@ =~= seq![v]);
        }
        r
    }

    /// Writes a signed 8-bit value as its two's complement.
    pub fn serialize_i8(&mut self, v: i8) -> (r: Result<(), Error>)
        requires
            old(self).wf(),
        ensures
            final(self).wf(),
            final(final(self).buf)@ == final(old(self).buf)@,
            final(self).capacity() == old(self).capacity(),
            final(self).is_stream(r, old(self).stream().put_u8(i8_bits(v))),
    {
        let bits: u8 = if v >= 0 { v as u8 } else { (v as i16 + 0x100) as u8 };
        self.serialize_u8(bits)
    }

    /// Writes an unsigned 16-bit value in the encoder's byte order.
    pub fn serialize_u16(&mut self, v: u16) -> (r: Result<(), Error>)
        requires
            old(self).wf(),
        ensures
            final(self).wf(),
            final(final(self).buf)@ == final(old(self).buf)@,
            final(self).capacity() == old(self).capacity(),
            final(self).is_stream(r, old(self).stream().put_unsigned(v as nat, 2)),
    {
        self.put_unsigned(v as u64, 2)
    }

    /// Writes an unsigned 32-bit value in the encoder's byte order.
    pub fn serialize_u32(&mut self, v: u32) -> (r: Result<(), Error>)
        requires
            old(self).wf(),
        ensures
            final(self).wf(),
            final(final(self).buf)@ == final(old(self).buf)@,
            final(self).capacity() == old(self).capacity(),
            final(self).is_stream(r, old(self).stream().put_unsigned(v as nat, 4)),
    {
        self.put_unsigned(v as u64, 4)
    }

    /// Writes an unsigned 64-bit value in the encoder's byte order.
    pub fn serialize_u64(&mut self, v: u64) -> (r: Result<(), Error>)
        requires
            old(self).wf(),
        ensures
            final(self).wf(),
            final(final(self).buf)@ == final(old(self).buf)@,
            final(self).capacity() == old(self).capacity(),
            final(self).is_stream(r, old(self).stream().put_unsigned(v as nat, 8)),
    {
        self.put_unsigned(v, 8)
    }

    /// Writes a signed 16-bit value as its two's complement.
    pub fn serialize_i16(&mut self, v: i16) -> (r: Result<(), Error>)
        requires
            old(self).wf(),
        ensures
            final(self).wf(),
            final(final(self).buf)@ == final(old(self).buf)@,
            final(self).capacity() == old(self).capacity(),
            final(self).is_stream(r, old(self).stream().put_unsigned(i16_bits(v) as nat, 2)),
    {
        let bits: u16 = if v >= 0 { v as u16 } else { (v as i32 + 0x1_0000) as u16 };
        self.serialize_u16(bits)
    }

    /// Writes a signed 32-bit value as its two's complement.
    pub fn serialize_i32(&mut self, v: i32) -> (r: Result<(), Error>)
        requires
            old(self).wf(),
        ensures
            final(self).wf(),
            final(final(self).buf)@ == final(old(self).buf)@,
            final(self).capacity() == old(self).capacity(),
            final(self).is_stream(r, old(self).stream().put_unsigned(i32_bits(v) as nat, 4)),
    {
        let bits: u32 = if v >= 0 { v as u32 } else { (v as i64 + 0x1_0000_0000) as u32 };
        self.serialize_u32(bits)
    }

    /// Writes a signed 64-bit value as its two's complement.
    pub fn serialize_i64(&mut self, v: i64) -> (r: Result<(), Error>)
        requires
            old(self).wf(),
        ensures
            final(self).wf(),
            final(final(self).buf)@ == final(old(self).buf)@,
            final(self).capacity() == old(self).capacity(),
            final(self).is_stream(r, old(self).stream().put_unsigned(i64_bits(v) as nat, 8)),
    {
        let bits: u64 = if v >= 0 {
            v as u64
        } else {
            (v as i128 + 0x1_0000_0000_0000_0000) as u64
        };
        self.serialize_u64(bits)
    }

    /// Writes an ASCII character as one byte. Any other character is refused.
    pub fn serialize_char(&mut self, v: char) -> (r: Result<(), Error>)
        requires
            old(self).wf(),
        ensures
            final(self).wf(),
            final(final(self).buf)@ == final(old(self).buf)@,
            final(self).capacity() == old(self).capacity(),
            final(self).is_stream(r, old(self).stream().put_char(v)),
    {
        let code = v as u32;
        if code > 0x7F {
            Err(Error::InvalidChar(v))
        } else {
            self.serialize_u8(code as u8)
        }
    }

    /// Writes the index of an enumeration's variant as an unsigned 32-bit value.
    pub fn serialize_unit_variant(&mut self, variant_index: u32) -> (r: Result<(), Error>)
        requires
            old(self).wf(),
        ensures
            final(self).wf(),
            final(final(self).buf)@ == final(old(self).buf)@,
            final(self).capacity() == old(self).capacity(),
            final(self).is_stream(r, old(self).stream().put_unsigned(variant_index as nat, 4)),
    {
        self.serialize_u32(variant_index)
    }

    /// Starts a sequence by writing its length, which must be known.
    pub fn serialize_seq(&mut self, len: Option<usize>) -> (r: Result<(), Error>)
        requires
            old(self).wf(),
        ensures
            final(self).wf(),
            final(final(self).buf)@ == final(old(self).buf)@,
            final(self).capacity() == old(self).capacity(),
            final(self).is_stream(r, old(self).stream().put_seq(len)),
    {
        match len {
            None => Err(Error::SequenceMustHaveLength),
            Some(n) => self.write_usize_as_u32(n),
        }
    }

    /// Writes a byte sequence: its length as an unsigned 32-bit value, then
    /// the bytes. Writes nothing unless all of it fits.
    pub fn serialize_bytes(&mut self, v: &[u8]) -> (r: Result<(), Error>)
        requires
            old(self).wf(),
        ensures
            final(self).wf(),
            final(final(self).buf)@ == final(old(self).buf)@,
            final(self).capacity() == old(self).capacity(),
            final(self).is_stream(r, old(self).stream().put_counted(v@)),
    {
        let l = v.len();
        if l > u32::MAX as usize {
            return Err(Error::NumberOutOfRange);
        }
        proof {
            lemma_le_bytes_len(l as nat, 4);
        }
        let rem = self.offset % 4;
        let pad = if rem == 0 { 0 } else { 4 - rem };
        let room = self.buf.len() - self.offset;
        if pad > room || 4 > room - pad || l > room - pad - 4 {
            return Err(Error::BufferNotEnough);
        }
        let ghost before = self.buf@;
        let ghost origin = self.offset as nat;
        let ghost prefix = wire_bytes(self.endianness, l as nat, 4);
        self.put_unsigned(l as u64, 4)?;
        self.put(1, v)?;
        assert(self.buf@ =~= put_aligned(before, origin, 4, prefix + v@));
        Ok(())
    }

    /// Writes an ASCII string: its length with the terminator counted, as an
    /// unsigned 32-bit value, then its bytes and a terminating zero. A string
    /// that is not ASCII is refused. Writes nothing unless all of it fits.
    pub fn serialize_str(&mut self, v: &str) -> (r: Result<(), Error>)
        requires
            old(self).wf(),
        ensures
            final(self).wf(),
            final(final(self).buf)@ == final(old(self).buf)@,
            final(self).capacity() == old(self).capacity(),
            final(self).is_stream(r, old(self).stream().put_string(v@)),
    {
        if !v.is_ascii() {
            return Err(Error::InvalidString);
        }
        let text = v.as_bytes();
        let l = text.len();
        if l >= u32::MAX as usize {
            return Err(Error::NumberOutOfRange);
        }
        proof {
            lemma_le_bytes_len((l + 1) as nat, 4);
        }
        let rem = self.offset % 4;
        let pad = if rem == 0 { 0 } else { 4 - rem };
        let room = self.buf.len() - self.offset;
        if pad > room || 4 > room - pad || l >= room - pad - 4 {
            return Err(Error::BufferNotEnough);
        }
        let ghost before = self.buf@;
        let ghost origin = self.offset as nat;
        let ghost prefix = wire_bytes(self.endianness, (l + 1) as nat, 4);
        self.put_unsigned((l + 1) as u64, 4)?;
        self.put(1, text)?;
        self.serialize_u8(0)?;
        assert(self.buf@ =~= put_aligned(before, origin, 4, prefix + text@ + seq![0u8]));
        Ok(())
    }
}

/// The number of bytes in the UTF-8 encoding that starts with `first_byte`,
/// or 0 where no encoding starts with it.
pub open spec fn utf8_width(first_byte: u8) -> nat {
    if first_byte < 0x80 {
        1
    } else if first_byte < 0xC2 {
        0
    } else if first_byte < 0xE0 {
        2
    } else if first_byte < 0xF0 {
        3
    } else if first_byte < 0xF5 {
        4
    } else {
        0
    }
}

/// The number of bytes in the UTF-8 encoding that starts with `first_byte`,
/// or 0 where no encoding starts with it.
pub fn utf8_char_width(first_byte: u8) -> (width: usize)
    ensures
        width == utf8_width(first_byte),
{
    if first_byte < 0x80 {
        1
    } else if first_byte < 0xC2 {
        0
    } else if first_byte < 0xE0 {
        2
    } else if first_byte < 0xF0 {
        3
    } else if first_byte < 0xF5 {
        4
    } else {
        0
    }
}

/// `core::str::Utf8Error`, the error of `core::str::from_utf8`. Nothing is
/// said of what it holds.
#[verifier::external_type_specification]
#[verifier::external_body]
pub struct ExUtf8Error(core::str::Utf8Error);

/// `core::str::from_utf8` accepts exactly the byte sequences that are valid
/// UTF-8, and the string it returns is made of the bytes it was given.
pub assume_specification[ core::str::from_utf8 ](v: &[u8]) -> (r: core::result::Result<
    &str,
    core::str::Utf8Error,
>)
    ensures
        r is Ok <==> valid_utf8(v@),
        r matches Ok(s) ==> s.spec_bytes() == v@,
;

/// A cursor that reads CDR values from a borrowed buffer.
pub struct Decoder<'storage> {
    buf: &'storage [u8],
    offset: usize,
    endianness: Endianness,
}

impl<'storage> Decoder<'storage> {
    /// The cursor lies inside the buffer.
    #[verifier::type_invariant]
    spec fn inv(&self) -> bool {
        self.offset <= self.buf@.len()
    }

    /// The buffer being read.
    pub closed spec fn bytes(&self) -> Seq<u8> {
        self.buf@
    }

    /// The number of bytes consumed so far, padding included.
    pub closed spec fn position(&self) -> nat {
        self.offset as nat
    }

    /// The byte order values are read in.
    pub closed spec fn byte_order(&self) -> Endianness {
        self.endianness
    }

    /// The stream this decoder reads, with every step so far successful.
    pub open spec fn stream(&self) -> CdrStream {
        CdrStream {
            bytes: self.bytes(),
            offset: self.position(),
            order: self.byte_order(),
            fault: None,
        }
    }

    /// This decoder and the outcome of the steps taken are what the stream
    /// `s` says: the buffer, the cursor and the byte order are those of `s`,
    /// and the steps failed as `s` records, or succeeded if it records no failure.
    pub open spec fn is_stream<T>(&self, r: Result<T, Error>, s: CdrStream) -> bool {
        &&& self.bytes() == s.bytes
        &&& self.position() == s.offset
        &&& self.byte_order() == s.order
        &&& r is Ok <==> s.ok()
        &&& r matches Err(e) ==> s.fault == Some(e)
    }

    /// A decoder at the start of `buffer`, reading in the native byte order.
    pub fn new(buffer: &'storage [u8]) -> (decoder: Self)
        ensures
            decoder.bytes() == buffer@,
            decoder.position() == 0,
            decoder.byte_order() == NATIVE_ENDIANNESS,
    {
        Decoder { buf: buffer, offset: 0, endianness: NATIVE_ENDIANNESS }
    }

    /// A decoder at the start of `buffer`, reading in the byte order given.
    pub fn new_with_endianness(buffer: &'storage [u8], endianness: Endianness) -> (decoder: Self)
        ensures
            decoder.bytes() == buffer@,
            decoder.position() == 0,
            decoder.byte_order() == endianness,
    {
        Decoder { buf: buffer, offset: 0, endianness }
    }

    /// The number of bytes consumed so far. Ends the decoding pass.
    pub fn finalize(self) -> (consumed: usize)
        ensures
            consumed == self.position(),
            consumed <= self.bytes().len(),
    {
        proof {
            use_type_invariant(&self);
        }
        self.offset
    }

    /// The offset just after `bytes` more bytes, if the buffer has that many left.
    pub fn check_avaliable(&self, bytes: usize) -> (r: Result<usize, Error>)
        ensures
            match r {
                Ok(end) => end == self.position() + bytes && end <= self.bytes().len(),
                Err(e) => e == Error::BufferNotEnough && self.position() + bytes
                    > self.bytes().len(),
            },
    {
        proof {
            use_type_invariant(self);
        }
        if bytes <= self.buf.len() - self.offset {
            Ok(self.offset + bytes)
        } else {
            Err(Error::BufferNotEnough)
        }
    }

    /// Skips to the next multiple of `width` and hands out the `len` bytes
    /// found there. Moves nothing unless the padding and the bytes lie inside
    /// the buffer.
    pub fn take(&mut self, width: usize, len: usize) -> (r: Result<&'storage [u8], Error>)
        requires
            is_width(width as nat),
        ensures
            final(self).is_stream(r, old(self).stream().skip(width as nat, len as nat)),
            r matches Ok(data) ==> data@ == old(self).stream().peek(width as nat, len as nat),
    {
        proof {
            use_type_invariant(&*self);
        }
        let rem = self.offset % width;
        let pad = if rem == 0 { 0 } else { width - rem };
        let room = self.buf.len() - self.offset;
        if pad > room || len > room - pad {
            return Err(Error::BufferNotEnough);
        }
        let start = self.offset + pad;
        let whole: &'storage [u8] = self.buf;
        let data = slice_subrange(whole, start, start + len);
        self.offset = start + len;
        Ok(data)
    }

    /// Skips to the next multiple of the size of `T`.
    pub fn set_pos_of<T>(&mut self) -> (r: Result<(), Error>)
        requires
            is_width(vstd::layout::size_of::<T>()),
        ensures
            final(self).is_stream(r, old(self).stream().skip(vstd::layout::size_of::<T>(), 0)),
    {
        match self.take(core::mem::size_of::<T>(), 0) {
            Ok(_) => Ok(()),
            Err(e) => Err(e),
        }
    }

    /// Reads an unsigned value of `width` bytes in the decoder's byte order.
    fn take_unsigned(&mut self, width: usize) -> (r: Result<u64, Error>)
        requires
            is_width(width as nat),
        ensures
            final(self).is_stream(r, old(self).stream().skip(width as nat, width as nat)),
            r matches Ok(v) ==> v == old(self).stream().peek_unsigned(width as nat),
    {
        let order = self.endianness;
        match self.take(width, width) {
            Ok(data) => Ok(unsigned_from_wire(data, order)),
            Err(e) => Err(e),
        }
    }

    /// Reads a boolean: one byte, which must be 0 or 1. Another byte is
    /// consumed and reported.
    pub fn deserialize_bool(&mut self) -> (r: Result<bool, Error>)
        ensures
            final(self).is_stream(r, old(self).stream().skip_bool()),
            r matches Ok(v) ==> old(self).stream().peek_u8() == if v { 1u8 } else { 0u8 },
    {
        match self.take(1, 1) {
            Ok(data) => {
                let byte = data[0];
                if byte == 1 {
                    Ok(true)
                } else if byte == 0 {
                    Ok(false)
                } else {
                    Err(Error::InvalidBoolEncoding(byte))
                }
            },
            Err(e) => Err(e),
        }
    }

    /// Reads an unsigned 8-bit value.
    pub fn deserialize_u8(&mut self) -> (r: Result<u8, Error>)
        ensures
            final(self).is_stream(r, old(self).stream().skip(1, 1)),
            r matches Ok(v) ==> v == old(self).stream().peek_u8(),
    {
        match self.take(1, 1) {
            Ok(data) => Ok(data[0]),
            Err(e) => Err(e),
        }
    }

    /// Reads a signed 8-bit value from its two's complement.
    pub fn deserialize_i8(&mut self) -> (r: Result<i8, Error>)
        ensures
            final(self).is_stream(r, old(self).stream().skip(1, 1)),
            r matches Ok(v) ==> v == i8_from_bits(old(self).stream().peek_u8()),
    {
        match self.deserialize_u8() {
            Ok(u) => Ok(if u < 0x80 { u as i8 } else { (u as i16 - 0x100) as i8 }),
            Err(e) => Err(e),
        }
    }

    /// Reads an unsigned 16-bit value in the decoder's byte order.
    pub fn deserialize_u16(&mut self) -> (r: Result<u16, Error>)
        ensures
            final(self).is_stream(r, old(self).stream().skip(2, 2)),
            r matches Ok(v) ==> v == old(self).stream().peek_unsigned(2),
    {
        proof {
            lemma_wire_value_bound(self.byte_order(), self.stream().peek(2, 2));
        }
        match self.take_unsigned(2) {
            Ok(v) => Ok(v as u16),
            Err(e) => Err(e),
        }
    }

    /// Reads an unsigned 32-bit value in the decoder's byte order.
    pub fn deserialize_u32(&mut self) -> (r: Result<u32, Error>)
        ensures
            final(self).is_stream(r, old(self).stream().skip(4, 4)),
            r matches Ok(v) ==> v == old(self).stream().peek_unsigned(4),
    {
        proof {
            lemma_wire_value_bound(self.byte_order(), self.stream().peek(4, 4));
        }
        match self.take_unsigned(4) {
            Ok(v) => Ok(v as u32),
            Err(e) => Err(e),
        }
    }

    /// Reads an unsigned 64-bit value in the decoder's byte order.
    pub fn deserialize_u64(&mut self) -> (r: Result<u64, Error>)
        ensures
            final(self).is_stream(r, old(self).stream().skip(8, 8)),
            r matches Ok(v) ==> v == old(self).stream().peek_unsigned(8),
    {
        self.take_unsigned(8)
    }

    /// Reads a signed 16-bit value from its two's complement.
    pub fn deserialize_i16(&mut self) -> (r: Result<i16, Error>)
        ensures
            final(self).is_stream(r, old(self).stream().skip(2, 2)),
            r matches Ok(v) ==> v == i16_from_bits(
                old(self).stream().peek_unsigned(2) as u16,
            ),
    {
        match self.deserialize_u16() {
            Ok(u) => Ok(if u < 0x8000 { u as i16 } else { (u as i32 - 0x1_0000) as i16 }),
            Err(e) => Err(e),
        }
    }

    /// Reads a signed 32-bit value from its two's complement.
    pub fn deserialize_i32(&mut self) -> (r: Result<i32, Error>)
        ensures
            final(self).is_stream(r, old(self).stream().skip(4, 4)),
            r matches Ok(v) ==> v == i32_from_bits(
                old(self).stream().peek_unsigned(4) as u32,
            ),
    {
        match self.deserialize_u32() {
            Ok(u) => Ok(
                if u < 0x8000_0000 {
                    u as i32
                } else {
                    (u as i64 - 0x1_0000_0000) as i32
                },
            ),
            Err(e) => Err(e),
        }
    }

    /// Reads a signed 64-bit value from its two's complement.
    pub fn deserialize_i64(&mut self) -> (r: Result<i64, Error>)
        ensures
            final(self).is_stream(r, old(self).stream().skip(8, 8)),
            r matches Ok(v) ==> v == i64_from_bits(
                old(self).stream().peek_unsigned(8) as u64,
            ),
    {
        match self.deserialize_u64() {
            Ok(u) => Ok(
                if u < 0x8000_0000_0000_0000 {
                    u as i64
                } else {
                    (u as i128 - 0x1_0000_0000_0000_0000) as i64
                },
            ),
            Err(e) => Err(e),
        }
    }

    /// Reads an ASCII character. A byte that is not one is reported and not consumed.
    pub fn deserialize_char(&mut self) -> (r: Result<char, Error>)
        ensures
            final(self).is_stream(r, old(self).stream().skip_char()),
            r matches Ok(c) ==> c as u32 == old(self).stream().peek_u8(),
    {
        let origin = self.offset;
        match self.take(1, 1) {
            Ok(data) => {
                let byte = data[0];
                if utf8_char_width(byte) != 1 {
                    self.offset = origin;
                    Err(Error::InvalidCharEncoding)
                } else {
                    Ok(byte as char)
                }
            },
            Err(e) => Err(e),
        }
    }

    /// Reads the number of elements of a sequence.
    pub fn deserialize_seq(&mut self) -> (r: Result<usize, Error>)
        ensures
            final(self).is_stream(r, old(self).stream().skip(4, 4)),
            r matches Ok(n) ==> n == old(self).stream().peek_unsigned(4),
    {
        match self.deserialize_u32() {
            Ok(n) => Ok(n as usize),
            Err(e) => Err(e),
        }
    }

    /// Reads a byte sequence: its length, then as many bytes. Moves nothing
    /// unless the length and the bytes lie inside the buffer.
    pub fn read_bytes(&mut self) -> (r: Result<&'storage [u8], Error>)
        ensures
            final(self).is_stream(r, old(self).stream().skip_counted()),
            r matches Ok(data) ==> data@ == old(self).stream().peek_counted(),
    {
        proof {
            use_type_invariant(&*self);
        }
        let origin = self.offset;
        let len = match self.deserialize_u32() {
            Ok(n) => n as usize,
            Err(e) => {
                return Err(e);
            },
        };
        if len > self.buf.len() - self.offset {
            self.offset = origin;
            return Err(Error::BufferNotEnough);
        }
        let start = self.offset;
        let whole: &'storage [u8] = self.buf;
        let data = slice_subrange(whole, start, start + len);
        self.offset = start + len;
        Ok(data)
    }

    /// Reads a string: a byte sequence whose last byte is the terminator and
    /// whose other bytes are valid UTF-8. The bytes are consumed also where
    /// they are no such string.
    pub fn read_str(&mut self) -> (r: Result<&'storage str, Error>)
        ensures
            final(self).is_stream(r, old(self).stream().skip_string()),
            r matches Ok(text) ==> text.spec_bytes() == old(self).stream().peek_text(),
    {
        let data = match self.read_bytes() {
            Ok(data) => data,
            Err(e) => {
                return Err(e);
            },
        };
        let len = data.len();
        if len == 0 {
            return Err(Error::InvalidString);
        }
        let text = slice_subrange(data, 0, len - 1);
        match core::str::from_utf8(text) {
            Ok(s) => Ok(s),
            Err(_) => Err(Error::InvalidUtf8Encoding),
        }
    }
}

/// A value can be written in as many bytes as its type has.
pub proof fn lemma_fits_width(value: nat)
    ensures
        value <= u8::MAX ==> fits_width(value, 1),
        value <= u16::MAX ==> fits_width(value, 2),
        value <= u32::MAX ==> fits_width(value, 4),
        value <= u64::MAX ==> fits_width(value, 8),
{
    reveal_with_fuel(fits_width, 9);
}

/// What was written at an offset is what is found there: a value of any
/// width, written after any offset, is read back whole from the same offset.
pub proof fn lemma_put_then_take(buf: Seq<u8>, offset: nat, width: nat, data: Seq<u8>)
    requires
        align_up(offset, width) + data.len() <= buf.len(),
    ensures
        value_bytes(put_aligned(buf, offset, width, data), offset, width, data.len()) == data,
        put_aligned(buf, offset, width, data).len() == buf.len(),
{
}

/// An unsigned value of any width, encoded at any offset in either byte
/// order and decoded from the same offset in the same order, is the value
/// that was encoded.
pub proof fn lemma_unsigned_roundtrip(
    buf: Seq<u8>,
    offset: nat,
    endianness: Endianness,
    width: nat,
    value: nat,
)
    requires
        is_width(width),
        fits_width(value, width),
        align_up(offset, width) + width <= buf.len(),
    ensures
        wire_value(
            endianness,
            value_bytes(
                put_aligned(buf, offset, width, wire_bytes(endianness, value, width)),
                offset,
                width,
                width,
            ),
        ) == value,
{
    lemma_wire_roundtrip(endianness, value, width);
    lemma_put_then_take(buf, offset, width, wire_bytes(endianness, value, width));
}

/// A signed value is the value of its two's complement.
pub proof fn lemma_signed_roundtrip(a: i8, b: i16, c: i32, d: i64)
    ensures
        i8_from_bits(i8_bits(a)) == a,
        i16_from_bits(i16_bits(b)) == b,
        i32_from_bits(i32_bits(c)) == c,
        i64_from_bits(i64_bits(d)) == d,
{
}

/// A string encoded at any offset in either byte order is found again from
/// the same offset: the length read back counts the text and its terminator,
/// and the counted bytes without the last are the text.
pub proof fn lemma_str_roundtrip(buf: Seq<u8>, offset: nat, endianness: Endianness, text: Seq<u8>)
    requires
        text.len() < u32::MAX,
        align_up(offset, 4) + 4 + text.len() + 1 <= buf.len(),
    ensures
        ({
            let written = put_aligned(buf, offset, 4, str_payload(endianness, text));
            &&& length_field(endianness, written, offset) == text.len() + 1
            &&& counted_bytes(endianness, written, offset).drop_last() == text
        }),
{
    let prefix = wire_bytes(endianness, text.len() + 1, 4);
    let written = put_aligned(buf, offset, 4, str_payload(endianness, text));
    lemma_fits_width(text.len() + 1);
    lemma_wire_roundtrip(endianness, text.len() + 1, 4);
    assert(value_bytes(written, offset, 4, 4) =~= prefix);
}

/// A byte sequence encoded at any offset in either byte order is found again
/// from the same offset.
pub proof fn lemma_bytes_roundtrip(buf: Seq<u8>, offset: nat, endianness: Endianness, data: Seq<u8>)
    requires
        data.len() <= u32::MAX,
        align_up(offset, 4) + 4 + data.len() <= buf.len(),
    ensures
        ({
            let written = put_aligned(buf, offset, 4, bytes_payload(endianness, data));
            &&& length_field(endianness, written, offset) == data.len()
            &&& counted_bytes(endianness, written, offset) == data
        }),
{
    let prefix = wire_bytes(endianness, data.len(), 4);
    let written = put_aligned(buf, offset, 4, bytes_payload(endianness, data));
    lemma_fits_width(data.len());
    lemma_wire_roundtrip(endianness, data.len(), 4);
    assert(value_bytes(written, offset, 4, 4) =~= prefix);
}

/// Two strings made of the same bytes are the same text, and the bytes of
/// any string are valid UTF-8.
pub proof fn lemma_str_of_bytes(a: &str, b: &str)
    requires
        a.spec_bytes() == b.spec_bytes(),
    ensures
        a@ == b@,
        valid_utf8(a.spec_bytes()),
{
    vstd::utf8::encode_utf8_decode_utf8(a@);
    vstd::utf8::encode_utf8_decode_utf8(b@);
    vstd::utf8::encode_utf8_valid_utf8(a@);
}

/// A value that finds no room is refused with `BufferNotEnough`, and the
/// buffer and the cursor stay as the last successful step left them.
pub proof fn lemma_no_room_changes_nothing(s: CdrStream, width: nat, data: Seq<u8>)
    requires
        s.ok(),
        !s.fits(width, data.len()),
    ensures
        s.put(width, data).fault == Some(Error::BufferNotEnough),
        s.put(width, data).bytes == s.bytes,
        s.put(width, data).offset == s.offset,
        s.put(width, data).put(width, data) == s.put(width, data),
{
}

/// An unsigned value that is written and then read from where it was
/// written, at any offset and in either byte order, is read as the value
/// that was written, and reading ends where writing ended.
pub proof fn lemma_unsigned_read_back(s: CdrStream, value: nat, width: nat)
    requires
        s.ok(),
        is_width(width),
        fits_width(value, width),
        s.fits(width, width),
    ensures
        s.put_unsigned(value, width).ok(),
        s.put_unsigned(value, width).at(s.offset).peek_unsigned(width) == value,
        s.put_unsigned(value, width).at(s.offset).skip(width, width) == s.put_unsigned(
            value,
            width,
        ),
{
    lemma_wire_roundtrip(s.order, value, width);
    lemma_unsigned_roundtrip(s.bytes, s.offset, s.order, width, value);
}

/// A signed value that is written and then read from where it was
/// written, at any offset and in either byte order, is read as the value
/// that was written.
pub proof fn lemma_signed_read_back(s: CdrStream, a: i8, b: i16, c: i32, d: i64)
    requires
        s.ok(),
    ensures
        s.fits(1, 1) ==> i8_from_bits(s.put_u8(i8_bits(a)).at(s.offset).peek_u8()) == a,
        s.fits(2, 2) ==> i16_from_bits(
            s.put_unsigned(i16_bits(b) as nat, 2).at(s.offset).peek_unsigned(2) as u16,
        ) == b,
        s.fits(4, 4) ==> i32_from_bits(
            s.put_unsigned(i32_bits(c) as nat, 4).at(s.offset).peek_unsigned(4) as u32,
        ) == c,
        s.fits(8, 8) ==> i64_from_bits(
            s.put_unsigned(i64_bits(d) as nat, 8).at(s.offset).peek_unsigned(8) as u64,
        ) == d,
{
    lemma_fits_width(i16_bits(b) as nat);
    lemma_fits_width(i32_bits(c) as nat);
    lemma_fits_width(i64_bits(d) as nat);
    if s.fits(2, 2) {
        lemma_unsigned_read_back(s, i16_bits(b) as nat, 2);
    }
    if s.fits(4, 4) {
        lemma_unsigned_read_back(s, i32_bits(c) as nat, 4);
    }
    if s.fits(8, 8) {
        lemma_unsigned_read_back(s, i64_bits(d) as nat, 8);
    }
}

/// A byte or a boolean that is written and then read from where it was
/// written is read as the value that was written, and reading ends where
/// writing ended.
pub proof fn lemma_byte_read_back(s: CdrStream, v: u8, flag: bool)
    requires
        s.ok(),
        s.fits(1, 1),
    ensures
        s.put_u8(v).ok(),
        s.put_u8(v).at(s.offset).peek_u8() == v,
        s.put_u8(v).at(s.offset).skip(1, 1) == s.put_u8(v),
        s.put_bool(flag).ok(),
        s.put_bool(flag).at(s.offset).peek_u8() == if flag { 1u8 } else { 0u8 },
        s.put_bool(flag).at(s.offset).skip_bool() == s.put_bool(flag),
{
}

/// A string that is written and then read from where it was written, at
/// any offset and in either byte order, is read as the bytes of the text
/// that was written, and reading ends where writing ended.
pub proof fn lemma_string_read_back(s: CdrStream, text: Seq<char>)
    requires
        s.ok(),
        s.put_string(text).ok(),
    ensures
        s.put_string(text).at(s.offset).peek_text() == encode_utf8(text),
        s.put_string(text).at(s.offset).skip_string() == s.put_string(text),
{
    let bytes = encode_utf8(text);
    lemma_le_bytes_len(bytes.len() + 1, 4);
    lemma_str_roundtrip(s.bytes, s.offset, s.order, bytes);
    vstd::utf8::encode_utf8_valid_utf8(text);
}

/// A byte sequence that is written and then read from where it was
/// written, at any offset and in either byte order, is read as the bytes
/// that were written, and reading ends where writing ended.
pub proof fn lemma_counted_read_back(s: CdrStream, data: Seq<u8>)
    requires
        s.ok(),
        s.put_counted(data).ok(),
    ensures
        s.put_counted(data).at(s.offset).peek_counted() == data,
        s.put_counted(data).at(s.offset).skip_counted() == s.put_counted(data),
{
    lemma_le_bytes_len(data.len(), 4);
    lemma_bytes_roundtrip(s.bytes, s.offset, s.order, data);
}

/// A string with a byte from 0x80 on in it is refused, and nothing is written.
pub proof fn lemma_non_ascii_refused(s: CdrStream, text: Seq<char>, at: int)
    requires
        s.ok(),
        0 <= at < encode_utf8(text).len(),
        encode_utf8(text)[at] >= 0x80,
    ensures
        s.put_string(text) == s.fail(Error::InvalidString),
{
    if is_ascii_chars(text) {
        vstd::utf8::is_ascii_chars_encode_utf8(text);
        vstd::utf8::is_ascii_chars_nat_bound(text);
    }
}

} // verus!
