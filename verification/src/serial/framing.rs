//! The frame format of the serial transport, and the state machine that
//! finds frames in a stream of bytes, both as mathematics.
//!
//! A frame is `BEGIN | src | dst | len_lsb | len_msb | payload | crc_lsb |
//! crc_msb`. Every byte after `BEGIN` that equals `BEGIN` or `ESC` is sent as
//! `ESC` followed by the byte with bit 5 flipped, so `BEGIN` never occurs
//! inside a frame. The checksum covers source, destination, length and
//! payload as they are before stuffing.
use vstd::prelude::*;
use crate::serial::crc::{crc16, crc16_update, lemma_one_byte_error_detected};

verus! {

/// The byte that starts a frame.
pub const FRAMING_BEGIN_FLAG: u8 = 0x7E;

/// The byte that announces a stuffed byte.
pub const FRAMING_ESC_FLAG: u8 = 0x7D;

/// The bit that is flipped in a stuffed byte.
pub const FRAMING_XOR_FLAG: u8 = 0x20;

/// The longest payload that a frame can deliver.
pub const UXR_SERIAL_TRANSPORT_MTU: usize = 512;

/// Where in a frame the reader is.
#[derive(Debug, Clone, Copy, PartialEq, Eq, Structural)]
pub enum FramingInputState {
    FramingUninitialized,
    FramingReadingSrcAddr,
    FramingReadingDstAddr,
    FramingReadingLenLSB,
    FramingReadingLenMSB,
    FramingReadingPayload,
    FramingReadingCrcLSB,
    FramingReadingCrcMSB,
}

/// The byte with the stuffing bit flipped.
pub open spec fn flip(b: u8) -> u8 {
    b ^ FRAMING_XOR_FLAG
}

/// The byte cannot stand for itself inside a frame.
pub open spec fn needs_stuffing(b: u8) -> bool {
    b == FRAMING_BEGIN_FLAG || b == FRAMING_ESC_FLAG
}

/// One byte of a frame as it is sent.
pub open spec fn stuffed_octet(b: u8) -> Seq<u8> {
    if needs_stuffing(b) {
        seq![FRAMING_ESC_FLAG, flip(b)]
    } else {
        seq![b]
    }
}

/// The bytes of a frame as they are sent.
pub open spec fn stuffed(data: Seq<u8>) -> Seq<u8>
    decreases data.len(),
{
    if data.len() == 0 {
        Seq::empty()
    } else {
        stuffed(data.drop_last()) + stuffed_octet(data.last())
    }
}

/// Source, destination and the two bytes of the length, low byte first.
pub open spec fn frame_head(src: u8, dst: u8, len: nat) -> Seq<u8> {
    seq![src, dst, (len % 256) as u8, ((len / 256) % 256) as u8]
}

/// The checksum of a frame: that of its head and payload.
pub open spec fn frame_crc(src: u8, dst: u8, payload: Seq<u8>) -> u16 {
    crc16(frame_head(src, dst, payload.len()) + payload)
}

/// The two bytes of a checksum, low byte first.
pub open spec fn crc_bytes(crc: u16) -> Seq<u8> {
    seq![(crc % 256) as u8, (crc / 256) as u8]
}

/// The bytes sent for a frame that carries the given checksum.
pub open spec fn sealed(src: u8, dst: u8, payload: Seq<u8>, crc: u16) -> Seq<u8> {
    seq![FRAMING_BEGIN_FLAG] + stuffed(
        frame_head(src, dst, payload.len()) + payload + crc_bytes(crc),
    )
}

/// The bytes sent for a frame.
pub open spec fn frame(src: u8, dst: u8, payload: Seq<u8>) -> Seq<u8> {
    sealed(src, dst, payload, frame_crc(src, dst, payload))
}

/// The bytes sent for a frame that is cut short: `BEGIN`, and of source,
/// destination, length, payload and checksum the first `count` bytes, each
/// as it is sent.
pub open spec fn cut_frame(src: u8, dst: u8, payload: Seq<u8>, count: int) -> Seq<u8> {
    seq![FRAMING_BEGIN_FLAG] + stuffed(
        (frame_head(src, dst, payload.len()) + payload + crc_bytes(
            frame_crc(src, dst, payload),
        )).take(count),
    )
}

/// A frame as it is delivered: who sent it and what it carries.
pub struct Frame {
    pub src_addr: u8,
    pub payload: Seq<u8>,
}

/// The reader of frames as a value: where in a frame it is, whether the
/// last byte was `ESC`, whose address it answers to, and what it has
/// gathered of the frame so far.
pub struct Parser {
    pub state: FramingInputState,
    pub escape: bool,
    pub local_addr: u8,
    pub src_addr: u8,
    pub dst_addr: u8,
    pub msg_len: u16,
    pub msg_crc: u16,
    pub running_crc: u16,
    pub payload: Seq<u8>,
}

impl Parser {
    /// The reader before any byte, waiting for a frame to begin.
    pub open spec fn idle(local_addr: u8) -> Parser {
        Parser {
            state: FramingInputState::FramingUninitialized,
            escape: false,
            local_addr,
            src_addr: 0,
            dst_addr: 0,
            msg_len: 0,
            msg_crc: 0,
            running_crc: 0,
            payload: Seq::empty(),
        }
    }

    /// The reader after `BEGIN`: at the start of a frame, with nothing gathered.
    pub open spec fn begin(self) -> Parser {
        Parser { state: FramingInputState::FramingReadingSrcAddr, ..Self::idle(self.local_addr) }
    }

    /// The reader after it gave up the frame it was in.
    pub open spec fn abandon(self) -> Parser {
        Parser { state: FramingInputState::FramingUninitialized, escape: false, ..self }
    }

    /// The reader is inside a frame.
    pub open spec fn in_frame(self) -> bool {
        self.state != FramingInputState::FramingUninitialized
    }

    /// The reader, inside a frame, after one more byte of the frame as it
    /// was before stuffing.
    pub open spec fn accept(self, octet: u8) -> Parser {
        match self.state {
            FramingInputState::FramingUninitialized => self,
            FramingInputState::FramingReadingSrcAddr => Parser {
                src_addr: octet,
                state: FramingInputState::FramingReadingDstAddr,
                ..self
            },
            FramingInputState::FramingReadingDstAddr => Parser {
                dst_addr: octet,
                state: FramingInputState::FramingReadingLenLSB,
                ..self
            },
            FramingInputState::FramingReadingLenLSB => Parser {
                msg_len: octet as u16,
                state: FramingInputState::FramingReadingLenMSB,
                ..self
            },
            FramingInputState::FramingReadingLenMSB => {
                let len = self.msg_len + 256 * octet;
                if len > UXR_SERIAL_TRANSPORT_MTU {
                    self.abandon()
                } else {
                    Parser {
                        msg_len: len as u16,
                        running_crc: crc16(
                            seq![self.src_addr, self.dst_addr, self.msg_len as u8, octet],
                        ),
                        state: if len == 0 {
                            FramingInputState::FramingReadingCrcLSB
                        } else {
                            FramingInputState::FramingReadingPayload
                        },
                        ..self
                    }
                }
            },
            FramingInputState::FramingReadingPayload => Parser {
                payload: self.payload.push(octet),
                running_crc: crc16_update(self.running_crc, octet),
                state: if self.payload.len() + 1 >= self.msg_len {
                    FramingInputState::FramingReadingCrcLSB
                } else {
                    FramingInputState::FramingReadingPayload
                },
                ..self
            },
            FramingInputState::FramingReadingCrcLSB => Parser {
                msg_crc: octet as u16,
                state: FramingInputState::FramingReadingCrcMSB,
                ..self
            },
            FramingInputState::FramingReadingCrcMSB => Parser {
                msg_crc: (self.msg_crc + 256 * octet) as u16,
                state: FramingInputState::FramingUninitialized,
                ..self
            },
        }
    }

    /// The octet `octet` ends a frame that is delivered: it is the high
    /// byte of the checksum, the checksum is that of what was gathered, and
    /// the frame is addressed to this reader.
    pub open spec fn accepts_frame(self, octet: u8) -> bool {
        &&& self.state == FramingInputState::FramingReadingCrcMSB
        &&& self.msg_crc + 256 * octet == self.running_crc
        &&& self.dst_addr == self.local_addr
    }

    /// The reader after one more byte of the stream.
    pub open spec fn step(self, b: u8) -> Parser {
        if !self.in_frame() {
            if b == FRAMING_BEGIN_FLAG {
                self.begin()
            } else {
                self
            }
        } else if self.escape {
            if b == FRAMING_BEGIN_FLAG {
                self.abandon()
            } else {
                Parser { escape: false, ..self }.accept(flip(b))
            }
        } else if b == FRAMING_BEGIN_FLAG {
            self.begin()
        } else if b == FRAMING_ESC_FLAG {
            Parser { escape: true, ..self }
        } else {
            self.accept(b)
        }
    }

    /// The byte `b` of the stream ends a frame that is delivered.
    pub open spec fn delivers(self, b: u8) -> bool {
        &&& self.in_frame()
        &&& b != FRAMING_BEGIN_FLAG
        &&& if self.escape {
            self.accepts_frame(flip(b))
        } else {
            b != FRAMING_ESC_FLAG && self.accepts_frame(b)
        }
    }

    /// The least number of bytes that must still come before a frame can
    /// be delivered: what is missing of `BEGIN`, head, payload and checksum.
    pub open spec fn missing(self) -> int {
        match self.state {
            FramingInputState::FramingUninitialized => 5,
            FramingInputState::FramingReadingSrcAddr => 4,
            FramingInputState::FramingReadingDstAddr => 3,
            FramingInputState::FramingReadingLenLSB => 2,
            FramingInputState::FramingReadingLenMSB => 1,
            FramingInputState::FramingReadingPayload => self.msg_len - self.payload.len() + 2,
            FramingInputState::FramingReadingCrcLSB => 2,
            FramingInputState::FramingReadingCrcMSB => 1,
        }
    }

    /// The frame that is delivered when the byte that ends it arrives.
    pub open spec fn gathered(self) -> Frame {
        Frame { src_addr: self.src_addr, payload: self.payload }
    }

    /// The reader after the bytes of `stream`.
    pub open spec fn feed(self, stream: Seq<u8>) -> Parser
        decreases stream.len(),
    {
        if stream.len() == 0 {
            self
        } else {
            self.feed(stream.drop_last()).step(stream.last())
        }
    }

    /// The frames delivered while reading the bytes of `stream`, in order.
    pub open spec fn received(self, stream: Seq<u8>) -> Seq<Frame>
        decreases stream.len(),
    {
        if stream.len() == 0 {
            Seq::empty()
        } else {
            let before = self.feed(stream.drop_last());
            if before.delivers(stream.last()) {
                self.received(stream.drop_last()).push(before.gathered())
            } else {
                self.received(stream.drop_last())
            }
        }
    }

    /// The reader, at the start of a frame's payload or inside it, after the
    /// head of a frame and the first `count` bytes of its payload.
    pub open spec fn gathering(self, src: u8, dst: u8, payload: Seq<u8>, count: int) -> Parser {
        Parser {
            state: if count >= payload.len() {
                FramingInputState::FramingReadingCrcLSB
            } else {
                FramingInputState::FramingReadingPayload
            },
            escape: false,
            local_addr: self.local_addr,
            src_addr: src,
            dst_addr: dst,
            msg_len: payload.len() as u16,
            msg_crc: 0,
            running_crc: crc16(frame_head(src, dst, payload.len()) + payload.take(count)),
            payload: payload.take(count),
        }
    }
}

/// Flipping the stuffing bit twice gives the byte back, and a byte that
/// needs stuffing does not need it once the bit is flipped.
pub proof fn lemma_flip(b: u8)
    ensures
        flip(flip(b)) == b,
        needs_stuffing(b) ==> !needs_stuffing(flip(b)),
{
    assert((b ^ 0x20u8) ^ 0x20u8 == b) by (bit_vector);
    assert((b == 0x7Eu8 || b == 0x7Du8) ==> (b ^ 0x20u8) != 0x7Eu8 && (b ^ 0x20u8) != 0x7Du8)
        by (bit_vector);
}

/// Reading a stream is reading its first part and then the rest.
pub proof fn lemma_feed_concat(p: Parser, a: Seq<u8>, b: Seq<u8>)
    ensures
        p.feed(a + b) == p.feed(a).feed(b),
        p.received(a + b) == p.received(a) + p.feed(a).received(b),
    decreases b.len(),
{
    if b.len() > 0 {
        lemma_feed_concat(p, a, b.drop_last());
        assert((a + b).drop_last() =~= a + b.drop_last());
        if p.feed(a).feed(b.drop_last()).delivers(b.last()) {
            assert(p.received(a + b) =~= p.received(a) + p.feed(a).received(b));
        }
    }
}

/// Reading one byte is taking one step.
pub proof fn lemma_feed_one(p: Parser, b: u8)
    ensures
        p.feed(seq![b]) == p.step(b),
        p.received(seq![b]) == if p.delivers(b) {
            seq![p.gathered()]
        } else {
            Seq::<Frame>::empty()
        },
{
    reveal_with_fuel(Parser::received, 2);
}

/// Stuffing a sequence is stuffing its parts.
pub proof fn lemma_stuffed_concat(a: Seq<u8>, b: Seq<u8>)
    ensures
        stuffed(a + b) == stuffed(a) + stuffed(b),
    decreases b.len(),
{
    if b.len() > 0 {
        lemma_stuffed_concat(a, b.drop_last());
        assert((a + b).drop_last() =~= a + b.drop_last());
    }
}

/// Stuffing one byte.
pub proof fn lemma_stuffed_one(o: u8)
    ensures
        stuffed(seq![o]) == stuffed_octet(o),
{
    reveal_with_fuel(stuffed, 2);
}

/// No stuffed byte is `BEGIN`.
pub proof fn lemma_stuffed_has_no_begin(data: Seq<u8>)
    ensures
        forall|i: int| 0 <= i < stuffed(data).len() ==> stuffed(data)[i] != FRAMING_BEGIN_FLAG,
    decreases data.len(),
{
    if data.len() > 0 {
        let front = stuffed(data.drop_last());
        let back = stuffed_octet(data.last());
        lemma_stuffed_has_no_begin(data.drop_last());
        lemma_flip(data.last());
        assert forall|i: int| 0 <= i < stuffed(data).len() implies stuffed(data)[i]
            != FRAMING_BEGIN_FLAG by {
            if i >= front.len() {
                assert(stuffed(data)[i] == back[i - front.len()]);
            }
        }
    }
}

/// A reader inside a frame that reads one byte of the frame as it is sent
/// has read that byte of the frame, and delivers a frame if the byte ends
/// one.
pub proof fn lemma_read_octet(p: Parser, o: u8)
    requires
        p.in_frame(),
        !p.escape,
    ensures
        p.feed(stuffed_octet(o)) == p.accept(o),
        p.received(stuffed_octet(o)) == if p.accepts_frame(o) {
            seq![p.gathered()]
        } else {
            Seq::<Frame>::empty()
        },
{
    lemma_flip(o);
    if needs_stuffing(o) {
        let first = seq![FRAMING_ESC_FLAG];
        let second = seq![flip(o)];
        assert(stuffed_octet(o) =~= first + second);
        lemma_feed_concat(p, first, second);
        lemma_feed_one(p, FRAMING_ESC_FLAG);
        let q = p.step(FRAMING_ESC_FLAG);
        lemma_feed_one(q, flip(o));
        assert(q.gathered() == p.gathered());
        assert(p.received(first) + q.received(second) =~= q.received(second));
    } else {
        lemma_feed_one(p, o);
    }
}

/// A reader that has read `prefix` and is inside a frame, and then reads
/// one more byte of the frame as it is sent, has read that byte of the
/// frame, and delivers a frame if the byte ends one.
pub proof fn lemma_read_next(p: Parser, prefix: Seq<u8>, o: u8)
    requires
        p.feed(prefix).in_frame(),
        !p.feed(prefix).escape,
    ensures
        p.feed(prefix + stuffed_octet(o)) == p.feed(prefix).accept(o),
        p.received(prefix + stuffed_octet(o)) == if p.feed(prefix).accepts_frame(o) {
            p.received(prefix).push(p.feed(prefix).gathered())
        } else {
            p.received(prefix)
        },
{
    let q = p.feed(prefix);
    lemma_feed_concat(p, prefix, stuffed_octet(o));
    lemma_read_octet(q, o);
}

/// The head of a frame as it is sent is its four bytes as they are sent.
pub proof fn lemma_stuffed_head(src: u8, dst: u8, len: nat)
    ensures
        stuffed(frame_head(src, dst, len)) == stuffed_octet(src) + stuffed_octet(dst)
            + stuffed_octet((len % 256) as u8) + stuffed_octet(((len / 256) % 256) as u8),
{
    let lo = (len % 256) as u8;
    let hi = ((len / 256) % 256) as u8;
    lemma_stuffed_one(src);
    lemma_stuffed_one(dst);
    lemma_stuffed_one(lo);
    lemma_stuffed_one(hi);
    assert(frame_head(src, dst, len) =~= seq![src] + seq![dst] + seq![lo] + seq![hi]);
    lemma_stuffed_concat(seq![src], seq![dst]);
    lemma_stuffed_concat(seq![src] + seq![dst], seq![lo]);
    lemma_stuffed_concat(seq![src] + seq![dst] + seq![lo], seq![hi]);
}

/// A reader that reads `BEGIN` and the head of a frame is at the start of
/// the frame's payload, and has delivered nothing.
pub proof fn lemma_read_head(p: Parser, src: u8, dst: u8, payload: Seq<u8>)
    requires
        !p.in_frame() || !p.escape,
        payload.len() <= UXR_SERIAL_TRANSPORT_MTU,
    ensures
        p.feed(seq![FRAMING_BEGIN_FLAG] + stuffed(frame_head(src, dst, payload.len())))
            == p.gathering(src, dst, payload, 0),
        p.received(seq![FRAMING_BEGIN_FLAG] + stuffed(frame_head(src, dst, payload.len())))
            == Seq::<Frame>::empty(),
{
    let len = payload.len();
    let lo = (len % 256) as u8;
    let hi = ((len / 256) % 256) as u8;
    let start = seq![FRAMING_BEGIN_FLAG];
    lemma_feed_one(p, FRAMING_BEGIN_FLAG);
    let q0 = p.begin();
    let q1 = q0.accept(src);
    let q2 = q1.accept(dst);
    let q3 = q2.accept(lo);
    let q4 = q3.accept(hi);
    let t1 = start + stuffed_octet(src);
    let t2 = t1 + stuffed_octet(dst);
    let t3 = t2 + stuffed_octet(lo);
    let t4 = t3 + stuffed_octet(hi);
    lemma_stuffed_head(src, dst, len);
    assert(start + stuffed(frame_head(src, dst, len)) =~= t4);
    assert(p.feed(t1) == q1 && p.received(t1) == Seq::<Frame>::empty()) by {
        lemma_read_next(p, start, src);
    }
    assert(p.feed(t2) == q2 && p.received(t2) == Seq::<Frame>::empty()) by {
        lemma_read_next(p, t1, dst);
    }
    assert(p.feed(t3) == q3 && p.received(t3) == Seq::<Frame>::empty()) by {
        lemma_read_next(p, t2, lo);
    }
    assert(p.feed(t4) == q4 && p.received(t4) == Seq::<Frame>::empty()) by {
        lemma_read_next(p, t3, hi);
    }
    assert(q4 == p.gathering(src, dst, payload, 0)) by {
        assert(payload.take(0) =~= Seq::<u8>::empty());
    }
}

/// A reader that reads `BEGIN`, the head of a frame and the first `count`
/// bytes of its payload has gathered those bytes and their checksum, and
/// has delivered nothing.
pub proof fn lemma_read_payload(p: Parser, src: u8, dst: u8, payload: Seq<u8>, count: int)
    requires
        !p.in_frame() || !p.escape,
        payload.len() <= UXR_SERIAL_TRANSPORT_MTU,
        0 <= count <= payload.len(),
    ensures
        p.feed(
            seq![FRAMING_BEGIN_FLAG] + stuffed(
                frame_head(src, dst, payload.len()) + payload.take(count),
            ),
        ) == p.gathering(src, dst, payload, count),
        p.received(
            seq![FRAMING_BEGIN_FLAG] + stuffed(
                frame_head(src, dst, payload.len()) + payload.take(count),
            ),
        ) == Seq::<Frame>::empty(),
    decreases count,
{
    let head = frame_head(src, dst, payload.len());
    let start = seq![FRAMING_BEGIN_FLAG];
    if count == 0 {
        lemma_read_head(p, src, dst, payload);
    } else {
        lemma_read_payload(p, src, dst, payload, count - 1);
        let o = payload[count - 1];
        let before = head + payload.take(count - 1);
        assert(head + payload.take(count) =~= before + seq![o]);
        assert(start + (stuffed(before) + stuffed_octet(o)) =~= (start + stuffed(before))
            + stuffed_octet(o));
        lemma_feed_concat(p, start + stuffed(before), stuffed_octet(o));
        let q = p.gathering(src, dst, payload, count - 1);
        lemma_read_octet(q, o);
        assert(q.payload.push(o) =~= payload.take(count));
        assert((before + seq![o]).drop_last() =~= before);
    }
}

/// What a reader makes of a frame that carries some checksum: it delivers
/// the frame if the checksum is that of the frame and the frame is
/// addressed to it, and nothing otherwise. Either way it then waits for
/// the next frame to begin.
pub proof fn lemma_read_sealed(p: Parser, src: u8, dst: u8, payload: Seq<u8>, crc: u16)
    requires
        !p.in_frame() || !p.escape,
        payload.len() <= UXR_SERIAL_TRANSPORT_MTU,
    ensures
        !p.feed(sealed(src, dst, payload, crc)).in_frame(),
        !p.feed(sealed(src, dst, payload, crc)).escape,
        p.feed(sealed(src, dst, payload, crc)).local_addr == p.local_addr,
        p.received(sealed(src, dst, payload, crc)) == if crc == frame_crc(src, dst, payload) && dst
            == p.local_addr {
            seq![Frame { src_addr: src, payload }]
        } else {
            Seq::<Frame>::empty()
        },
{
    let head = frame_head(src, dst, payload.len());
    let start = seq![FRAMING_BEGIN_FLAG];
    let lo = (crc % 256) as u8;
    let hi = (crc / 256) as u8;
    lemma_read_payload(p, src, dst, payload, payload.len() as int);
    assert(payload.take(payload.len() as int) =~= payload);
    let body = head + payload;
    let q = p.gathering(src, dst, payload, payload.len() as int);
    assert(body + crc_bytes(crc) =~= body + seq![lo] + seq![hi]);
    lemma_stuffed_concat(body, seq![lo]);
    lemma_stuffed_concat(body + seq![lo], seq![hi]);
    lemma_stuffed_one(lo);
    lemma_stuffed_one(hi);
    let s0 = start + stuffed(body);
    assert(sealed(src, dst, payload, crc) =~= s0 + stuffed_octet(lo) + stuffed_octet(hi));
    lemma_feed_concat(p, s0, stuffed_octet(lo));
    lemma_feed_concat(p, s0 + stuffed_octet(lo), stuffed_octet(hi));
    lemma_read_octet(q, lo);
    let q1 = q.accept(lo);
    lemma_read_octet(q1, hi);
}

/// A frame that is sent is the frame that is received: a reader that waits
/// for a frame, or is inside one, and reads the bytes sent for a frame
/// addressed to it delivers exactly that frame: its source and its payload,
/// whatever bytes the payload holds.
pub proof fn lemma_frame_roundtrip(p: Parser, src: u8, payload: Seq<u8>)
    requires
        !p.in_frame() || !p.escape,
        payload.len() <= UXR_SERIAL_TRANSPORT_MTU,
    ensures
        p.received(frame(src, p.local_addr, payload)) == seq![Frame { src_addr: src, payload }],
        !p.feed(frame(src, p.local_addr, payload)).in_frame(),
{
    lemma_read_sealed(p, src, p.local_addr, payload, frame_crc(src, p.local_addr, payload));
}

/// A frame addressed to another reader is dropped.
pub proof fn lemma_foreign_frame_dropped(p: Parser, src: u8, dst: u8, payload: Seq<u8>)
    requires
        !p.in_frame() || !p.escape,
        payload.len() <= UXR_SERIAL_TRANSPORT_MTU,
        dst != p.local_addr,
    ensures
        p.received(frame(src, dst, payload)) == Seq::<Frame>::empty(),
        !p.feed(frame(src, dst, payload)).in_frame(),
{
    lemma_read_sealed(p, src, dst, payload, frame_crc(src, dst, payload));
}

/// A frame whose payload was changed in one byte after its checksum was
/// taken, by a flipped bit or otherwise, is dropped.
pub proof fn lemma_changed_payload_dropped(
    p: Parser,
    src: u8,
    payload: Seq<u8>,
    changed: Seq<u8>,
    at: int,
)
    requires
        !p.in_frame() || !p.escape,
        payload.len() <= UXR_SERIAL_TRANSPORT_MTU,
        changed.len() == payload.len(),
        0 <= at < payload.len(),
        changed[at] != payload[at],
        forall|j: int| 0 <= j < payload.len() && j != at ==> changed[j] == payload[j],
    ensures
        p.received(sealed(src, p.local_addr, changed, frame_crc(src, p.local_addr, payload)))
            == Seq::<Frame>::empty(),
{
    let dst = p.local_addr;
    let head = frame_head(src, dst, payload.len());
    lemma_one_byte_error_detected(head + payload, head + changed, at + 4);
    lemma_read_sealed(p, src, dst, changed, frame_crc(src, dst, payload));
}

/// A frame whose checksum was changed, by a flipped bit or otherwise, is dropped.
pub proof fn lemma_changed_crc_dropped(p: Parser, src: u8, payload: Seq<u8>, crc: u16)
    requires
        !p.in_frame() || !p.escape,
        payload.len() <= UXR_SERIAL_TRANSPORT_MTU,
        crc != frame_crc(src, p.local_addr, payload),
    ensures
        p.received(sealed(src, p.local_addr, payload, crc)) == Seq::<Frame>::empty(),
{
    lemma_read_sealed(p, src, p.local_addr, payload, crc);
}

/// A checksum with one bit flipped is another checksum.
pub proof fn lemma_flipped_crc_differs(crc: u16, bit: u16)
    requires
        bit < 16,
    ensures
        crc ^ (1u16 << bit) != crc,
{
    assert(bit < 16 ==> crc ^ (1u16 << bit) != crc) by (bit_vector);
}

/// A reader that waits for a frame skips whatever comes before `BEGIN`:
/// the bytes leave it as it was, and what follows them is read as if they
/// had not been there.
pub proof fn lemma_garbage_skipped(p: Parser, garbage: Seq<u8>, rest: Seq<u8>)
    requires
        !p.in_frame(),
        forall|i: int| 0 <= i < garbage.len() ==> garbage[i] != FRAMING_BEGIN_FLAG,
    ensures
        p.feed(garbage) == p,
        p.received(garbage) == Seq::<Frame>::empty(),
        p.feed(garbage + rest) == p.feed(rest),
        p.received(garbage + rest) == p.received(rest),
    decreases garbage.len(),
{
    if garbage.len() > 0 {
        lemma_garbage_skipped(p, garbage.drop_last(), Seq::empty());
    }
    lemma_feed_concat(p, garbage, rest);
}

/// `BEGIN` in the middle of a frame ends the frame without delivering it,
/// and the frame that follows is received whole: whatever state the reader
/// is in, after `BEGIN` and the bytes sent for a frame addressed to it, it
/// has delivered exactly that frame.
pub proof fn lemma_resynchronises(p: Parser, src: u8, payload: Seq<u8>)
    requires
        payload.len() <= UXR_SERIAL_TRANSPORT_MTU,
    ensures
        p.received(seq![FRAMING_BEGIN_FLAG] + frame(src, p.local_addr, payload)) == seq![
            Frame { src_addr: src, payload },
        ],
        !p.feed(seq![FRAMING_BEGIN_FLAG] + frame(src, p.local_addr, payload)).in_frame(),
{
    let start = seq![FRAMING_BEGIN_FLAG];
    let f = frame(src, p.local_addr, payload);
    lemma_feed_one(p, FRAMING_BEGIN_FLAG);
    lemma_feed_concat(p, start, f);
    let q = p.step(FRAMING_BEGIN_FLAG);
    lemma_frame_roundtrip(q, src, payload);
}

/// Bytes of a frame as they are sent, each of them whole, leave no escape
/// open in a reader that had none open, and leave its address as it was.
pub proof fn lemma_stuffed_leaves_no_escape(p: Parser, data: Seq<u8>)
    requires
        !p.in_frame() || !p.escape,
    ensures
        !p.feed(stuffed(data)).in_frame() || !p.feed(stuffed(data)).escape,
        p.feed(stuffed(data)).local_addr == p.local_addr,
    decreases data.len(),
{
    if data.len() > 0 {
        let front = stuffed(data.drop_last());
        let o = data.last();
        lemma_stuffed_leaves_no_escape(p, data.drop_last());
        lemma_feed_concat(p, front, stuffed_octet(o));
        let q = p.feed(front);
        if q.in_frame() {
            lemma_read_octet(q, o);
        } else {
            lemma_flip(o);
            lemma_garbage_skipped(q, stuffed_octet(o), Seq::empty());
        }
    }
}

/// The last byte sent for a frame is not `ESC`, whatever checksum it carries.
pub proof fn lemma_sealed_ends_plain(src: u8, dst: u8, payload: Seq<u8>, crc: u16)
    ensures
        sealed(src, dst, payload, crc).len() > 0,
        sealed(src, dst, payload, crc).last() != FRAMING_ESC_FLAG,
{
    let body = frame_head(src, dst, payload.len()) + payload;
    let lo = (crc % 256) as u8;
    let hi = (crc / 256) as u8;
    assert(body + crc_bytes(crc) =~= body + seq![lo] + seq![hi]);
    lemma_stuffed_concat(body + seq![lo], seq![hi]);
    lemma_stuffed_one(hi);
    lemma_flip(hi);
}

/// A frame that is cut short before its last byte delivers nothing, and
/// the frame that follows it is received whole: a reader that reads the
/// bytes sent for a frame up to some byte of it, and then the bytes sent
/// for a frame addressed to it, delivers exactly the second frame.
pub proof fn lemma_cut_frame_then_frame(
    p: Parser,
    cut_src: u8,
    cut_dst: u8,
    cut_payload: Seq<u8>,
    count: int,
    src: u8,
    payload: Seq<u8>,
)
    requires
        !p.in_frame() || !p.escape,
        cut_payload.len() <= UXR_SERIAL_TRANSPORT_MTU,
        payload.len() <= UXR_SERIAL_TRANSPORT_MTU,
        0 <= count < cut_payload.len() + 6,
    ensures
        p.received(cut_frame(cut_src, cut_dst, cut_payload, count)) == Seq::<Frame>::empty(),
        !p.feed(cut_frame(cut_src, cut_dst, cut_payload, count)).in_frame() || !p.feed(
            cut_frame(cut_src, cut_dst, cut_payload, count),
        ).escape,
        p.feed(cut_frame(cut_src, cut_dst, cut_payload, count)).local_addr == p.local_addr,
        p.received(
            cut_frame(cut_src, cut_dst, cut_payload, count) + frame(src, p.local_addr, payload),
        ) == seq![Frame { src_addr: src, payload }],
        !p.feed(
            cut_frame(cut_src, cut_dst, cut_payload, count) + frame(src, p.local_addr, payload),
        ).in_frame(),
{
    let start = seq![FRAMING_BEGIN_FLAG];
    let crc = frame_crc(cut_src, cut_dst, cut_payload);
    let other: u16 = if crc >= 256 {
        (crc - 256) as u16
    } else {
        (crc + 256) as u16
    };
    let body = frame_head(cut_src, cut_dst, cut_payload.len()) + cut_payload;
    let all = body + crc_bytes(crc);
    let changed = body + crc_bytes(other);
    let cut = cut_frame(cut_src, cut_dst, cut_payload, count);
    let tail = stuffed(changed.skip(count));
    assert(all.take(count) =~= changed.take(count));
    assert(changed =~= changed.take(count) + changed.skip(count));
    lemma_stuffed_concat(changed.take(count), changed.skip(count));
    assert(sealed(cut_src, cut_dst, cut_payload, other) =~= cut + tail);
    lemma_read_sealed(p, cut_src, cut_dst, cut_payload, other);
    lemma_feed_concat(p, cut, tail);
    assert(p.received(cut) =~= Seq::<Frame>::empty());
    lemma_feed_concat(p, start, stuffed(all.take(count)));
    lemma_feed_one(p, FRAMING_BEGIN_FLAG);
    lemma_stuffed_leaves_no_escape(p.step(FRAMING_BEGIN_FLAG), all.take(count));
    let q = p.feed(cut);
    let f = frame(src, p.local_addr, payload);
    lemma_frame_roundtrip(q, src, payload);
    lemma_feed_concat(p, cut, f);
    assert(p.received(cut) + q.received(f) =~= q.received(f));
}

} // verus!
