//! The framed serial transport: a ring of bytes read from the link, a
//! staging buffer for bytes to be written, and the reader that finds frames
//! in what the ring holds.
use vstd::prelude::*;
use vstd::array::array_as_slice;
use vstd::slice::slice_subrange;
use crate::serial::SerialPlatformOps;
use crate::serial::crc::{crc16, crc16_from, crc16_update, uxr_update_crc};
use crate::serial::framing::{
    FramingInputState, Parser, Frame, FRAMING_BEGIN_FLAG, FRAMING_ESC_FLAG, FRAMING_XOR_FLAG,
    UXR_SERIAL_TRANSPORT_MTU, flip, stuffed_octet, stuffed, frame_head, frame_crc, crc_bytes,
    frame, sealed, cut_frame, lemma_feed_concat, lemma_feed_one, lemma_stuffed_concat,
    lemma_frame_roundtrip, lemma_garbage_skipped, lemma_cut_frame_then_frame,
    lemma_changed_payload_dropped, lemma_changed_crc_dropped, lemma_read_sealed,
    lemma_sealed_ends_plain,
};
use crate::communication::{Receiver, Transmitter, MAX_MESSAGE_SIZE};
use crate::time::{budget_after, Clock, remaining_budget};
use crate::{Error, Result};

verus! {

/// The number of places in the ring and in the staging buffer. The ring
/// keeps one place free, so it holds one byte less.
pub const FRAMING_BUFFER_SIZE: usize = 42;

/// What the reader finds next in the ring.
#[derive(Debug, Clone, Copy, PartialEq, Eq, Structural)]
pub enum Token {
    /// Nothing that can be read yet: the ring is empty, or holds only an `ESC`.
    Pending,
    /// A byte of a frame, as it was before stuffing.
    Octet(u8),
    /// `BEGIN`: a frame starts.
    Begin,
    /// `ESC` followed by `BEGIN`: the frame is given up.
    Abort,
}

/// What the reader finds first in `bytes`.
pub open spec fn first_token(bytes: Seq<u8>) -> Token {
    if bytes.len() == 0 {
        Token::Pending
    } else if bytes[0] == FRAMING_ESC_FLAG {
        if bytes.len() == 1 {
            Token::Pending
        } else if bytes[1] == FRAMING_BEGIN_FLAG {
            Token::Abort
        } else {
            Token::Octet(flip(bytes[1]))
        }
    } else if bytes[0] == FRAMING_BEGIN_FLAG {
        Token::Begin
    } else {
        Token::Octet(bytes[0])
    }
}

/// The number of bytes that make up what the reader finds first in `bytes`.
pub open spec fn first_token_len(bytes: Seq<u8>) -> nat {
    if bytes.len() == 0 {
        0
    } else if bytes[0] == FRAMING_ESC_FLAG {
        if bytes.len() == 1 { 0 } else { 2 }
    } else {
        1
    }
}

/// The ring holds nothing that the reader can read: nothing at all, or,
/// inside a frame, only an `ESC` whose byte has not come yet.
pub open spec fn nothing_to_read(pending: Seq<u8>, in_frame: bool) -> bool {
    first_token(pending) == Token::Pending && (!in_frame ==> pending.len() == 0)
}

/// The state of the framing layer.
pub struct FramingIO {
    state: FramingInputState,
    local_addr: u8,
    rb: [u8; 42],
    rb_head: usize,
    rb_tail: usize,
    src_addr: u8,
    dst_addr: u8,
    msg_len: u16,
    msg_pos: u16,
    msg_crc: u16,
    running_crc: u16,
    wb: [u8; 42],
    wb_pos: usize,
}

impl FramingIO {
    /// The indices lie inside their buffers and the reader has gathered no
    /// more than the frame it is in holds.
    #[verifier::type_invariant]
    spec fn inv(&self) -> bool {
        &&& self.rb_head < FRAMING_BUFFER_SIZE
        &&& self.rb_tail < FRAMING_BUFFER_SIZE
        &&& self.wb_pos <= FRAMING_BUFFER_SIZE
        &&& self.msg_pos <= self.msg_len
        &&& self.state != FramingInputState::FramingReadingLenMSB ==> self.msg_len
            <= UXR_SERIAL_TRANSPORT_MTU
        &&& self.state == FramingInputState::FramingReadingLenMSB ==> self.msg_len <= 255
        &&& self.state == FramingInputState::FramingReadingPayload ==> self.msg_pos < self.msg_len
        &&& (self.state == FramingInputState::FramingReadingCrcLSB || self.state
            == FramingInputState::FramingReadingCrcMSB) ==> self.msg_pos == self.msg_len
        &&& (self.state == FramingInputState::FramingReadingSrcAddr || self.state
            == FramingInputState::FramingReadingDstAddr || self.state
            == FramingInputState::FramingReadingLenLSB || self.state
            == FramingInputState::FramingReadingLenMSB) ==> self.msg_pos == 0
    }

    /// The bytes that were read from the link and not yet looked at, oldest first.
    pub closed spec fn pending(&self) -> Seq<u8> {
        if self.rb_head >= self.rb_tail {
            self.rb@.subrange(self.rb_tail as int, self.rb_head as int)
        } else {
            self.rb@.subrange(self.rb_tail as int, FRAMING_BUFFER_SIZE as int) + self.rb@.subrange(
                0,
                self.rb_head as int,
            )
        }
    }

    /// The bytes that wait to be written to the link.
    pub closed spec fn staged(&self) -> Seq<u8> {
        self.wb@.subrange(0, self.wb_pos as int)
    }

    /// The address that frames for this side carry as their destination.
    pub closed spec fn local(&self) -> u8 {
        self.local_addr
    }

    /// The reader of frames, where `out` is what the buffer for payloads holds.
    pub closed spec fn parser(&self, out: Seq<u8>) -> Parser {
        Parser {
            state: self.state,
            escape: false,
            local_addr: self.local_addr,
            src_addr: self.src_addr,
            dst_addr: self.dst_addr,
            msg_len: self.msg_len,
            msg_crc: self.msg_crc,
            running_crc: self.running_crc,
            payload: out.take(self.msg_pos as int),
        }
    }

    /// The framing layer of the side with the given address: nothing read,
    /// nothing staged, waiting for a frame to begin.
    pub fn new(local_addr: u8) -> (io: Self)
        ensures
            io.pending() == Seq::<u8>::empty(),
            io.staged() == Seq::<u8>::empty(),
            io.local() == local_addr,
            forall|out: Seq<u8>| #[trigger] io.parser(out) == Parser::idle(local_addr),
    {
        let io = FramingIO {
            state: FramingInputState::FramingUninitialized,
            src_addr: 0,
            dst_addr: 0,
            msg_len: 0,
            msg_pos: 0,
            msg_crc: 0,
            running_crc: 0,
            local_addr,
            rb: [0u8; 42],
            rb_head: 0,
            rb_tail: 0,
            wb: [0u8; 42],
            wb_pos: 0,
        };
        proof {
            assert forall|out: Seq<u8>| #[trigger] io.parser(out) == Parser::idle(local_addr) by {
                assert(out.take(0) =~= Seq::<u8>::empty());
            }
        }
        io
    }

    /// The number of bytes in the ring.
    pub fn pending_len(&self) -> (n: usize)
        ensures
            n == self.pending().len(),
            n < FRAMING_BUFFER_SIZE,
    {
        proof {
            use_type_invariant(self);
        }
        if self.rb_head >= self.rb_tail {
            self.rb_head - self.rb_tail
        } else {
            FRAMING_BUFFER_SIZE - self.rb_tail + self.rb_head
        }
    }

    /// The byte at place `i` of the ring, counted from the oldest.
    fn peek(&self, i: usize) -> (b: u8)
        requires
            i < self.pending().len(),
        ensures
            b == self.pending()[i as int],
    {
        proof {
            use_type_invariant(self);
        }
        self.rb[(self.rb_tail + i) % FRAMING_BUFFER_SIZE]
    }

    /// Drops the `n` oldest bytes of the ring.
    fn discard(&mut self, n: usize)
        requires
            n <= old(self).pending().len(),
        ensures
            final(self).pending() == old(self).pending().skip(n as int),
            final(self).staged() == old(self).staged(),
            final(self).local() == old(self).local(),
            forall|out: Seq<u8>| #[trigger] final(self).parser(out) == old(self).parser(out),
    {
        proof {
            use_type_invariant(&*self);
        }
        self.rb_tail = (self.rb_tail + n) % FRAMING_BUFFER_SIZE;
    }

    /// Appends a byte to the ring, which must have room.
    fn push(&mut self, b: u8)
        requires
            old(self).pending().len() < FRAMING_BUFFER_SIZE - 1,
        ensures
            final(self).pending() == old(self).pending().push(b),
            final(self).staged() == old(self).staged(),
            final(self).local() == old(self).local(),
            forall|out: Seq<u8>| #[trigger] final(self).parser(out) == old(self).parser(out),
    {
        proof {
            use_type_invariant(&*self);
        }
        self.rb[self.rb_head] = b;
        self.rb_head = (self.rb_head + 1) % FRAMING_BUFFER_SIZE;
    }

    /// Takes from the ring what the reader finds first in it.
    fn next_token(&mut self) -> (token: Token)
        ensures
            token == first_token(old(self).pending()),
            final(self).pending() == old(self).pending().skip(
                first_token_len(old(self).pending()) as int,
            ),
            final(self).staged() == old(self).staged(),
            final(self).local() == old(self).local(),
            forall|out: Seq<u8>| #[trigger] final(self).parser(out) == old(self).parser(out),
    {
        proof {
            use_type_invariant(&*self);
        }
        let n = self.pending_len();
        if n == 0 {
            return Token::Pending;
        }
        let first = self.peek(0);
        if first == FRAMING_ESC_FLAG {
            if n == 1 {
                return Token::Pending;
            }
            let second = self.peek(1);
            self.discard(2);
            if second == FRAMING_BEGIN_FLAG {
                Token::Abort
            } else {
                Token::Octet(second ^ FRAMING_XOR_FLAG)
            }
        } else {
            self.discard(1);
            if first == FRAMING_BEGIN_FLAG {
                Token::Begin
            } else {
                Token::Octet(first)
            }
        }
    }

    /// Takes the next byte of a frame from the ring, undoing the stuffing.
    /// There is none if the ring is empty or holds only an `ESC`, which then
    /// stays; and none if `BEGIN` comes next, alone or after `ESC`, which is
    /// then taken from the ring.
    pub fn get_next_octet(&mut self) -> (r: Option<u8>)
        ensures
            r == match first_token(old(self).pending()) {
                Token::Octet(octet) => Some(octet),
                _ => None::<u8>,
            },
            final(self).pending() == old(self).pending().skip(
                first_token_len(old(self).pending()) as int,
            ),
            final(self).staged() == old(self).staged(),
            final(self).local() == old(self).local(),
            forall|out: Seq<u8>| #[trigger] final(self).parser(out) == old(self).parser(out),
    {
        proof {
            use_type_invariant(&*self);
        }
        match self.next_token() {
            Token::Octet(octet) => Some(octet),
            _ => None,
        }
    }

    /// Stages a byte of a frame, stuffed if need be. Stages nothing and
    /// says so if the staging buffer has no room for it.
    pub fn add_nex_octet(&mut self, octet: u8) -> (staged: bool)
        ensures
            staged <==> old(self).staged().len() + stuffed_octet(octet).len()
                <= FRAMING_BUFFER_SIZE,
            final(self).staged() == if staged {
                old(self).staged() + stuffed_octet(octet)
            } else {
                old(self).staged()
            },
            final(self).pending() == old(self).pending(),
            final(self).local() == old(self).local(),
            forall|out: Seq<u8>| #[trigger] final(self).parser(out) == old(self).parser(out),
    {
        proof {
            use_type_invariant(&*self);
        }
        if octet == FRAMING_BEGIN_FLAG || octet == FRAMING_ESC_FLAG {
            if self.wb_pos + 1 < FRAMING_BUFFER_SIZE {
                self.wb[self.wb_pos] = FRAMING_ESC_FLAG;
                self.wb[self.wb_pos + 1] = octet ^ FRAMING_XOR_FLAG;
                self.wb_pos = self.wb_pos + 2;
                true
            } else {
                false
            }
        } else {
            if self.wb_pos < FRAMING_BUFFER_SIZE {
                self.wb[self.wb_pos] = octet;
                self.wb_pos = self.wb_pos + 1;
                true
            } else {
                false
            }
        }
    }

    /// The address that frames for this side carry as their destination.
    pub fn local_addr(&self) -> (addr: u8)
        ensures
            addr == self.local(),
    {
        proof {
            use_type_invariant(self);
        }
        self.local_addr
    }

    /// The source address of the frame that is being read or was read last.
    pub fn source(&self) -> (src: u8)
        ensures
            forall|out: Seq<u8>| #[trigger] self.parser(out).src_addr == src,
    {
        proof {
            use_type_invariant(self);
        }
        self.src_addr
    }

    /// Whether the ring holds something that the reader can read: any byte
    /// while it waits for a frame to begin, and inside a frame anything but
    /// a lone `ESC`.
    pub fn has_readable(&self) -> (readable: bool)
        ensures
            forall|out: Seq<u8>|
                readable == !nothing_to_read(
                    self.pending(),
                    (#[trigger] self.parser(out)).in_frame(),
                ),
    {
        proof {
            use_type_invariant(self);
        }
        let n = self.pending_len();
        if n == 0 {
            false
        } else if self.state == FramingInputState::FramingUninitialized {
            true
        } else {
            !(n == 1 && self.peek(0) == FRAMING_ESC_FLAG)
        }
    }

    /// The number of bytes that the frame being read still needs at least:
    /// what is missing of its head, payload and checksum.
    pub fn wanted(&self) -> (n: usize)
        ensures
            1 <= n <= UXR_SERIAL_TRANSPORT_MTU + 2,
            forall|out: Seq<u8>|
                out.len() >= UXR_SERIAL_TRANSPORT_MTU ==> n == (#[trigger] self.parser(
                    out,
                )).missing(),
    {
        proof {
            use_type_invariant(self);
        }
        match self.state {
            FramingInputState::FramingUninitialized => 5,
            FramingInputState::FramingReadingSrcAddr => 4,
            FramingInputState::FramingReadingDstAddr => 3,
            FramingInputState::FramingReadingLenLSB => 2,
            FramingInputState::FramingReadingLenMSB => 1,
            FramingInputState::FramingReadingPayload => (self.msg_len - self.msg_pos) as usize + 2,
            FramingInputState::FramingReadingCrcLSB => 2,
            FramingInputState::FramingReadingCrcMSB => 1,
        }
    }

    /// How many bytes the ring can take at most in one piece and, after
    /// that, in a second piece, if no more than `max_size` are wanted.
    /// An empty ring is rewound first, so that it takes all in one piece.
    pub fn free_windows(&mut self, max_size: usize) -> (r: (usize, usize))
        ensures
            final(self).pending() == old(self).pending(),
            final(self).staged() == old(self).staged(),
            final(self).local() == old(self).local(),
            forall|out: Seq<u8>| #[trigger] final(self).parser(out) == old(self).parser(out),
            r.0 + r.1 == if max_size < FRAMING_BUFFER_SIZE - 1 - old(self).pending().len() {
                max_size as int
            } else {
                FRAMING_BUFFER_SIZE - 1 - old(self).pending().len()
            },
            r.0 == 0 ==> r.1 == 0,
    {
        proof {
            use_type_invariant(&*self);
        }
        let size = FRAMING_BUFFER_SIZE;
        let (first, second) = if self.rb_head == self.rb_tail {
            self.rb_head = 0;
            self.rb_tail = 0;
            (size - 1, 0)
        } else if self.rb_head > self.rb_tail {
            if 0 < self.rb_tail {
                (size - self.rb_head, self.rb_tail - 1)
            } else {
                (size - self.rb_head - 1, 0)
            }
        } else {
            (self.rb_tail - self.rb_head - 1, 0)
        };
        if max_size < first {
            (max_size, 0)
        } else if max_size < first + second {
            (first, max_size - first)
        } else {
            (first, second)
        }
    }

    /// Appends the first `count` bytes of `data` to the ring, which must have room.
    pub fn push_all(&mut self, data: &[u8], count: usize)
        requires
            count <= data@.len(),
            old(self).pending().len() + count <= FRAMING_BUFFER_SIZE - 1,
        ensures
            final(self).pending() == old(self).pending() + data@.take(count as int),
            final(self).staged() == old(self).staged(),
            final(self).local() == old(self).local(),
            forall|out: Seq<u8>| #[trigger] final(self).parser(out) == old(self).parser(out),
    {
        proof {
            use_type_invariant(&*self);
        }
        let mut i: usize = 0;
        while i < count
            invariant
                i <= count <= data@.len(),
                old(self).pending().len() + count <= FRAMING_BUFFER_SIZE - 1,
                self.pending() == old(self).pending() + data@.take(i as int),
                self.staged() == old(self).staged(),
                self.local() == old(self).local(),
                forall|out: Seq<u8>| #[trigger] self.parser(out) == old(self).parser(out),
            decreases count - i,
        {
            proof {
                use_type_invariant(&*self);
            }
            self.push(data[i]);
            i = i + 1;
        }
    }

    /// Empties the staging buffer and stages the byte that starts a frame.
    pub fn start_frame(&mut self)
        ensures
            final(self).staged() == seq![FRAMING_BEGIN_FLAG],
            final(self).pending() == old(self).pending(),
            final(self).local() == old(self).local(),
            forall|out: Seq<u8>| #[trigger] final(self).parser(out) == old(self).parser(out),
    {
        proof {
            use_type_invariant(&*self);
        }
        self.wb[0] = FRAMING_BEGIN_FLAG;
        self.wb_pos = 1;
    }

    /// Empties the staging buffer.
    pub fn clear_staged(&mut self)
        ensures
            final(self).staged() == Seq::<u8>::empty(),
            final(self).pending() == old(self).pending(),
            final(self).local() == old(self).local(),
            forall|out: Seq<u8>| #[trigger] final(self).parser(out) == old(self).parser(out),
    {
        proof {
            use_type_invariant(&*self);
        }
        self.wb_pos = 0;
    }

    /// The staged bytes from place `from` on.
    pub fn staged_from(&self, from: usize) -> (chunk: &[u8])
        requires
            from <= self.staged().len(),
        ensures
            chunk@ == self.staged().skip(from as int),
    {
        proof {
            use_type_invariant(self);
        }
        let chunk = slice_subrange(array_as_slice(&self.wb), from, self.wb_pos);
        chunk
    }

    /// The number of staged bytes.
    pub fn staged_len(&self) -> (n: usize)
        ensures
            n == self.staged().len(),
            n <= FRAMING_BUFFER_SIZE,
    {
        proof {
            use_type_invariant(self);
        }
        self.wb_pos
    }

    /// Starts a frame: nothing of it is gathered yet.
    fn begin(&mut self)
        ensures
            final(self).pending() == old(self).pending(),
            final(self).staged() == old(self).staged(),
            final(self).local() == old(self).local(),
            forall|out: Seq<u8>| #[trigger]
                final(self).parser(out) == old(self).parser(out).begin(),
    {
        proof {
            use_type_invariant(&*self);
        }
        *self = FramingIO {
            state: FramingInputState::FramingReadingSrcAddr,
            src_addr: 0,
            dst_addr: 0,
            msg_len: 0,
            msg_pos: 0,
            msg_crc: 0,
            running_crc: 0,
            ..*self
        };
        proof {
            assert forall|out: Seq<u8>| #[trigger]
                self.parser(out) == old(self).parser(out).begin() by {
                assert(out.take(0) =~= Seq::<u8>::empty());
            }
        }
    }

    /// Gives up the frame that is being read.
    fn abandon(&mut self)
        ensures
            final(self).pending() == old(self).pending(),
            final(self).staged() == old(self).staged(),
            final(self).local() == old(self).local(),
            forall|out: Seq<u8>| #[trigger]
                final(self).parser(out) == old(self).parser(out).abandon(),
    {
        proof {
            use_type_invariant(&*self);
        }
        self.state = FramingInputState::FramingUninitialized;
    }

    /// Takes one more byte of the frame that is being read, as it was
    /// before stuffing, and says whether it ends a frame that is delivered.
    /// The bytes of the payload go to `out`.
    fn accept(&mut self, octet: u8, out: &mut [u8; 512]) -> (delivered: bool)
        requires
            old(self).parser(old(out)@).in_frame(),
        ensures
            final(self).pending() == old(self).pending(),
            final(self).staged() == old(self).staged(),
            final(self).local() == old(self).local(),
            final(self).parser(final(out)@) == old(self).parser(old(out)@).accept(octet),
            delivered == old(self).parser(old(out)@).accepts_frame(octet),
            delivered ==> final(self).msg_pos == final(self).msg_len,
    {
        proof {
            use_type_invariant(&*self);
        }
        let ghost before = self.parser(out@);
        match self.state {
            FramingInputState::FramingUninitialized => false,
            FramingInputState::FramingReadingSrcAddr => {
                self.src_addr = octet;
                self.state = FramingInputState::FramingReadingDstAddr;
                false
            },
            FramingInputState::FramingReadingDstAddr => {
                self.dst_addr = octet;
                self.state = FramingInputState::FramingReadingLenLSB;
                false
            },
            FramingInputState::FramingReadingLenLSB => {
                self.msg_len = octet as u16;
                self.state = FramingInputState::FramingReadingLenMSB;
                false
            },
            FramingInputState::FramingReadingLenMSB => {
                let len: u32 = self.msg_len as u32 + 256 * (octet as u32);
                if len > UXR_SERIAL_TRANSPORT_MTU as u32 {
                    self.state = FramingInputState::FramingUninitialized;
                } else {
                    let low = self.msg_len as u8;
                    let mut crc: u16 = 0;
                    uxr_update_crc(&mut crc, self.src_addr);
                    uxr_update_crc(&mut crc, self.dst_addr);
                    uxr_update_crc(&mut crc, low);
                    uxr_update_crc(&mut crc, octet);
                    proof {
                        lemma_crc16_four(self.src_addr, self.dst_addr, low, octet);
                    }
                    *self = FramingIO {
                        running_crc: crc,
                        msg_len: len as u16,
                        state: if len == 0 {
                            FramingInputState::FramingReadingCrcLSB
                        } else {
                            FramingInputState::FramingReadingPayload
                        },
                        ..*self
                    };
                }
                false
            },
            FramingInputState::FramingReadingPayload => {
                out[self.msg_pos as usize] = octet;
                let mut crc = self.running_crc;
                uxr_update_crc(&mut crc, octet);
                *self = FramingIO {
                    running_crc: crc,
                    msg_pos: self.msg_pos + 1,
                    state: if self.msg_pos + 1 == self.msg_len {
                        FramingInputState::FramingReadingCrcLSB
                    } else {
                        FramingInputState::FramingReadingPayload
                    },
                    ..*self
                };
                proof {
                    assert(out@.take(self.msg_pos as int) =~= before.payload.push(octet));
                }
                false
            },
            FramingInputState::FramingReadingCrcLSB => {
                self.msg_crc = octet as u16;
                self.state = FramingInputState::FramingReadingCrcMSB;
                false
            },
            FramingInputState::FramingReadingCrcMSB => {
                let crc: u32 = self.msg_crc as u32 + 256 * (octet as u32);
                self.msg_crc = crc as u16;
                self.state = FramingInputState::FramingUninitialized;
                crc == self.running_crc as u32 && self.dst_addr == self.local_addr
            },
        }
    }

    /// Reads what the ring holds until a frame is delivered or nothing
    /// more can be read, and returns the length of the payload of the frame
    /// that was delivered. The payload is then at the start of `out`.
    ///
    /// Bytes before `BEGIN` are skipped; `BEGIN` starts a frame wherever it
    /// comes; `ESC` followed by `BEGIN` gives the frame up; a frame that is
    /// longer than `out`, fails its checksum or is addressed to another is
    /// dropped. An `ESC` at the end of the ring stays there until the byte
    /// after it has come.
    pub fn read_frame(&mut self, out: &mut [u8; 512]) -> (r: Option<usize>)
        ensures
            final(self).staged() == old(self).staged(),
            final(self).local() == old(self).local(),
            is_suffix(final(self).pending(), old(self).pending()),
            final(self).parser(final(out)@) == old(self).parser(old(out)@).feed(
                consumed(old(self).pending(), final(self).pending()),
            ),
            match r {
                Some(n) => {
                    &&& n <= UXR_SERIAL_TRANSPORT_MTU
                    &&& !final(self).parser(final(out)@).in_frame()
                    &&& old(self).parser(old(out)@).received(
                        consumed(old(self).pending(), final(self).pending()),
                    ) == seq![
                        Frame {
                            src_addr: final(self).parser(final(out)@).src_addr,
                            payload: final(out)@.take(n as int),
                        },
                    ]
                },
                None => {
                    &&& old(self).parser(old(out)@).received(
                        consumed(old(self).pending(), final(self).pending()),
                    ) == Seq::<Frame>::empty()
                    &&& first_token(final(self).pending()) == Token::Pending
                    &&& !final(self).parser(final(out)@).in_frame() ==> final(self).pending().len()
                        == 0
                },
            },
    {
        proof {
            use_type_invariant(&*self);
        }
        let ghost input = self.pending();
        let ghost reader = self.parser(out@);
        proof {
            assert(input.skip(0) =~= input);
        }
        loop
            invariant
                self.staged() == old(self).staged(),
                self.local() == old(self).local(),
                is_suffix(self.pending(), input),
                self.parser(out@) == reader.feed(consumed(input, self.pending())),
                reader.received(consumed(input, self.pending())) == Seq::<Frame>::empty(),
                input == old(self).pending(),
                reader == old(self).parser(old(out)@),
            decreases self.pending().len(),
        {
            proof {
                use_type_invariant(&*self);
            }
            let ghost rest = self.pending();
            let ghost used = consumed(input, rest);
            let ghost q = self.parser(out@);
            if self.state == FramingInputState::FramingUninitialized {
                if self.pending_len() == 0 {
                    return None;
                }
                let b = self.peek(0);
                self.discard(1);
                if b == FRAMING_BEGIN_FLAG {
                    self.begin();
                }
                proof {
                    lemma_consumed_more(input, rest, 1);
                    assert(rest.take(1) =~= seq![b]);
                    lemma_feed_one(q, b);
                    lemma_feed_concat(reader, used, seq![b]);
                }
            } else {
                let token = self.next_token();
                let ghost count = first_token_len(rest);
                proof {
                    if count > 0 {
                        lemma_consumed_more(input, rest, count as int);
                        lemma_token_step(q, rest);
                        lemma_feed_concat(reader, used, rest.take(count as int));
                    }
                }
                match token {
                    Token::Pending => {
                        proof {
                            assert(rest.skip(0) =~= rest);
                        }
                        return None;
                    },
                    Token::Begin => {
                        self.begin();
                    },
                    Token::Abort => {
                        self.abandon();
                    },
                    Token::Octet(octet) => {
                        let delivered = self.accept(octet, out);
                        if delivered {
                            return Some(self.msg_len as usize);
                        }
                    },
                }
            }
        }
    }
}

/// `rest` is what is left of `input` when its first bytes are taken away.
pub open spec fn is_suffix(rest: Seq<u8>, input: Seq<u8>) -> bool {
    rest.len() <= input.len() && input.skip(input.len() - rest.len()) == rest
}

/// The first bytes of `input`, up to where `rest` starts.
pub open spec fn consumed(input: Seq<u8>, rest: Seq<u8>) -> Seq<u8> {
    input.take(input.len() - rest.len())
}

/// Taking `count` more bytes from what is left adds them to what was taken.
proof fn lemma_consumed_more(input: Seq<u8>, rest: Seq<u8>, count: int)
    requires
        is_suffix(rest, input),
        0 <= count <= rest.len(),
    ensures
        is_suffix(rest.skip(count), input),
        consumed(input, rest.skip(count)) == consumed(input, rest) + rest.take(count),
{
    let k = input.len() - rest.len();
    assert(input.skip(k + count) =~= rest.skip(count));
}

/// The checksum of four bytes is four updates from zero.
proof fn lemma_crc16_four(a: u8, b: u8, c: u8, d: u8)
    ensures
        crc16(seq![a, b, c, d]) == crc16_update(
            crc16_update(crc16_update(crc16_update(0, a), b), c),
            d,
        ),
{
    reveal_with_fuel(crc16_from, 5);
}

/// A reader inside a frame that reads the bytes of what it finds first has
/// started a frame, given one up, or taken a byte of the frame, as the
/// case may be, and has delivered a frame if that byte ended one.
proof fn lemma_token_step(q: Parser, bytes: Seq<u8>)
    requires
        q.in_frame(),
        !q.escape,
        first_token_len(bytes) > 0,
    ensures
        q.feed(bytes.take(first_token_len(bytes) as int)) == match first_token(bytes) {
            Token::Pending => q,
            Token::Begin => q.begin(),
            Token::Abort => q.abandon(),
            Token::Octet(octet) => q.accept(octet),
        },
        q.received(bytes.take(first_token_len(bytes) as int)) == match first_token(bytes) {
            Token::Octet(octet) => if q.accepts_frame(octet) {
                seq![q.gathered()]
            } else {
                Seq::<Frame>::empty()
            },
            _ => Seq::<Frame>::empty(),
        },
{
    let count = first_token_len(bytes) as int;
    if count == 1 {
        assert(bytes.take(1) =~= seq![bytes[0]]);
        lemma_feed_one(q, bytes[0]);
    } else {
        let first = seq![bytes[0]];
        let second = seq![bytes[1]];
        assert(bytes.take(2) =~= first + second);
        lemma_feed_concat(q, first, second);
        lemma_feed_one(q, bytes[0]);
        let e = q.step(bytes[0]);
        lemma_feed_one(e, bytes[1]);
    }
}


/// `a` is how `b` starts.
pub open spec fn is_prefix(a: Seq<u8>, b: Seq<u8>) -> bool {
    a.len() <= b.len() && b.take(a.len() as int) == a
}

/// Reading goes on where it stopped: what is left after some bytes were
/// taken, more bytes were added and again some were taken, is what is left
/// of all the bytes, and what was taken in all is what was taken first and
/// then.
pub proof fn lemma_consumed_compose(
    input: Seq<u8>,
    rest: Seq<u8>,
    more: Seq<u8>,
    last: Seq<u8>,
)
    requires
        is_suffix(rest, input),
        is_suffix(last, rest + more),
    ensures
        is_suffix(last, input + more),
        consumed(input + more, last) == consumed(input, rest) + consumed(rest + more, last),
{
    let k = input.len() - rest.len();
    let j = (rest + more).len() - last.len();
    assert((input + more).skip(k + j) =~= (rest + more).skip(j));
}

/// A frame that `receive_msg` passes over: it comes from another than the
/// agent, or carries nothing.
pub open spec fn passed_over(f: Frame, remote_addr: u8) -> bool {
    f.src_addr != remote_addr || f.payload.len() == 0
}

/// The number of times `receive_msg` asks the link again for bytes before
/// it gives up, however much of its time is left.
pub const RECEIVE_POLL_LIMIT: u32 = u32::MAX;

/// The transport of XRCE messages over a serial link to one agent.
///
/// The transport keeps a record of the link for its contracts to speak of:
/// the bytes that the link said it took, the bytes that it handed over,
/// its failures, and what its clock said each time it was read. The record
/// is taken from what the calls of the platform return; a platform that
/// claims more bytes than it was given room for is treated as failed, and
/// what it claimed is not recorded.
pub struct SerialTransport<Comm: SerialPlatformOps> {
    buffer: [u8; 512],
    framing_io: FramingIO,
    remote_addr: u8,
    platform: Comm,
    sent: Ghost<Seq<u8>>,
    received: Ghost<Seq<u8>>,
    faults: Ghost<Seq<Error>>,
    readings: Ghost<Seq<i32>>,
}

/// The failure of the link that a result of writing stands for, if any:
/// writing fails with `IoError` when the link does.
pub open spec fn write_fault<S>(r: Result<S>) -> Option<Error> {
    match r {
        Err(Error::IoError) => Some(Error::IoError),
        _ => None,
    }
}

/// The failure of the link that a result of reading stands for, if any:
/// reading fails with the error of the link.
pub open spec fn read_fault<S>(r: Result<S>) -> Option<Error> {
    match r {
        Err(e) => Some(e),
        Ok(_) => None,
    }
}

impl<Comm: SerialPlatformOps> SerialTransport<Comm> {
    /// The state of the framing layer.
    pub closed spec fn framing(&self) -> FramingIO {
        self.framing_io
    }

    /// The platform that the transport reads from and writes to.
    pub closed spec fn link(&self) -> Comm {
        self.platform
    }

    /// Every byte that the link said it took from this transport, in order.
    pub closed spec fn sent(&self) -> Seq<u8> {
        self.sent@
    }

    /// Every byte that the link has handed to this transport, in order.
    pub closed spec fn received(&self) -> Seq<u8> {
        self.received@
    }

    /// Every failure of the link, in order, by the error that the
    /// transport returned for it: an error that the link answered to a
    /// read, `IoError` for an error that it answered to a write, and
    /// `IoError` for a claim of more bytes than it was given or asked for.
    pub closed spec fn faults(&self) -> Seq<Error> {
        self.faults@
    }

    /// What the clock of the platform said each time the transport read
    /// it, in order.
    pub closed spec fn readings(&self) -> Seq<i32> {
        self.readings@
    }

    /// The clock was read `count` times since `before`.
    pub open spec fn clock_read(&self, before: &Self, count: nat) -> bool {
        &&& self.readings().len() == before.readings().len() + count
        &&& self.readings().take(before.readings().len() as int) == before.readings()
    }

    /// The clock was read some number of times since `before`.
    pub open spec fn clock_read_on(&self, before: &Self) -> bool {
        &&& self.readings().len() >= before.readings().len()
        &&& self.readings().take(before.readings().len() as int) == before.readings()
    }

    /// What the clock said when it was read for the `i`-th time since `before`.
    pub open spec fn reading_since(&self, before: &Self, i: int) -> i32 {
        self.readings()[before.readings().len() + i]
    }

    /// The link has failed once since `before`, with `fault`, or not at
    /// all if there is none.
    pub open spec fn failed_with(&self, before: &Self, fault: Option<Error>) -> bool {
        self.faults() == match fault {
            Some(e) => before.faults().push(e),
            None => before.faults(),
        }
    }

    /// The address of the agent.
    pub closed spec fn remote(&self) -> u8 {
        self.remote_addr
    }

    /// What the buffer for payloads holds.
    pub closed spec fn message(&self) -> Seq<u8> {
        self.buffer@
    }

    /// The reader of frames.
    pub open spec fn parser(&self) -> Parser {
        self.framing().parser(self.message())
    }

    /// The bytes that the link has handed over since it had handed over `before`.
    pub open spec fn arrived(&self, before: Seq<u8>) -> Seq<u8> {
        self.received().skip(before.len() as int)
    }

    /// All the bytes that were there to be read since `before`: what the
    /// ring held then and what the link has handed over since.
    pub open spec fn input_since(&self, before: &Self) -> Seq<u8> {
        before.framing().pending() + self.arrived(before.received())
    }

    /// The bytes that were read since `before`.
    pub open spec fn read_since(&self, before: &Self) -> Seq<u8> {
        consumed(self.input_since(before), self.framing().pending())
    }

    /// The frames that were delivered since `before`, in order.
    pub open spec fn frames_since(&self, before: &Self) -> Seq<Frame> {
        before.parser().received(self.read_since(before))
    }

    /// This transport is `before` after some reading: the link has handed
    /// over more bytes, which went to the ring; the reader has read some of
    /// what the ring held and got, and the ring holds the rest. Nothing
    /// was written.
    pub open spec fn read_on(&self, before: &Self) -> bool {
        &&& is_prefix(before.received(), self.received())
        &&& self.sent() == before.sent()
        &&& is_suffix(self.framing().pending(), self.input_since(before))
        &&& self.parser() == before.parser().feed(self.read_since(before))
        &&& self.framing().staged() == before.framing().staged()
        &&& self.framing().local() == before.framing().local()
        &&& self.remote() == before.remote()
    }

    /// The reader has read all that the ring held: nothing is left, or,
    /// inside a frame, only an `ESC` whose byte has not come yet.
    pub open spec fn read_all(&self) -> bool {
        nothing_to_read(self.framing().pending(), self.parser().in_frame())
    }

    /// This transport is `before` after some writing: nothing was read.
    pub open spec fn wrote_on(&self, before: &Self) -> bool {
        &&& self.received() == before.received()
        &&& self.framing().pending() == before.framing().pending()
        &&& self.parser() == before.parser()
        &&& self.message() == before.message()
        &&& self.framing().local() == before.framing().local()
        &&& self.remote() == before.remote()
    }

    /// A transport for the side with address `local_addr` that talks to the
    /// agent with address `remote_addr` over the given platform.
    pub fn new(platform: Comm, remote_addr: u8, local_addr: u8) -> (transport: Self)
        ensures
            transport.link() == platform,
            transport.sent() == Seq::<u8>::empty(),
            transport.received() == Seq::<u8>::empty(),
            transport.faults() == Seq::<Error>::empty(),
            transport.readings() == Seq::<i32>::empty(),
            transport.remote() == remote_addr,
            transport.framing().local() == local_addr,
            transport.framing().pending() == Seq::<u8>::empty(),
            transport.framing().staged() == Seq::<u8>::empty(),
            transport.parser() == Parser::idle(local_addr),
    {
        SerialTransport {
            buffer: [0u8; 512],
            framing_io: FramingIO::new(local_addr),
            remote_addr,
            platform,
            sent: Ghost(Seq::empty()),
            received: Ghost(Seq::empty()),
            faults: Ghost(Seq::empty()),
            readings: Ghost(Seq::empty()),
        }
    }

    /// Ends the transport and gives the platform back.
    pub fn release(self) -> (platform: Comm)
        ensures
            platform == self.link(),
    {
        self.platform
    }

    /// Writes the staged bytes to the link, again and again as long as the
    /// link takes some, and empties the staging buffer. Says how many bytes
    /// the link took if it did not take all. A link that fails, or claims
    /// to have taken more than it was given, is an `IoError`. With nothing
    /// staged the link is not asked. What follows each answer of the link
    /// is what `after_write` says.
    pub fn framing_write_transport(&mut self) -> (r: Result<usize>)
        ensures
            final(self).wrote_on(old(self)),
            final(self).failed_with(old(self), write_fault(r)),
            final(self).readings() == old(self).readings(),
            final(self).framing().staged() == Seq::<u8>::empty(),
            old(self).framing().staged().len() == 0 ==> r == Ok::<usize, Error>(0),
            match r {
                Ok(n) => n == old(self).framing().staged().len() && final(self).sent()
                    == old(self).sent() + old(self).framing().staged(),
                Err(Error::PartWritten(n)) => {
                    &&& n < old(self).framing().staged().len()
                    &&& final(self).sent() == old(self).sent() + old(self).framing().staged().take(
                        n as int,
                    )
                },
                Err(e) => {
                    &&& e == Error::IoError
                    &&& is_prefix(old(self).sent(), final(self).sent())
                    &&& is_prefix(
                        final(self).sent(),
                        old(self).sent() + old(self).framing().staged(),
                    )
                },
            },
    {
        let total = self.framing_io.staged_len();
        let mut written: usize = 0;
        let ghost staged = self.framing_io.staged();
        while written < total
            invariant
                written <= total,
                total == staged.len(),
                self.framing_io.staged() == staged,
                staged == old(self).framing().staged(),
                self.wrote_on(old(self)),
                self.faults() == old(self).faults(),
                self.readings() == old(self).readings(),
                self.sent@ == old(self).sent() + staged.take(written as int),
            decreases total - written,
        {
            let chunk = self.framing_io.staged_from(written);
            let answer = self.platform.write_serial_data(chunk);
            proof {
                lemma_part_sent(old(self).sent(), staged, written as int);
                if let Ok(n) = answer {
                    if n <= total - written {
                        self.sent@ = self.sent@ + chunk@.take(n as int);
                        assert(old(self).sent() + staged.take(written as int) + chunk@.take(
                            n as int,
                        ) =~= old(self).sent() + staged.take(written + n));
                    }
                }
            }
            match after_write(written, total, answer) {
                WriteNext::More(taken) => {
                    written = taken;
                },
                WriteNext::Done(result) => {
                    self.framing_io.clear_staged();
                    proof {
                        assert(staged.take(total as int) =~= staged);
                        if let Some(fault) = write_fault(result) {
                            self.faults@ = self.faults@.push(fault);
                        }
                    }
                    return result;
                },
            }
        }
        self.framing_io.clear_staged();
        proof {
            assert(staged.take(total as int) =~= staged);
        }
        Ok(written)
    }

    /// Stages one byte of a frame, stuffed if need be. If the staging
    /// buffer has no room for it, the staged bytes are written to the link
    /// first.
    fn stage_octet(&mut self, octet: u8) -> (r: Result<()>)
        ensures
            final(self).wrote_on(old(self)),
            final(self).failed_with(old(self), write_fault(r)),
            final(self).readings() == old(self).readings(),
            match r {
                Ok(()) => {
                    &&& is_prefix(old(self).sent(), final(self).sent())
                    &&& final(self).sent() + final(self).framing().staged() == old(self).sent()
                        + old(self).framing().staged() + stuffed_octet(octet)
                },
                Err(e) => {
                    &&& e is PartWritten || e == Error::IoError
                    &&& is_prefix(old(self).sent(), final(self).sent())
                    &&& is_prefix(
                        final(self).sent(),
                        old(self).sent() + old(self).framing().staged(),
                    )
                    &&& final(self).framing().staged() == Seq::<u8>::empty()
                },
            },
    {
        let ghost sent = self.sent@;
        let ghost staged = self.framing_io.staged();
        proof {
            assert(sent.take(sent.len() as int) =~= sent);
        }
        if !self.framing_io.add_nex_octet(octet) {
            match self.framing_write_transport() {
                Ok(_) => {},
                Err(e) => {
                    proof {
                        if let Error::PartWritten(n) = e {
                            lemma_part_sent(sent, staged, n as int);
                        }
                    }
                    return Err(e);
                },
            }
            let fits = self.framing_io.add_nex_octet(octet);
            assert(fits);
            proof {
                assert((sent + staged).take(sent.len() as int) =~= sent);
            }
        }
        Ok(())
    }

    /// Stages byte `at` of the frame whose bytes before stuffing are `all`,
    /// where the bytes before it are staged or sent already.
    fn stage_frame_octet(
        &mut self,
        octet: u8,
        written_len: usize,
        Ghost(sent0): Ghost<Seq<u8>>,
        Ghost(all): Ghost<Seq<u8>>,
        Ghost(at): Ghost<int>,
        Ghost(upto): Ghost<int>,
    ) -> (r: Result<()>)
        requires
            0 <= at < all.len(),
            at <= upto <= all.len(),
            all[at] == octet,
            old(self).sending(sent0, all, at),
        ensures
            final(self).wrote_on(old(self)),
            final(self).failed_with(old(self), write_fault(r)),
            final(self).readings() == old(self).readings(),
            match r {
                Ok(()) => final(self).sending(sent0, all, at + 1),
                Err(e) => final(self).gave_up(e, written_len, sent0, all, upto),
            },
    {
        let ghost sent1 = self.sent@;
        let ghost begin = seq![FRAMING_BEGIN_FLAG];
        proof {
            lemma_stuffed_take_next(all, at);
        }
        match self.stage_octet(octet) {
            Ok(()) => {
                proof {
                    lemma_prefix_trans(sent0, sent1, self.sent@);
                    assert(sent0 + (begin + stuffed(all.take(at))) + stuffed_octet(octet) =~= sent0
                        + (begin + stuffed(all.take(at + 1))));
                }
                Ok(())
            },
            Err(e) => {
                proof {
                    lemma_prefix_trans(sent0, sent1, self.sent@);
                    lemma_stuffed_split(all, at);
                    assert(begin + stuffed(all) =~= begin + stuffed(all.take(at)) + stuffed(
                        all.skip(at),
                    ));
                    lemma_sent_part(
                        sent0,
                        begin + stuffed(all.take(at)),
                        self.sent@,
                        stuffed(all.skip(at)),
                    );
                    lemma_stuffed_split(all.take(upto), at);
                    assert(all.take(upto).take(at) =~= all.take(at));
                    assert(begin + stuffed(all.take(upto)) =~= begin + stuffed(all.take(at))
                        + stuffed(all.take(upto).skip(at)));
                    lemma_sent_part(
                        sent0,
                        begin + stuffed(all.take(at)),
                        self.sent@,
                        stuffed(all.take(upto).skip(at)),
                    );
                }
                Err(part_written(e, written_len))
            },
        }
    }

    /// The frame whose bytes before stuffing are `all` is being sent, and
    /// its first `count` bytes are staged or sent already: the link has
    /// been sent `sent0` and then how the frame starts, and what it was
    /// sent and what is staged make up `BEGIN` and those bytes.
    pub open spec fn sending(&self, sent0: Seq<u8>, all: Seq<u8>, count: int) -> bool {
        &&& is_prefix(sent0, self.sent())
        &&& self.sent() + self.framing().staged() == sent0 + (seq![FRAMING_BEGIN_FLAG]
            + stuffed(all.take(count)))
    }

    /// The frame whose bytes before stuffing are `all` was given up with
    /// the error `e`: either the link failed, or it stopped taking bytes
    /// after `written_len` bytes of the payload were staged. What it was
    /// sent since `sent0` is how the frame starts, and lies within the
    /// first `upto` bytes of the frame, which were staged.
    pub open spec fn gave_up(
        &self,
        e: Error,
        written_len: usize,
        sent0: Seq<u8>,
        all: Seq<u8>,
        upto: int,
    ) -> bool {
        &&& self.framing().staged() == Seq::<u8>::empty()
        &&& e == Error::PartWritten(written_len) || e == Error::IoError
        &&& is_prefix(sent0, self.sent())
        &&& is_prefix(self.sent().skip(sent0.len() as int), seq![FRAMING_BEGIN_FLAG] + stuffed(all))
        &&& is_prefix(
            self.sent().skip(sent0.len() as int),
            seq![FRAMING_BEGIN_FLAG] + stuffed(all.take(upto)),
        )
    }

    /// Sends `buf` as the payload of one frame from this side to
    /// `remote_addr`: `BEGIN`, then source, destination, length, payload and
    /// checksum, each byte stuffed if need be. The bytes go to the link
    /// whenever the staging buffer is full, and at the end.
    ///
    /// If the link stops taking bytes, the frame is given up and the error
    /// says how many bytes of the payload had been staged: what the link
    /// took lies within `BEGIN`, the head and that many bytes of the payload.
    pub fn write_framed_msg(&mut self, buf: &[u8], remote_addr: u8) -> (r: Result<usize>)
        requires
            buf@.len() <= MAX_MESSAGE_SIZE,
        ensures
            final(self).wrote_on(old(self)),
            final(self).failed_with(old(self), write_fault(r)),
            final(self).readings() == old(self).readings(),
            final(self).framing().staged() == Seq::<u8>::empty(),
            match r {
                Ok(n) => n == buf@.len() && final(self).sent() == old(self).sent()
                    + frame(old(self).framing().local(), remote_addr, buf@),
                Err(e) => {
                    &&& e == Error::IoError || (e matches Error::PartWritten(n) && n <= buf@.len())
                    &&& is_prefix(old(self).sent(), final(self).sent())
                    &&& is_prefix(
                        final(self).sent().skip(old(self).sent().len() as int),
                        frame(old(self).framing().local(), remote_addr, buf@),
                    )
                    &&& e matches Error::PartWritten(n) ==> is_prefix(
                        final(self).sent().skip(old(self).sent().len() as int),
                        frame_upto(old(self).framing().local(), remote_addr, buf@, n as int),
                    )
                },
            },
    {
        let ghost sent0 = self.sent@;
        let local = self.framing_io.local_addr();
        let len = buf.len();
        let lo = (len % 256) as u8;
        let hi = (len / 256) as u8;
        let ghost head = frame_head(local, remote_addr, len as nat);
        let ghost all = head + buf@ + crc_bytes(frame_crc(local, remote_addr, buf@));
        self.framing_io.start_frame();
        let mut crc: u16 = 0;
        let ghost start = if len == 0 { all.len() as int } else { 4 };
        proof {
            lemma_crc16_four(local, remote_addr, lo, hi);
            assert(sent0.take(sent0.len() as int) =~= sent0);
            assert(all.take(4) =~= head + buf@.take(0));
            assert(all.take(all.len() as int) =~= all);
        }
        self.stage_frame_octet(local, 0, Ghost(sent0), Ghost(all), Ghost(0), Ghost(start))?;
        uxr_update_crc(&mut crc, local);
        self.stage_frame_octet(remote_addr, 0, Ghost(sent0), Ghost(all), Ghost(1), Ghost(start))?;
        uxr_update_crc(&mut crc, remote_addr);
        self.stage_frame_octet(lo, 0, Ghost(sent0), Ghost(all), Ghost(2), Ghost(start))?;
        uxr_update_crc(&mut crc, lo);
        self.stage_frame_octet(hi, 0, Ghost(sent0), Ghost(all), Ghost(3), Ghost(start))?;
        uxr_update_crc(&mut crc, hi);
        let mut written_len: usize = 0;
        while written_len < len
            invariant
                written_len <= len,
                len == buf@.len(),
                len <= MAX_MESSAGE_SIZE,
                self.wrote_on(old(self)),
                self.faults() == old(self).faults(),
                self.readings() == old(self).readings(),
                local == old(self).framing().local(),
                head == frame_head(local, remote_addr, len as nat),
                all == head + buf@ + crc_bytes(frame_crc(local, remote_addr, buf@)),
                sent0 == old(self).sent(),
                self.sending(sent0, all, 4 + written_len),
                crc == crc16(head + buf@.take(written_len as int)),
            decreases len - written_len,
        {
            let octet = buf[written_len];
            let ghost before = head + buf@.take(written_len as int);
            proof {
                assert(all.take(4 + written_len) =~= before);
            }
            self.stage_frame_octet(
                octet,
                written_len,
                Ghost(sent0),
                Ghost(all),
                Ghost(4 + written_len),
                Ghost(4 + written_len),
            )?;
            uxr_update_crc(&mut crc, octet);
            proof {
                assert(head + buf@.take(written_len as int + 1) =~= before + seq![octet]);
                assert((before + seq![octet]).drop_last() =~= before);
            }
            written_len = written_len + 1;
        }
        proof {
            assert(buf@.take(len as int) =~= buf@);
        }
        let crc_lo = (crc % 256) as u8;
        let crc_hi = (crc / 256) as u8;
        self.stage_frame_octet(
            crc_lo,
            written_len,
            Ghost(sent0),
            Ghost(all),
            Ghost(4 + len),
            Ghost(6 + len),
        )?;
        self.stage_frame_octet(
            crc_hi,
            written_len,
            Ghost(sent0),
            Ghost(all),
            Ghost(5 + len),
            Ghost(6 + len),
        )?;
        proof {
            assert(all.take(6 + len) =~= all);
        }
        if self.framing_io.staged_len() > 0 {
            let ghost sent1 = self.sent@;
            let ghost staged = self.framing_io.staged();
            match self.framing_write_transport() {
                Ok(_) => {},
                Err(e) => {
                    proof {
                        let now = self.sent@;
                        if let Error::PartWritten(n) = e {
                            lemma_part_sent(sent1, staged, n as int);
                        }
                        lemma_prefix_trans(sent0, sent1, now);
                        lemma_sent_part(
                            sent0,
                            seq![FRAMING_BEGIN_FLAG] + stuffed(all),
                            now,
                            Seq::<u8>::empty(),
                        );
                    }
                    return Err(part_written(e, written_len));
                },
            }
        }
        Ok(len)
    }

    /// This transport is `before` after the link was asked for bytes:
    /// what it handed over went to the ring, and nothing else changed.
    pub open spec fn filled_from(&self, before: &Self) -> bool {
        &&& is_prefix(before.received(), self.received())
        &&& self.sent() == before.sent()
        &&& self.framing().pending() == before.framing().pending() + self.arrived(
            before.received(),
        )
        &&& self.parser() == before.parser()
        &&& self.message() == before.message()
        &&& self.framing().staged() == before.framing().staged()
        &&& self.framing().local() == before.framing().local()
        &&& self.remote() == before.remote()
    }

    /// Reads the clock of the platform.
    fn read_clock(&mut self) -> (ms: i32)
        ensures
            final(self).wrote_on(old(self)),
            final(self).filled_from(old(self)),
            final(self).sent() == old(self).sent(),
            final(self).received() == old(self).received(),
            final(self).faults() == old(self).faults(),
            final(self).readings() == old(self).readings().push(ms),
            final(self).framing() == old(self).framing(),
    {
        let ms = self.platform.millis();
        proof {
            self.readings@ = self.readings@.push(ms);
            let got = self.received@;
            assert(got.take(got.len() as int) =~= got);
            assert(self.framing_io.pending() + got.skip(got.len() as int)
                =~= self.framing_io.pending());
        }
        ms
    }

    /// Asks the link for at most `max_size` bytes, and no more than the
    /// ring has room for, and puts them into the ring. The link is asked
    /// once for as many bytes as fit the ring in one piece, with the time
    /// that `timeout` allows, and, if it hands over that many, once more,
    /// without waiting, for what fits at the start of the ring. The time
    /// that this took is taken from `timeout`, which never falls below 0.
    /// Where no byte is wanted or the ring is full, the link is not asked
    /// for bytes.
    ///
    /// An error of the link is passed on, and a link that hands over more
    /// bytes than it was asked for is an error of the link; `timeout` then
    /// stays as it was. What is made of each answer of the link is what
    /// `after_read` and `read_again` say.
    pub fn framing_read_transport(&mut self, timeout: &mut i32, max_size: usize) -> (r: Result<
        usize,
    >)
        ensures
            final(self).filled_from(old(self)),
            final(self).failed_with(old(self), read_fault(r)),
            final(self).arrived(old(self).received()).len() <= max_size,
            max_size == 0 || old(self).framing().pending().len() == FRAMING_BUFFER_SIZE - 1
                ==> r == Ok::<usize, Error>(0),
            match r {
                Ok(n) => {
                    &&& n == final(self).arrived(old(self).received()).len()
                    &&& final(self).clock_read(old(self), 2)
                    &&& *final(timeout) == budget_after(
                        *old(timeout),
                        final(self).reading_since(old(self), 0),
                        final(self).reading_since(old(self), 1),
                    )
                },
                Err(_) => final(self).clock_read(old(self), 1) && *final(timeout) == *old(
                    timeout,
                ),
            },
    {
        let ghost received0 = self.received@;
        let ghost pending0 = self.framing_io.pending();
        let ghost readings0 = self.readings@;
        let time_init = self.read_clock();
        let (first, second) = self.framing_io.free_windows(max_size);
        let mut total: usize = 0;
        proof {
            assert(received0.take(received0.len() as int) =~= received0);
        }
        if 0 < first {
            let mut scratch = [0u8; 42];
            let answer = self.platform.read_serial_data(&mut scratch, first, *timeout);
            let got = match after_read(first, answer) {
                Ok(got) => got,
                Err(e) => {
                    proof {
                        self.faults@ = self.faults@.push(e);
                        assert(self.readings@.take(readings0.len() as int) =~= readings0);
                    }
                    return Err(e);
                },
            };
            proof {
                self.received@ = self.received@ + scratch@.take(got as int);
            }
            self.framing_io.push_all(array_as_slice(&scratch), got);
            total = got;
            let ghost received1 = self.received@;
            let ghost taken1 = scratch@.take(got as int);
            proof {
                assert(received1.take(received0.len() as int) =~= received0);
                assert(received1.skip(received0.len() as int) =~= taken1);
            }
            if read_again(first, second, got) {
                let answer = self.platform.read_serial_data(&mut scratch, second, 0);
                let more = match after_read(second, answer) {
                    Ok(more) => more,
                    Err(e) => {
                        proof {
                            self.faults@ = self.faults@.push(e);
                            assert(self.readings@.take(readings0.len() as int) =~= readings0);
                        }
                        return Err(e);
                    },
                };
                proof {
                    self.received@ = self.received@ + scratch@.take(more as int);
                }
                self.framing_io.push_all(array_as_slice(&scratch), more);
                total = total + more;
                proof {
                    let received2 = self.received@;
                    let taken2 = scratch@.take(more as int);
                    assert(received2.take(received0.len() as int) =~= received0);
                    assert(received2.skip(received0.len() as int) =~= taken1 + taken2);
                    assert(pending0 + taken1 + taken2 =~= pending0 + (taken1 + taken2));
                }
            }
        }
        let now = self.read_clock();
        *timeout = remaining_budget(*timeout, time_init, now);
        proof {
            assert(self.readings@.take(readings0.len() as int) =~= readings0);
        }
        Ok(total)
    }

    /// Looks for a frame in what the ring holds and, if there is none,
    /// asks the link once for the bytes that the frame being read still
    /// needs and looks again. The time that asking took is taken from
    /// `timeout`. Returns the length of the payload of the
    /// frame that was delivered, which is then at the start of the buffer
    /// for payloads, and the address it came from; the length is 0 if no
    /// frame was delivered. A frame that the ring holds whole is delivered
    /// without the link being asked. When no frame is delivered, the ring
    /// holds nothing more to read; when the link fails, nothing more of
    /// what it held before.
    pub fn read_framed_msg(&mut self, timeout: &mut i32) -> (r: Result<(usize, u8)>)
        ensures
            final(self).read_on(old(self)),
            final(self).failed_with(old(self), read_fault(r)),
            final(self).message().len() == UXR_SERIAL_TRANSPORT_MTU,
            match r {
                Ok((n, src)) => {
                    &&& n <= UXR_SERIAL_TRANSPORT_MTU
                    &&& src == final(self).parser().src_addr
                    &&& if final(self).frames_since(old(self)).len() == 0 {
                        n == 0 && final(self).read_all()
                    } else {
                        &&& final(self).frames_since(old(self)) == seq![
                            Frame { src_addr: src, payload: final(self).message().take(n as int) },
                        ]
                        &&& final(self).message().take(n as int).len() == n
                    }
                    &&& if final(self).clock_read(old(self), 2) {
                        *final(timeout) == budget_after(
                            *old(timeout),
                            final(self).reading_since(old(self), 0),
                            final(self).reading_since(old(self), 1),
                        )
                    } else {
                        &&& final(self).readings() == old(self).readings()
                        &&& final(self).received() == old(self).received()
                        &&& *final(timeout) == *old(timeout)
                    }
                },
                Err(_) => {
                    &&& final(self).frames_since(old(self)) == Seq::<Frame>::empty()
                    &&& final(self).clock_read(old(self), 1)
                    &&& *final(timeout) == *old(timeout)
                },
            },
    {
        let ghost reader = self.parser();
        let ghost pending0 = self.framing_io.pending();
        let ghost received0 = self.received@;
        proof {
            assert(received0.take(received0.len() as int) =~= received0);
        }
        match self.framing_io.read_frame(&mut self.buffer) {
            Some(n) => {
                return Ok((n, self.framing_io.source()));
            },
            None => {},
        }
        let ghost rest1 = self.framing_io.pending();
        let ghost used1 = consumed(pending0, rest1);
        let wanted = self.framing_io.wanted();
        let got = match self.framing_read_transport(timeout, wanted) {
            Ok(got) => got,
            Err(e) => {
                proof {
                    let more = self.arrived(received0);
                    assert((rest1 + more).skip(0) =~= rest1 + more);
                    lemma_consumed_compose(pending0, rest1, more, rest1 + more);
                    assert((rest1 + more).take(rest1.len() as int) =~= rest1);
                }
                return Err(e);
            },
        };
        let ghost more = self.arrived(received0);
        let found = self.framing_io.read_frame(&mut self.buffer);
        proof {
            let rest2 = self.framing_io.pending();
            let used2 = consumed(rest1 + more, rest2);
            lemma_consumed_compose(pending0, rest1, more, rest2);
            lemma_feed_concat(reader, used1, used2);
        }
        match found {
            Some(n) => Ok((n, self.framing_io.source())),
            None => Ok((0, self.framing_io.source())),
        }
    }
}

impl<Comm: SerialPlatformOps> SerialTransport<Comm> {
    /// Looks for a frame in what the ring holds, without asking the link.
    /// Returns the length of the payload of the frame that was delivered,
    /// which is then at the start of the buffer for payloads, and the
    /// address it came from; the length is 0 if no frame was delivered, and
    /// the ring then holds nothing more to read.
    pub fn look_in_ring(&mut self) -> (r: (usize, u8))
        ensures
            final(self).read_on(old(self)),
            final(self).received() == old(self).received(),
            final(self).faults() == old(self).faults(),
            final(self).readings() == old(self).readings(),
            final(self).message().len() == UXR_SERIAL_TRANSPORT_MTU,
            r.0 <= UXR_SERIAL_TRANSPORT_MTU,
            r.1 == final(self).parser().src_addr,
            if final(self).frames_since(old(self)).len() == 0 {
                r.0 == 0 && final(self).read_all()
            } else {
                &&& final(self).frames_since(old(self)) == seq![
                    Frame { src_addr: r.1, payload: final(self).message().take(r.0 as int) },
                ]
                &&& final(self).message().take(r.0 as int).len() == r.0
                &&& final(self).framing().pending().len() < old(self).framing().pending().len()
            },
    {
        let ghost held = self.framing_io.pending();
        proof {
            let got = self.received@;
            assert(got.take(got.len() as int) =~= got);
            assert(held + got.skip(got.len() as int) =~= held);
        }
        match self.framing_io.read_frame(&mut self.buffer) {
            Some(n) => (n, self.framing_io.source()),
            None => (0, self.framing_io.source()),
        }
    }
}

impl<Comm: SerialPlatformOps> Transmitter for SerialTransport<Comm> {
    type Ok = usize;

    /// Sends `buf` to the agent as the payload of one frame, and returns
    /// the length of `buf`.
    fn send_msg(&mut self, buf: &[u8]) -> (r: Result<usize>)
        ensures
            final(self).wrote_on(old(self)),
            final(self).failed_with(old(self), write_fault(r)),
            final(self).readings() == old(self).readings(),
            final(self).framing().staged() == Seq::<u8>::empty(),
            match r {
                Ok(n) => n == buf@.len() && final(self).sent() == old(self).sent()
                    + frame(old(self).framing().local(), old(self).remote(), buf@),
                Err(e) => {
                    &&& e == Error::IoError || (e matches Error::PartWritten(n) && n <= buf@.len())
                    &&& is_prefix(old(self).sent(), final(self).sent())
                    &&& is_prefix(
                        final(self).sent().skip(old(self).sent().len() as int),
                        frame(old(self).framing().local(), old(self).remote(), buf@),
                    )
                    &&& e matches Error::PartWritten(n) ==> is_prefix(
                        final(self).sent().skip(old(self).sent().len() as int),
                        frame_upto(old(self).framing().local(), old(self).remote(), buf@, n as int),
                    )
                },
            },
    {
        let remote_addr = self.remote_addr;
        self.write_framed_msg(buf, remote_addr)
    }
}

impl<Comm: SerialPlatformOps> SerialTransport<Comm> {
    /// Every frame that was delivered since `before` was passed over.
    pub open spec fn only_passed_over(&self, before: &Self) -> bool {
        forall|i: int|
            0 <= i < self.frames_since(before).len() ==> passed_over(
                #[trigger] self.frames_since(before)[i],
                self.remote(),
            )
    }

    /// Reading goes on where it stopped: a transport that read on from one
    /// that read on from a third has read on from the third, and the frames
    /// delivered since are those delivered first and then.
    pub proof fn lemma_read_on_again(&self, mid: &Self, before: &Self)
        requires
            mid.read_on(before),
            self.read_on(mid),
        ensures
            self.read_on(before),
            self.frames_since(before) == mid.frames_since(before) + self.frames_since(mid),
    {
        let got_first = before.received();
        let got_then = mid.received();
        let got_last = self.received();
        let more_first = mid.arrived(got_first);
        let more_then = self.arrived(got_then);
        assert(got_last.take(got_first.len() as int) =~= got_then.take(got_first.len() as int));
        let input1 = before.framing().pending() + more_first;
        assert(self.input_since(before) =~= input1 + more_then);
        lemma_consumed_compose(
            input1,
            mid.framing().pending(),
            more_then,
            self.framing().pending(),
        );
        lemma_feed_concat(before.parser(), mid.read_since(before), self.read_since(mid));
    }
}

/// What receiving returned, with the payload in place of the slice that holds it.
pub open spec fn payload_of(r: Result<&[u8]>) -> Result<Seq<u8>> {
    match r {
        Ok(msg) => Ok(msg@),
        Err(e) => Err(e),
    }
}

impl<Comm: SerialPlatformOps> SerialTransport<Comm> {
    /// This transport is `before` after `receive_msg` returned `r`.
    ///
    /// The transport has read on. A payload that is returned is that of
    /// the last frame delivered, which came from the agent and carries
    /// something; it is at the start of the buffer for payloads; the link
    /// has not failed; and every frame delivered before it was passed
    /// over. When the call fails, every frame delivered was passed over,
    /// and either the link has failed, with the error that is returned, or
    /// the error is `Timeout`, the link has not failed and the ring holds
    /// nothing more to read.
    pub open spec fn received_as(&self, before: &Self, r: Result<Seq<u8>>) -> bool {
        &&& self.read_on(before)
        &&& self.clock_read_on(before)
        &&& self.message().len() == UXR_SERIAL_TRANSPORT_MTU
        &&& match r {
            Ok(payload) => {
                &&& self.failed_with(before, None)
                &&& self.frames_since(before).len() >= 1
                &&& self.frames_since(before).last() == (Frame {
                    src_addr: self.remote(),
                    payload,
                })
                &&& 0 < payload.len() <= UXR_SERIAL_TRANSPORT_MTU
                &&& payload == self.message().take(payload.len() as int)
                &&& forall|i: int|
                    0 <= i < self.frames_since(before).len() - 1 ==> passed_over(
                        #[trigger] self.frames_since(before)[i],
                        self.remote(),
                    )
            },
            Err(e) => {
                &&& self.only_passed_over(before)
                &&& self.failed_with(before, Some(e)) || (e == Error::Timeout && self.failed_with(
                    before,
                    None,
                ) && self.read_all())
            },
        }
    }

    /// A reader whose ring was empty at `before`, and that has since read
    /// all there was to read of what the link handed over, has read what
    /// the link handed over, unless that ends in `ESC`.
    proof fn lemma_all_read(&self, before: &Self)
        requires
            self.read_on(before),
            self.read_all(),
            before.framing().pending().len() == 0,
            self.arrived(before.received()).len() > 0,
            self.arrived(before.received()).last() != FRAMING_ESC_FLAG,
        ensures
            self.read_since(before) == self.arrived(before.received()),
    {
        let bytes = self.arrived(before.received());
        let rest = self.framing().pending();
        assert(self.input_since(before) =~= bytes);
        if rest.len() > 0 {
            assert(rest[0] == bytes[bytes.len() - 1]);
        }
        assert(bytes.take(bytes.len() as int) =~= bytes);
    }

    /// Of the bytes that the link handed over since `before`, where the
    /// ring was empty, the reader has read the first ones, and delivered
    /// the first of the frames that a reader of all the bytes delivers.
    proof fn lemma_read_some(&self, before: &Self)
        requires
            self.read_on(before),
            before.framing().pending().len() == 0,
        ensures
            self.frames_since(before).len() <= before.parser().received(
                self.arrived(before.received()),
            ).len(),
            forall|i: int|
                0 <= i < self.frames_since(before).len() ==> self.frames_since(before)[i]
                    == before.parser().received(self.arrived(before.received()))[i],
    {
        let bytes = self.arrived(before.received());
        let rest = self.framing().pending();
        let read = self.read_since(before);
        let unread = bytes.skip(bytes.len() - rest.len());
        assert(self.input_since(before) =~= bytes);
        assert(bytes =~= read + unread);
        lemma_feed_concat(before.parser(), read, unread);
    }

    /// A frame from the agent that carries something is received, whatever
    /// the reader reads before it, if that delivers nothing and leaves no
    /// escape open.
    proof fn lemma_received_behind(
        &self,
        before: &Self,
        r: Result<Seq<u8>>,
        lead: Seq<u8>,
        payload: Seq<u8>,
    )
        requires
            self.received_as(before, r),
            self.faults() == before.faults(),
            before.framing().pending().len() == 0,
            before.parser().received(lead) == Seq::<Frame>::empty(),
            !before.parser().feed(lead).in_frame() || !before.parser().feed(lead).escape,
            before.parser().feed(lead).local_addr == before.framing().local(),
            0 < payload.len() <= UXR_SERIAL_TRANSPORT_MTU,
            self.arrived(before.received()) == lead + frame(
                before.remote(),
                before.framing().local(),
                payload,
            ),
        ensures
            r == Ok::<Seq<u8>, Error>(payload),
    {
        let p = before.parser();
        let f = frame(before.remote(), before.framing().local(), payload);
        let sent = Frame { src_addr: before.remote(), payload };
        lemma_feed_concat(p, lead, f);
        lemma_frame_roundtrip(p.feed(lead), before.remote(), payload);
        assert(p.received(lead + f) =~= seq![sent]);
        self.lemma_read_some(before);
        match r {
            Ok(_) => {},
            Err(e) => {
                assert(before.faults().push(e).len() != before.faults().len());
                lemma_sealed_ends_plain(
                    before.remote(),
                    before.framing().local(),
                    payload,
                    frame_crc(before.remote(), before.framing().local(), payload),
                );
                self.lemma_all_read(before);
                assert(passed_over(self.frames_since(before)[0], self.remote()));
            },
        }
    }

    /// A frame that is sent is the frame that is received. Where the
    /// reader waited for a frame with nothing in its ring, the link has
    /// since handed over the bytes sent for one frame from the agent to
    /// this side, which carries something, and has not failed,
    /// `receive_msg` has returned what the frame carries, whatever bytes
    /// that holds.
    pub proof fn lemma_frame_is_received(
        &self,
        before: &Self,
        r: Result<Seq<u8>>,
        payload: Seq<u8>,
    )
        requires
            self.received_as(before, r),
            self.faults() == before.faults(),
            before.framing().pending().len() == 0,
            !before.parser().in_frame(),
            0 < payload.len() <= UXR_SERIAL_TRANSPORT_MTU,
            self.arrived(before.received()) == frame(
                before.remote(),
                before.framing().local(),
                payload,
            ),
        ensures
            r == Ok::<Seq<u8>, Error>(payload),
    {
        let f = frame(before.remote(), before.framing().local(), payload);
        assert(Seq::<u8>::empty() + f =~= f);
        self.lemma_received_behind(before, r, Seq::empty(), payload);
    }

    /// What one side sends the other receives. Where the reader waited
    /// for a frame with nothing in its ring, and the link has since handed
    /// over what the agent's side was sent by a transport that sent
    /// `payload` from the agent to this side, and has not failed,
    /// `receive_msg` has returned `payload`.
    pub proof fn lemma_sent_is_received<Other: SerialPlatformOps>(
        &self,
        before: &Self,
        r: Result<Seq<u8>>,
        sender: &SerialTransport<Other>,
        sender_before: &SerialTransport<Other>,
        payload: Seq<u8>,
    )
        requires
            self.received_as(before, r),
            self.faults() == before.faults(),
            before.framing().pending().len() == 0,
            !before.parser().in_frame(),
            0 < payload.len() <= UXR_SERIAL_TRANSPORT_MTU,
            sender_before.framing().local() == before.remote(),
            sender_before.remote() == before.framing().local(),
            sender.sent() == sender_before.sent() + frame(
                sender_before.framing().local(),
                sender_before.remote(),
                payload,
            ),
            self.arrived(before.received()) == sender.sent().skip(
                sender_before.sent().len() as int,
            ),
        ensures
            r == Ok::<Seq<u8>, Error>(payload),
    {
        let f = frame(before.remote(), before.framing().local(), payload);
        assert((sender_before.sent() + f).skip(sender_before.sent().len() as int) =~= f);
        self.lemma_frame_is_received(before, r, payload);
    }

    /// Looks that have read the bytes sent for a frame to this side, and
    /// no others, from a reader that waited for a frame, have delivered
    /// that frame, and the reader waits for a frame again.
    pub proof fn lemma_read_frame_is_delivered(&self, before: &Self, src: u8, payload: Seq<u8>)
        requires
            self.read_on(before),
            !before.parser().in_frame(),
            payload.len() <= UXR_SERIAL_TRANSPORT_MTU,
            self.read_since(before) == frame(src, before.framing().local(), payload),
        ensures
            self.frames_since(before) == seq![Frame { src_addr: src, payload }],
            !self.parser().in_frame(),
    {
        lemma_frame_roundtrip(before.parser(), src, payload);
    }

    /// Bytes before a frame are skipped. Where the reader waited for a
    /// frame with nothing in its ring, and the link has since handed over
    /// bytes without `BEGIN` and then the bytes sent for one frame from the
    /// agent to this side, which carries something, and has not failed,
    /// `receive_msg` has returned what the frame carries.
    pub proof fn lemma_garbage_is_skipped(
        &self,
        before: &Self,
        r: Result<Seq<u8>>,
        garbage: Seq<u8>,
        payload: Seq<u8>,
    )
        requires
            self.received_as(before, r),
            self.faults() == before.faults(),
            before.framing().pending().len() == 0,
            !before.parser().in_frame(),
            forall|i: int| 0 <= i < garbage.len() ==> garbage[i] != FRAMING_BEGIN_FLAG,
            0 < payload.len() <= UXR_SERIAL_TRANSPORT_MTU,
            self.arrived(before.received()) == garbage + frame(
                before.remote(),
                before.framing().local(),
                payload,
            ),
        ensures
            r == Ok::<Seq<u8>, Error>(payload),
    {
        lemma_garbage_skipped(before.parser(), garbage, Seq::empty());
        self.lemma_received_behind(before, r, garbage, payload);
    }

    /// A frame that is cut short is given up when the next one begins.
    /// Where the reader waited for a frame with nothing in its ring, and
    /// the link has since handed over the bytes sent for a frame up to some
    /// byte of it before its last, and then the bytes sent for one frame
    /// from the agent to this side, which carries something, and has not
    /// failed, `receive_msg` has returned what the second frame carries.
    pub proof fn lemma_cut_frame_is_given_up(
        &self,
        before: &Self,
        r: Result<Seq<u8>>,
        cut_src: u8,
        cut_dst: u8,
        cut_payload: Seq<u8>,
        count: int,
        payload: Seq<u8>,
    )
        requires
            self.received_as(before, r),
            self.faults() == before.faults(),
            before.framing().pending().len() == 0,
            !before.parser().in_frame(),
            cut_payload.len() <= UXR_SERIAL_TRANSPORT_MTU,
            0 <= count < cut_payload.len() + 6,
            0 < payload.len() <= UXR_SERIAL_TRANSPORT_MTU,
            self.arrived(before.received()) == cut_frame(cut_src, cut_dst, cut_payload, count)
                + frame(before.remote(), before.framing().local(), payload),
        ensures
            r == Ok::<Seq<u8>, Error>(payload),
    {
        lemma_cut_frame_then_frame(
            before.parser(),
            cut_src,
            cut_dst,
            cut_payload,
            count,
            before.remote(),
            payload,
        );
        self.lemma_received_behind(
            before,
            r,
            cut_frame(cut_src, cut_dst, cut_payload, count),
            payload,
        );
    }

    /// A frame that was changed on the way is dropped. Where the reader
    /// waited for a frame with nothing in its ring, and the link has since
    /// handed over the bytes sent for a frame to this side of which one
    /// byte of the payload was changed after the checksum was taken, or
    /// which carries another checksum than its own, `receive_msg` has
    /// returned no payload and no frame was delivered; and once the reader
    /// has read all of it, it waits for a frame again.
    pub proof fn lemma_changed_frame_is_dropped(
        &self,
        before: &Self,
        r: Result<Seq<u8>>,
        src: u8,
        payload: Seq<u8>,
        changed: Seq<u8>,
        at: int,
        crc: u16,
    )
        requires
            self.received_as(before, r),
            before.framing().pending().len() == 0,
            !before.parser().in_frame(),
            payload.len() <= UXR_SERIAL_TRANSPORT_MTU,
            changed.len() == payload.len(),
            if crc == frame_crc(src, before.framing().local(), payload) {
                &&& 0 <= at < payload.len()
                &&& changed[at] != payload[at]
                &&& forall|j: int| 0 <= j < payload.len() && j != at ==> changed[j] == payload[j]
            } else {
                changed == payload
            },
            self.arrived(before.received()) == sealed(
                src,
                before.framing().local(),
                changed,
                crc,
            ),
        ensures
            r is Err,
            self.frames_since(before) == Seq::<Frame>::empty(),
            self.read_all() ==> !self.parser().in_frame(),
    {
        let p = before.parser();
        let local = before.framing().local();
        if crc == frame_crc(src, local, payload) {
            lemma_changed_payload_dropped(p, src, payload, changed, at);
        } else {
            lemma_changed_crc_dropped(p, src, payload, crc);
        }
        self.lemma_read_some(before);
        assert(self.frames_since(before) =~= Seq::<Frame>::empty());
        if self.read_all() {
            lemma_sealed_ends_plain(src, local, changed, crc);
            self.lemma_all_read(before);
            lemma_read_sealed(p, src, local, changed, crc);
        }
    }
}

impl<Comm: SerialPlatformOps> Receiver for SerialTransport<Comm> {
    /// Waits for a frame from the agent that carries something and returns
    /// what it carries. Frames from others and frames that carry nothing
    /// are passed over. Gives up with `Timeout` once the ring holds nothing
    /// more to read and the time is used up, or the link was asked
    /// `RECEIVE_POLL_LIMIT` times. An error of the link is passed on. What
    /// follows each look is what `after_look` says.
    ///
    /// A frame from the agent that the ring holds whole is delivered
    /// whatever the link does. The only errors are those of the link and
    /// `Timeout`, and when the call fails with `Timeout` without the link
    /// having failed, the ring holds nothing more to read.
    fn receive_msg(&mut self, timeout: i32) -> (r: Result<&[u8]>)
        ensures
            final(self).received_as(old(self), payload_of(r)),
    {
        let mut timeout = timeout;
        let mut polls: u32 = 0;
        let mut ask = true;
        proof {
            let got = self.received@;
            let held = self.framing_io.pending();
            let read = self.readings@;
            assert(got.take(got.len() as int) =~= got);
            assert(held.skip(0) =~= held);
            assert(read.take(read.len() as int) =~= read);
        }
        loop
            invariant
                self.read_on(old(self)),
                self.clock_read_on(old(self)),
                self.only_passed_over(old(self)),
                self.faults() == old(self).faults(),
            decreases
                    RECEIVE_POLL_LIMIT - polls,
                    (if ask { 1int } else { 0int }),
                    self.framing().pending().len(),
        {
            let ghost mid = *self;
            let (bytes_read, remote_addr) = if ask {
                match self.read_framed_msg(&mut timeout) {
                    Ok(pair) => pair,
                    Err(e) => {
                        proof {
                            self.lemma_read_on_again(&mid, old(self));
                            assert(self.readings().take(old(self).readings().len() as int)
                                =~= mid.readings().take(old(self).readings().len() as int));
                        }
                        return Err(e);
                    },
                }
            } else {
                self.look_in_ring()
            };
            proof {
                self.lemma_read_on_again(&mid, old(self));
                assert(self.readings().take(old(self).readings().len() as int)
                    =~= mid.readings().take(old(self).readings().len() as int));
            }
            let readable = self.framing_io.has_readable();
            match after_look(bytes_read, remote_addr, self.remote_addr, readable, timeout, polls) {
                LookNext::Deliver(len) => {
                    let msg = slice_subrange(array_as_slice(&self.buffer), 0, len);
                    return Ok(msg);
                },
                LookNext::GiveUp => {
                    return Err(Error::Timeout);
                },
                LookNext::InRing => {
                    ask = false;
                },
                LookNext::Again => {
                    ask = true;
                    polls = polls + 1;
                },
            }
        }
    }
}

impl<Comm: SerialPlatformOps> Clock for SerialTransport<Comm> {
    /// What the clock of the platform says.
    fn now(&mut self) -> (ms: i32)
        ensures
            final(self).wrote_on(old(self)),
            final(self).sent() == old(self).sent(),
            final(self).faults() == old(self).faults(),
            final(self).readings() == old(self).readings().push(ms),
            final(self).framing().staged() == old(self).framing().staged(),
    {
        self.read_clock()
    }
}

/// What the transport does after the link answered a write.
#[derive(Debug, Clone, Copy, PartialEq, Eq)]
pub enum WriteNext {
    /// The link took some bytes and not all: it is given the rest. The
    /// number is that of the staged bytes that the link has taken so far.
    More(usize),
    /// Writing ends with this result.
    Done(Result<usize>),
}

/// What follows when the link answers `answer` to a write of the staged
/// bytes from place `written` on, of `total` staged bytes: an error of the
/// link, and a claim to have taken more than it was given, is an
/// `IoError`; when all is taken, writing is done; when nothing was taken,
/// the link has stopped, and the error says how many bytes it took; else
/// the rest is written.
pub open spec fn write_next(written: usize, total: usize, answer: Result<usize>) -> WriteNext {
    match answer {
        Err(_) => WriteNext::Done(Err(Error::IoError)),
        Ok(n) => if n > total - written {
            WriteNext::Done(Err(Error::IoError))
        } else if written + n == total {
            WriteNext::Done(Ok(total))
        } else if n == 0 {
            WriteNext::Done(Err(Error::PartWritten(written)))
        } else {
            WriteNext::More((written + n) as usize)
        },
    }
}

/// What the transport does after the link answered `answer` to a write of
/// the staged bytes from place `written` on, of `total` staged bytes.
pub fn after_write(written: usize, total: usize, answer: Result<usize>) -> (next: WriteNext)
    requires
        written <= total,
    ensures
        next == write_next(written, total, answer),
{
    match answer {
        Err(_) => WriteNext::Done(Err(Error::IoError)),
        Ok(n) => if n > total - written {
            WriteNext::Done(Err(Error::IoError))
        } else if written + n == total {
            WriteNext::Done(Ok(total))
        } else if n == 0 {
            WriteNext::Done(Err(Error::PartWritten(written)))
        } else {
            WriteNext::More(written + n)
        },
    }
}

/// What the transport makes of the link's answer to a read of at most
/// `asked` bytes: an error is passed on as it is, and a claim to have
/// handed over more than was asked for is an `IoError`.
pub open spec fn read_outcome(asked: usize, answer: Result<usize>) -> Result<usize> {
    match answer {
        Ok(n) => if n > asked {
            Err(Error::IoError)
        } else {
            Ok(n)
        },
        Err(e) => Err(e),
    }
}

/// What the transport makes of the link's answer to a read of at most
/// `asked` bytes.
pub fn after_read(asked: usize, answer: Result<usize>) -> (r: Result<usize>)
    ensures
        r == read_outcome(asked, answer),
{
    match answer {
        Ok(n) => if n > asked {
            Err(Error::IoError)
        } else {
            Ok(n)
        },
        Err(e) => Err(e),
    }
}

/// The link is asked a second time, without waiting: it handed over all
/// the `first` bytes that fit the ring in one piece, and the ring has room
/// for `second` more at its start.
pub open spec fn reads_again(first: usize, second: usize, got: usize) -> bool {
    0 < got && got == first && 0 < second
}

/// Whether the link is asked a second time after it handed over `got` of
/// the `first` bytes that fit the ring in one piece.
pub fn read_again(first: usize, second: usize, got: usize) -> (again: bool)
    ensures
        again == reads_again(first, second, got),
{
    0 < got && got == first && 0 < second
}

/// What `receive_msg` does after a look for a frame.
#[derive(Debug, Clone, Copy, PartialEq, Eq)]
pub enum LookNext {
    /// A frame from the agent with this many bytes of payload is delivered.
    Deliver(usize),
    /// It looks again in what the ring holds, without asking the link.
    InRing,
    /// It asks the link and looks again.
    Again,
    /// It gives up with `Timeout`.
    GiveUp,
}

/// What follows a look that brought a payload of `n` bytes from `src`,
/// none if `n` is 0, where `remote` is the agent, `readable` says whether
/// the ring still holds something to read, `timeout` is the time left and
/// `polls` the number of times the link was asked again: a payload from
/// the agent is delivered; else what the ring still holds is read,
/// whatever the time; else it is over when the time is used up or the
/// link was asked again `RECEIVE_POLL_LIMIT` times; else the link is asked
/// again.
pub open spec fn look_next(
    n: usize,
    src: u8,
    remote: u8,
    readable: bool,
    timeout: i32,
    polls: u32,
) -> LookNext {
    if n != 0 && src == remote {
        LookNext::Deliver(n)
    } else if readable {
        LookNext::InRing
    } else if timeout <= 0 || polls == RECEIVE_POLL_LIMIT {
        LookNext::GiveUp
    } else {
        LookNext::Again
    }
}

/// What `receive_msg` does after a look for a frame.
pub fn after_look(n: usize, src: u8, remote: u8, readable: bool, timeout: i32, polls: u32) -> (next:
    LookNext)
    ensures
        next == look_next(n, src, remote, readable, timeout, polls),
{
    if n != 0 && src == remote {
        LookNext::Deliver(n)
    } else if readable {
        LookNext::InRing
    } else if timeout <= 0 || polls == RECEIVE_POLL_LIMIT {
        LookNext::GiveUp
    } else {
        LookNext::Again
    }
}

/// The bytes that are sent for a frame up to the first `count` bytes of
/// its payload: `BEGIN`, the head and those bytes, as they are sent; the
/// whole frame if `count` is the length of the payload.
pub open spec fn frame_upto(src: u8, dst: u8, payload: Seq<u8>, count: int) -> Seq<u8> {
    if count < payload.len() {
        seq![FRAMING_BEGIN_FLAG] + stuffed(
            frame_head(src, dst, payload.len()) + payload.take(count),
        )
    } else {
        frame(src, dst, payload)
    }
}

/// The error of a frame that was given up: where the link stopped taking
/// bytes, it says how many bytes of the payload had been staged.
pub fn part_written(e: Error, written_len: usize) -> (r: Error)
    ensures
        r == match e {
            Error::PartWritten(_) => Error::PartWritten(written_len),
            _ => e,
        },
{
    match e {
        Error::PartWritten(_) => Error::PartWritten(written_len),
        _ => e,
    }
}

/// A sequence followed by how another starts starts with the first and is
/// how the two together start.
proof fn lemma_part_sent(sent: Seq<u8>, staged: Seq<u8>, count: int)
    requires
        0 <= count <= staged.len(),
    ensures
        is_prefix(sent, sent + staged.take(count)),
        is_prefix(sent + staged.take(count), sent + staged),
{
    let now = sent + staged.take(count);
    assert(now.take(sent.len() as int) =~= sent);
    assert((sent + staged).take(now.len() as int) =~= now);
}

/// Being how a sequence starts carries over.
proof fn lemma_prefix_trans(a: Seq<u8>, b: Seq<u8>, c: Seq<u8>)
    requires
        is_prefix(a, b),
        is_prefix(b, c),
    ensures
        is_prefix(a, c),
{
    assert(c.take(a.len() as int) =~= b.take(a.len() as int));
}

/// What the link took of a frame is how the frame starts: if all that was
/// sent starts with `sent0` and is how `sent0 + part` starts, then what was
/// sent since `sent0` is how `part + rest` starts.
proof fn lemma_sent_part(sent0: Seq<u8>, part: Seq<u8>, sent: Seq<u8>, rest: Seq<u8>)
    requires
        is_prefix(sent0, sent),
        is_prefix(sent, sent0 + part),
    ensures
        is_prefix(sent.skip(sent0.len() as int), part + rest),
{
    let since = sent.skip(sent0.len() as int);
    assert((part + rest).take(since.len() as int) =~= since) by {
        assert forall|i: int| 0 <= i < since.len() implies (part + rest)[i] == since[i] by {
        }
    }
}

/// Stuffing the first bytes of a sequence and one more is stuffing the
/// first bytes and then the one.
proof fn lemma_stuffed_take_next(all: Seq<u8>, at: int)
    requires
        0 <= at < all.len(),
    ensures
        stuffed(all.take(at + 1)) == stuffed(all.take(at)) + stuffed_octet(all[at]),
{
    assert(all.take(at + 1).drop_last() =~= all.take(at));
}

/// Stuffing a sequence is stuffing its first bytes and then the rest.
proof fn lemma_stuffed_split(all: Seq<u8>, at: int)
    requires
        0 <= at <= all.len(),
    ensures
        stuffed(all) == stuffed(all.take(at)) + stuffed(all.skip(at)),
{
    assert(all =~= all.take(at) + all.skip(at));
    lemma_stuffed_concat(all.take(at), all.skip(at));
}


} // verus!
