use std::cell::RefCell;
use std::collections::VecDeque;
use std::rc::Rc;

use xrce_client_rs::communication::{Receiver, Transmitter};
use xrce_client_rs::serial::crc::{uxr_update_crc, CRC16_TABLE};
use xrce_client_rs::serial::transport::{
    after_look, after_read, after_write, part_written, read_again, FramingIO, LookNext,
    SerialTransport, WriteNext,
};
use xrce_client_rs::serial::SerialPlatformOps;
use xrce_client_rs::time::{remaining_budget, Clock};
use xrce_client_rs::Error;

/// A link whose two ends are lists of bytes, with a clock that the test sets.
#[derive(Default)]
struct Wire {
    sent: Vec<u8>,
    incoming: VecDeque<u8>,
    clock: i32,
    tick: i32,
    /// Bytes that one write takes at most; none means all.
    write_limit: Option<usize>,
    /// Bytes that the link takes in all before it takes no more.
    write_budget: Option<usize>,
    fail_writes: bool,
    fail_reads: bool,
    reads: usize,
}

#[derive(Clone, Default)]
struct Link(Rc<RefCell<Wire>>);

impl Link {
    fn feed(&self, bytes: &[u8]) {
        self.0.borrow_mut().incoming.extend(bytes.iter().copied());
    }

    fn sent(&self) -> Vec<u8> {
        self.0.borrow().sent.clone()
    }
}

impl SerialPlatformOps for Link {
    fn write_serial_data(&mut self, buf: &[u8]) -> Result<usize, Error> {
        let mut wire = self.0.borrow_mut();
        if wire.fail_writes {
            return Err(Error::IoError);
        }
        let mut n = buf.len();
        if let Some(limit) = wire.write_limit {
            n = n.min(limit);
        }
        if let Some(budget) = wire.write_budget {
            n = n.min(budget);
            wire.write_budget = Some(budget - n);
        }
        wire.sent.extend_from_slice(&buf[..n]);
        Ok(n)
    }

    fn read_serial_data(&mut self, buf: &mut [u8], len: usize, _timeout: i32) -> Result<usize, Error> {
        let mut wire = self.0.borrow_mut();
        wire.reads += 1;
        if wire.fail_reads {
            return Err(Error::IoError);
        }
        let mut n = 0;
        while n < len {
            match wire.incoming.pop_front() {
                Some(b) => {
                    buf[n] = b;
                    n += 1;
                }
                None => break,
            }
        }
        Ok(n)
    }

    fn millis(&mut self) -> i32 {
        let mut wire = self.0.borrow_mut();
        wire.clock = wire.clock.wrapping_add(wire.tick);
        wire.clock
    }
}

fn crc_of(data: &[u8]) -> u16 {
    let mut crc: u16 = 0;
    for &b in data {
        crc ^= b as u16;
        for _ in 0..8 {
            crc = if crc & 1 == 1 { (crc >> 1) ^ 0xA001 } else { crc >> 1 };
        }
    }
    crc
}

fn stuff(out: &mut Vec<u8>, b: u8) {
    if b == 0x7E || b == 0x7D {
        out.push(0x7D);
        out.push(b ^ 0x20);
    } else {
        out.push(b);
    }
}

fn frame_with_crc(src: u8, dst: u8, payload: &[u8], crc: u16) -> Vec<u8> {
    let mut out = vec![0x7E];
    stuff(&mut out, src);
    stuff(&mut out, dst);
    stuff(&mut out, payload.len() as u8);
    stuff(&mut out, (payload.len() >> 8) as u8);
    for &b in payload {
        stuff(&mut out, b);
    }
    stuff(&mut out, crc as u8);
    stuff(&mut out, (crc >> 8) as u8);
    out
}

fn frame(src: u8, dst: u8, payload: &[u8]) -> Vec<u8> {
    let mut body = vec![src, dst, payload.len() as u8, (payload.len() >> 8) as u8];
    body.extend_from_slice(payload);
    frame_with_crc(src, dst, payload, crc_of(&body))
}

const AGENT: u8 = 5;
const CLIENT: u8 = 2;

fn transport() -> (SerialTransport<Link>, Link) {
    let link = Link::default();
    link.0.borrow_mut().tick = 1;
    (SerialTransport::new(link.clone(), AGENT, CLIENT), link)
}

#[test]
fn the_checksum_is_crc16_arc() {
    let mut crc: u16 = 0;
    for &b in b"123456789" {
        uxr_update_crc(&mut crc, b);
    }
    assert_eq!(crc, 0xBB3D);
    assert_eq!(crc_of(b"123456789"), 0xBB3D);
    for i in 0..=255u8 {
        assert_eq!(CRC16_TABLE[i as usize], crc_of(&[i]));
    }
    let mut crc: u16 = 0x1234;
    uxr_update_crc(&mut crc, 0xAB);
    assert_eq!(crc, (0x1234 >> 8) ^ CRC16_TABLE[(0x34 ^ 0xAB) as usize]);
}

#[test]
fn a_frame_with_flags_in_it_is_stuffed() {
    let (mut transport, link) = transport();
    assert_eq!(transport.send_msg(&[0x7E, 0x10, 0x7D]), Ok(3));
    let sent = link.sent();
    assert_eq!(sent[..10], [0x7E, 0x02, 0x05, 0x03, 0x00, 0x7D, 0x5E, 0x10, 0x7D, 0x5D]);
    let crc = crc_of(&[0x02, 0x05, 0x03, 0x00, 0x7E, 0x10, 0x7D]);
    let mut tail = Vec::new();
    stuff(&mut tail, crc as u8);
    stuff(&mut tail, (crc >> 8) as u8);
    assert_eq!(sent[10..], tail[..]);
    assert_eq!(sent, frame(CLIENT, AGENT, &[0x7E, 0x10, 0x7D]));
    assert_eq!(sent[1..].iter().filter(|&&b| b == 0x7E).count(), 0);

    let other = SerialTransport::new(Link::default(), CLIENT, AGENT).release();
    other.feed(&sent);
    let mut back = SerialTransport::new(other, CLIENT, AGENT);
    assert_eq!(back.receive_msg(1000), Ok(&[0x7E, 0x10, 0x7D][..]));
}

#[test]
fn frames_round_trip_whatever_they_carry() {
    let mut payloads: Vec<Vec<u8>> = vec![
        vec![1],
        vec![0x7E],
        vec![0x7D],
        vec![0x7D, 0x7E, 0x5E, 0x5D, 0x20],
        vec![0x7E; 100],
        (0..=255u8).collect(),
        (0..506u32).map(|i| (i * 7 + 3) as u8).collect(),
        vec![0x7D; 506],
        vec![0xA5; 512],
    ];
    payloads.push((0..300u32).map(|i| if i % 3 == 0 { 0x7E } else { i as u8 }).collect());
    for payload in payloads {
        let (mut sender, sent) = transport();
        assert_eq!(sender.write_framed_msg(&payload, AGENT), Ok(payload.len()));
        assert_eq!(sent.sent(), frame(CLIENT, AGENT, &payload));

        let link = Link::default();
        link.feed(&sent.sent());
        let mut receiver = SerialTransport::new(link.clone(), CLIENT, AGENT);
        assert_eq!(receiver.receive_msg(1000), Ok(&payload[..]));
        assert!(link.0.borrow().incoming.is_empty());
    }
}

#[test]
fn a_frame_is_sent_piece_by_piece() {
    let payload: Vec<u8> = (0..200u32).map(|i| (i * 5) as u8).collect();
    for limit in [1, 2, 7, 41, 42] {
        let (mut sender, link) = transport();
        link.0.borrow_mut().write_limit = Some(limit);
        assert_eq!(sender.send_msg(&payload), Ok(200));
        assert_eq!(link.sent(), frame(CLIENT, AGENT, &payload));
    }
}

#[test]
fn a_link_that_stops_taking_bytes_gives_the_frame_up() {
    let payload = [9u8; 100];
    let whole = frame(CLIENT, AGENT, &payload);
    for budget in [0usize, 1, 41, 42, 43, 84, 100, whole.len() - 1] {
        let (mut sender, link) = transport();
        link.0.borrow_mut().write_budget = Some(budget);
        match sender.send_msg(&payload) {
            Err(Error::PartWritten(n)) => assert!(n <= payload.len()),
            other => panic!("{:?}", other),
        }
        assert_eq!(link.sent(), whole[..budget]);

        link.0.borrow_mut().write_budget = None;
        link.0.borrow_mut().sent.clear();
        assert_eq!(sender.send_msg(&payload), Ok(100));
        assert_eq!(link.sent(), whole);
    }
    let (mut sender, link) = transport();
    link.0.borrow_mut().write_budget = Some(42);
    assert_eq!(sender.send_msg(&payload), Err(Error::PartWritten(79)));
    let (mut sender, link) = transport();
    link.0.borrow_mut().write_budget = Some(41);
    assert_eq!(sender.send_msg(&payload), Err(Error::PartWritten(37)));
    let (mut sender, link) = transport();
    link.0.borrow_mut().write_budget = Some(whole.len());
    assert_eq!(sender.send_msg(&payload), Ok(100));
    assert_eq!(link.sent(), whole);
}

#[test]
fn a_link_that_fails_is_an_io_error() {
    let (mut sender, link) = transport();
    link.0.borrow_mut().fail_writes = true;
    assert_eq!(sender.send_msg(&[1, 2, 3]), Err(Error::IoError));
    assert_eq!(sender.framing_write_transport(), Ok(0));
    link.0.borrow_mut().fail_writes = false;
    assert_eq!(sender.send_msg(&[1, 2, 3]), Ok(3));
    assert_eq!(link.sent(), frame(CLIENT, AGENT, &[1, 2, 3]));

    let (mut receiver, link) = transport();
    link.0.borrow_mut().fail_reads = true;
    assert_eq!(receiver.receive_msg(10), Err(Error::IoError));
    let mut budget = 10;
    assert_eq!(receiver.read_framed_msg(&mut budget), Err(Error::IoError));
    assert_eq!(budget, 10);
    assert_eq!(receiver.framing_read_transport(&mut budget, 5), Err(Error::IoError));
}

/// A link that claims more than it can have done.
struct Liar;

impl SerialPlatformOps for Liar {
    fn write_serial_data(&mut self, buf: &[u8]) -> Result<usize, Error> {
        Ok(buf.len() + 1)
    }

    fn read_serial_data(&mut self, _buf: &mut [u8], len: usize, _timeout: i32) -> Result<usize, Error> {
        Ok(len + 1)
    }

    fn millis(&mut self) -> i32 {
        0
    }
}

#[test]
fn a_link_that_claims_too_much_is_an_io_error() {
    let mut transport = SerialTransport::new(Liar, AGENT, CLIENT);
    assert_eq!(transport.send_msg(&[1, 2, 3]), Err(Error::IoError));
    assert_eq!(transport.receive_msg(10), Err(Error::IoError));
}

#[test]
fn a_flipped_bit_drops_the_frame() {
    let payload = [0x10u8, 0x20, 0x30, 0x40, 0x55];
    let mut body = vec![AGENT, CLIENT, 5, 0];
    body.extend_from_slice(&payload);
    let crc = crc_of(&body);
    for byte in 0..payload.len() {
        for bit in 0..8 {
            let mut changed = payload;
            changed[byte] ^= 1 << bit;
            let (mut receiver, link) = transport();
            link.feed(&frame_with_crc(AGENT, CLIENT, &changed, crc));
            assert_eq!(receiver.receive_msg(5), Err(Error::Timeout));
            link.feed(&frame(AGENT, CLIENT, &payload));
            assert_eq!(receiver.receive_msg(1000), Ok(&payload[..]));
        }
    }
    for bit in 0..16 {
        let (mut receiver, link) = transport();
        link.feed(&frame_with_crc(AGENT, CLIENT, &payload, crc ^ (1 << bit)));
        assert_eq!(receiver.receive_msg(5), Err(Error::Timeout));
        link.feed(&frame_with_crc(AGENT, CLIENT, &payload, crc));
        assert_eq!(receiver.receive_msg(1000), Ok(&payload[..]));
    }
}

#[test]
fn garbage_before_a_frame_is_skipped() {
    let (mut receiver, link) = transport();
    link.feed(&[0x00, 0xFF, 0x7D, 0x7D, 0x5E, 0x12, 0x7D]);
    link.feed(&frame(AGENT, CLIENT, &[1, 2, 3]));
    assert_eq!(receiver.receive_msg(1000), Ok(&[1, 2, 3][..]));

    let (mut receiver, link) = transport();
    link.feed(&vec![0x42; 500]);
    link.feed(&frame(AGENT, CLIENT, &[0x7E]));
    link.feed(&[0x33; 50]);
    link.feed(&frame(AGENT, CLIENT, &[0x7D, 7]));
    assert_eq!(receiver.receive_msg(1000), Ok(&[0x7E][..]));
    assert_eq!(receiver.receive_msg(1000), Ok(&[0x7D, 7][..]));
    assert_eq!(receiver.receive_msg(5), Err(Error::Timeout));
}

#[test]
fn a_begin_inside_a_frame_starts_anew() {
    let whole = frame(AGENT, CLIENT, &[1, 2, 3, 4, 5, 6, 7, 8]);
    for cut in 1..whole.len() {
        let (mut receiver, link) = transport();
        link.feed(&whole[..cut]);
        link.feed(&frame(AGENT, CLIENT, &[0xAA, 0xBB]));
        assert_eq!(receiver.receive_msg(1000), Ok(&[0xAA, 0xBB][..]));
        assert_eq!(receiver.receive_msg(5), Err(Error::Timeout));

        let (mut receiver, link) = transport();
        link.feed(&whole[..cut]);
        link.feed(&[0x7E]);
        link.feed(&frame(AGENT, CLIENT, &[0xCC]));
        assert_eq!(receiver.receive_msg(1000), Ok(&[0xCC][..]));
    }
}

#[test]
fn an_escaped_begin_gives_the_frame_up() {
    let (mut receiver, link) = transport();
    link.feed(&[0x7E, AGENT, CLIENT, 0x7D, 0x7E, AGENT, CLIENT, 1, 0, 9]);
    link.feed(&frame(AGENT, CLIENT, &[4, 5]));
    assert_eq!(receiver.receive_msg(1000), Ok(&[4, 5][..]));
}

#[test]
fn frames_that_are_not_for_us_are_passed_over() {
    let (mut receiver, link) = transport();
    link.feed(&frame(AGENT, 9, &[1]));
    link.feed(&frame(7, CLIENT, &[2]));
    link.feed(&frame(AGENT, CLIENT, &[]));
    link.feed(&frame(AGENT, CLIENT, &[3]));
    assert_eq!(receiver.receive_msg(1000), Ok(&[3][..]));
    assert_eq!(receiver.receive_msg(50), Err(Error::Timeout));

    let (mut receiver, link) = transport();
    link.feed(&frame(7, CLIENT, &[2]));
    let mut budget = 9;
    assert_eq!(receiver.read_framed_msg(&mut budget), Ok((0, 7)));
    assert_eq!(receiver.read_framed_msg(&mut budget), Ok((1, 7)));
    assert_eq!(budget, 7);
}

#[test]
fn a_frame_that_is_too_long_is_dropped() {
    let (mut receiver, link) = transport();
    let long = vec![1u8; 513];
    link.feed(&frame(AGENT, CLIENT, &long));
    link.feed(&frame(AGENT, CLIENT, &[8]));
    assert_eq!(receiver.receive_msg(1000), Ok(&[8][..]));
}

#[test]
fn a_frame_comes_in_piece_by_piece() {
    let payload: Vec<u8> = (0..120u32).map(|i| (i ^ 0x7E) as u8).collect();
    let whole = frame(AGENT, CLIENT, &payload);
    let (mut receiver, link) = transport();
    let mut budget = 1000;
    for (i, &b) in whole.iter().enumerate() {
        link.feed(&[b]);
        let got = receiver.read_framed_msg(&mut budget).unwrap();
        if i + 1 < whole.len() {
            assert_eq!(got.0, 0);
        } else {
            assert_eq!(got, (120, AGENT));
        }
    }
}

#[test]
fn time_is_taken_from_the_budget() {
    let (mut receiver, link) = transport();
    link.0.borrow_mut().tick = 3;
    let mut budget = 10;
    assert_eq!(receiver.framing_read_transport(&mut budget, 5), Ok(0));
    assert_eq!(budget, 7);
    link.feed(&[1, 2, 3, 4, 5, 6, 7]);
    assert_eq!(receiver.framing_read_transport(&mut budget, 5), Ok(5));
    assert_eq!(budget, 4);
    link.0.borrow_mut().tick = 100;
    assert_eq!(receiver.framing_read_transport(&mut budget, 100), Ok(2));
    assert_eq!(budget, 0);
    assert_eq!(receiver.receive_msg(0), Err(Error::Timeout));
    assert!(receiver.now() > 0);

    assert_eq!(remaining_budget(1000, 5, 105), 900);
    assert_eq!(remaining_budget(1000, 5, 1005), 0);
    assert_eq!(remaining_budget(1000, 5, 2000), 0);
    assert_eq!(remaining_budget(1000, i32::MAX - 1, i32::MIN + 2), 996);
    assert_eq!(remaining_budget(10, 50, 40), 20);
    assert_eq!(remaining_budget(i32::MAX, 50, 40), i32::MAX);
    assert_eq!(remaining_budget(-5, 0, 0), 0);
}

#[test]
fn receiving_waits_while_time_is_left() {
    let (mut receiver, link) = transport();
    link.0.borrow_mut().tick = 10;
    assert_eq!(receiver.receive_msg(100), Err(Error::Timeout));
    assert_eq!(link.0.borrow().reads, 10);
}

#[test]
fn the_ring_unstuffs_what_it_holds() {
    let mut io = FramingIO::new(CLIENT);
    assert_eq!(io.local_addr(), CLIENT);
    assert_eq!(io.pending_len(), 0);
    assert_eq!(io.get_next_octet(), None);
    assert_eq!(io.free_windows(100), (41, 0));
    assert_eq!(io.free_windows(5), (5, 0));
    io.push_all(&[1, 0x7D, 0x5E, 0x7D, 0x5D, 0x7E, 2, 0x7D, 0x7E, 3, 0x7D], 11);
    assert_eq!(io.pending_len(), 11);
    assert_eq!(io.get_next_octet(), Some(1));
    assert_eq!(io.get_next_octet(), Some(0x7E));
    assert_eq!(io.get_next_octet(), Some(0x7D));
    assert_eq!(io.get_next_octet(), None);
    assert_eq!(io.get_next_octet(), Some(2));
    assert_eq!(io.get_next_octet(), None);
    assert_eq!(io.pending_len(), 2);
    assert_eq!(io.get_next_octet(), Some(3));
    assert_eq!(io.get_next_octet(), None);
    assert_eq!(io.pending_len(), 1);
    assert_eq!(io.free_windows(100), (31, 9));
    assert_eq!(io.free_windows(32), (31, 1));
    io.push_all(&[0x21; 40], 40);
    assert_eq!(io.pending_len(), 41);
    assert_eq!(io.free_windows(100), (0, 0));
    assert_eq!(io.get_next_octet(), Some(0x01));
    for _ in 0..39 {
        assert_eq!(io.get_next_octet(), Some(0x21));
    }
    assert_eq!(io.get_next_octet(), None);
}

#[test]
fn the_staging_buffer_stuffs_what_it_takes() {
    let mut io = FramingIO::new(CLIENT);
    io.start_frame();
    assert!(io.add_nex_octet(0x7E));
    assert!(io.add_nex_octet(0x7D));
    assert!(io.add_nex_octet(0x11));
    assert_eq!(io.staged_from(0), [0x7E, 0x7D, 0x5E, 0x7D, 0x5D, 0x11]);
    assert_eq!(io.staged_from(4), [0x5D, 0x11]);
    for _ in 0..35 {
        assert!(io.add_nex_octet(0));
    }
    assert_eq!(io.staged_len(), 41);
    assert!(!io.add_nex_octet(0x7E));
    assert_eq!(io.staged_len(), 41);
    assert!(io.add_nex_octet(1));
    assert!(!io.add_nex_octet(1));
    assert_eq!(io.staged_len(), 42);
    io.clear_staged();
    assert_eq!(io.staged_len(), 0);

    let mut out = [0u8; 512];
    io.push_all(&frame(AGENT, CLIENT, &[6, 7]), 9);
    assert_eq!(io.wanted(), 5);
    assert_eq!(io.read_frame(&mut out), Some(2));
    assert_eq!(out[..2], [6, 7]);
    assert_eq!(io.source(), AGENT);
    io.push_all(&[0x7E, AGENT, CLIENT, 3, 0, 1], 6);
    assert_eq!(io.read_frame(&mut out), None);
    assert_eq!(io.wanted(), 4);

    assert_eq!(part_written(Error::PartWritten(9), 4), Error::PartWritten(4));
    assert_eq!(part_written(Error::IoError, 4), Error::IoError);
}

#[test]
fn what_follows_a_write() {
    assert_eq!(after_write(0, 10, Ok(10)), WriteNext::Done(Ok(10)));
    assert_eq!(after_write(0, 10, Ok(4)), WriteNext::More(4));
    assert_eq!(after_write(4, 10, Ok(5)), WriteNext::More(9));
    assert_eq!(after_write(4, 10, Ok(6)), WriteNext::Done(Ok(10)));
    assert_eq!(after_write(4, 10, Ok(0)), WriteNext::Done(Err(Error::PartWritten(4))));
    assert_eq!(after_write(0, 10, Ok(0)), WriteNext::Done(Err(Error::PartWritten(0))));
    assert_eq!(after_write(4, 10, Ok(7)), WriteNext::Done(Err(Error::IoError)));
    assert_eq!(after_write(4, 10, Ok(usize::MAX)), WriteNext::Done(Err(Error::IoError)));
    assert_eq!(after_write(4, 10, Err(Error::Timeout)), WriteNext::Done(Err(Error::IoError)));
    assert_eq!(after_write(0, 0, Ok(0)), WriteNext::Done(Ok(0)));
}

#[test]
fn what_follows_a_read() {
    assert_eq!(after_read(8, Ok(0)), Ok(0));
    assert_eq!(after_read(8, Ok(8)), Ok(8));
    assert_eq!(after_read(8, Ok(9)), Err(Error::IoError));
    assert_eq!(after_read(8, Err(Error::Timeout)), Err(Error::Timeout));
    assert_eq!(after_read(8, Err(Error::IoError)), Err(Error::IoError));
    assert!(read_again(8, 3, 8));
    assert!(!read_again(8, 3, 7));
    assert!(!read_again(8, 0, 8));
    assert!(!read_again(0, 3, 0));
}

#[test]
fn what_follows_a_look() {
    assert_eq!(after_look(5, AGENT, AGENT, false, 0, 0), LookNext::Deliver(5));
    assert_eq!(after_look(5, AGENT, AGENT, true, -1, u32::MAX), LookNext::Deliver(5));
    assert_eq!(after_look(5, 9, AGENT, true, 0, u32::MAX), LookNext::InRing);
    assert_eq!(after_look(5, 9, AGENT, false, 0, 0), LookNext::GiveUp);
    assert_eq!(after_look(5, 9, AGENT, false, 100, 0), LookNext::Again);
    assert_eq!(after_look(5, 9, AGENT, false, 100, u32::MAX), LookNext::GiveUp);
    assert_eq!(after_look(0, AGENT, AGENT, true, 0, 7), LookNext::InRing);
    assert_eq!(after_look(0, AGENT, AGENT, true, 1, u32::MAX), LookNext::InRing);
    assert_eq!(after_look(0, AGENT, AGENT, false, 0, 7), LookNext::GiveUp);
    assert_eq!(after_look(0, AGENT, AGENT, false, -3, 7), LookNext::GiveUp);
    assert_eq!(after_look(0, AGENT, AGENT, false, 1, 7), LookNext::Again);
    assert_eq!(after_look(0, AGENT, AGENT, false, 1, u32::MAX), LookNext::GiveUp);
}

#[test]
fn a_look_in_the_ring_asks_the_link_for_nothing() {
    let (mut receiver, link) = transport();
    link.feed(&cut_frame());
    link.feed(&frame(0x31, CLIENT, b"x"));
    link.feed(&frame(AGENT, CLIENT, b"yz"));
    assert_eq!(receiver.look_in_ring().0, 0);
    assert_eq!(link.0.borrow().reads, 0);
    let mut time = 10;
    assert_eq!(receiver.read_framed_msg(&mut time).map(|found| found.0), Ok(0));
    assert_eq!(receiver.read_framed_msg(&mut time), Ok((1, 0x31)));
    assert_eq!(link.0.borrow().reads, 2);
    assert_eq!(receiver.look_in_ring(), (2, AGENT));
    assert_eq!(receiver.look_in_ring(), (0, AGENT));
    assert_eq!(receiver.look_in_ring(), (0, AGENT));
    assert_eq!(link.0.borrow().reads, 2);
    link.feed(&frame(AGENT, CLIENT, b"later"));
    assert_eq!(receiver.look_in_ring(), (0, AGENT));
    assert_eq!(receiver.receive_msg(10), Ok(&b"later"[..]));
}

#[test]
fn the_ring_says_whether_it_can_be_read() {
    let mut io = FramingIO::new(CLIENT);
    let mut out = [0u8; 512];
    assert!(!io.has_readable());
    io.push_all(&[1, 2], 2);
    assert!(io.has_readable());
    assert_eq!(io.read_frame(&mut out), None);
    assert!(!io.has_readable());
    io.push_all(&[0x7E, AGENT, 0x7D], 3);
    assert!(io.has_readable());
    assert_eq!(io.read_frame(&mut out), None);
    assert_eq!(io.pending_len(), 1);
    assert!(!io.has_readable());
    io.push_all(&[CLIENT ^ 0x20], 1);
    assert!(io.has_readable());
}

/// The start of a frame that announces thirty bytes of payload and brings three.
fn cut_frame() -> Vec<u8> {
    vec![0x7E, AGENT, CLIENT, 30, 0, 1, 2, 3]
}

#[test]
fn a_frame_behind_one_from_a_stranger_is_read_though_time_is_up() {
    let (mut receiver, link) = transport();
    link.feed(&cut_frame());
    link.feed(&frame(0x31, CLIENT, b"x"));
    link.feed(&frame(AGENT, CLIENT, b"y"));
    assert_eq!(receiver.receive_msg(2), Ok(&b"y"[..]));
    assert_eq!(link.0.borrow().reads, 2);
    assert_eq!(receiver.receive_msg(0), Err(Error::Timeout));
}

#[test]
fn a_frame_behind_an_empty_one_is_read_though_time_is_up() {
    let (mut receiver, link) = transport();
    link.feed(&cut_frame());
    link.feed(&frame(AGENT, CLIENT, b""));
    link.feed(&frame(AGENT, CLIENT, b"y"));
    assert_eq!(receiver.receive_msg(2), Ok(&b"y"[..]));
    assert_eq!(link.0.borrow().reads, 2);
}

#[test]
fn with_no_time_the_link_is_asked_once() {
    let (mut receiver, link) = transport();
    link.feed(&frame(AGENT, CLIENT, b"late"));
    assert_eq!(receiver.receive_msg(0), Err(Error::Timeout));
    assert_eq!(link.0.borrow().reads, 1);
    assert_eq!(receiver.receive_msg(-7), Ok(&b"late"[..]));
    assert_eq!(link.0.borrow().reads, 2);
    assert_eq!(receiver.receive_msg(-7), Err(Error::Timeout));
    assert_eq!(link.0.borrow().reads, 3);
}

#[test]
fn a_frame_given_up_says_how_much_of_the_payload_was_staged() {
    let payload = [0x11u8; 100];
    let whole = frame(CLIENT, AGENT, &payload);
    for budget in [0usize, 3, 5, 41, 42, 43, 90, 104, 105, 106] {
        let (mut sender, link) = transport();
        link.0.borrow_mut().write_budget = Some(budget);
        let staged = match sender.write_framed_msg(&payload, AGENT) {
            Err(Error::PartWritten(n)) => n,
            other => panic!("{:?}", other),
        };
        let sent = link.sent();
        assert_eq!(sent[..], whole[..budget]);
        if staged < payload.len() {
            assert!(sent.len() <= 5 + staged);
        }
    }
}

/// `BEGIN` and the first `count` bytes of a frame before stuffing, as they are sent.
fn cut(src: u8, dst: u8, payload: &[u8], count: usize) -> Vec<u8> {
    let mut all = vec![src, dst, (payload.len() % 256) as u8, (payload.len() / 256) as u8];
    all.extend_from_slice(payload);
    let crc = crc_of(&all);
    all.push((crc % 256) as u8);
    all.push((crc / 256) as u8);
    let mut out = vec![0x7E];
    for b in &all[..count] {
        stuff(&mut out, *b);
    }
    out
}

#[test]
fn a_frame_cut_short_is_given_up_for_the_next() {
    let first = [0x7E, 1, 0x7D, 2, 3];
    for count in 0..first.len() + 6 {
        let (mut receiver, link) = transport();
        link.feed(&cut(AGENT, CLIENT, &first, count));
        link.feed(&frame(AGENT, CLIENT, b"whole"));
        assert_eq!(receiver.receive_msg(1000), Ok(&b"whole"[..]), "cut at {}", count);
        assert_eq!(receiver.receive_msg(10), Err(Error::Timeout));
    }
    assert_eq!(cut(AGENT, CLIENT, &first, first.len() + 6), frame(AGENT, CLIENT, &first));
}

#[test]
fn a_frame_cut_inside_an_escape_takes_the_next_with_it() {
    let (mut receiver, link) = transport();
    link.feed(&[0x7E, AGENT, CLIENT, 2, 0, 0x7D]);
    link.feed(&frame(AGENT, CLIENT, b"lost"));
    link.feed(&frame(AGENT, CLIENT, b"found"));
    assert_eq!(receiver.receive_msg(1000), Ok(&b"found"[..]));
}
