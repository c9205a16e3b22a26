use std::cell::RefCell;
use std::collections::VecDeque;
use std::rc::Rc;

use xrce_client_rs::communication::{Receiver, Transmitter};
use xrce_client_rs::serial::transport::SerialTransport;
use xrce_client_rs::serial::SerialPlatformOps;
use xrce_client_rs::session::{
    after_listen, after_send, handshake_result, listen_on, next_submessage, read_agent_reply,
    read_message, read_status_reply, read_stream, read_submessage_list, ListenNext, Reply,
    Session, SessionInfo, SubMessage, Summary,
};
use xrce_client_rs::stream_id::{StreamDirection, StreamId};
use xrce_client_rs::submessage::{DataFormat, SubMessageHeader};
use xrce_client_rs::time::Clock;
use xrce_client_rs::{Error, MAX_SESSION_CONNECTION_ATTEMPTS};

const KEY: [u8; 4] = [0x22, 0x33, 0x44, 0x55];

fn summary() -> Summary {
    Summary { reply: None, data: 0, reliable: 0, fragments: 0, skipped: 0 }
}

fn sub(header: SubMessageHeader, payload: &[u8]) -> Vec<u8> {
    let mut out = vec![0u8; 4];
    header.to_slice(&mut out).unwrap();
    out.extend_from_slice(payload);
    out
}

fn agent_status(status: u8, version: [u8; 2], vendor: [u8; 2]) -> Vec<u8> {
    let mut payload = vec![status, 0, b'X', b'R', b'C', b'E'];
    payload.extend_from_slice(&version);
    payload.extend_from_slice(&vendor);
    let mut message = vec![0x81, 0, 0, 0];
    message.extend(sub(SubMessageHeader::StatusAgent(10), &payload));
    message
}

#[test]
fn answers_of_the_agent() {
    let accepted = [0u8, 0, b'X', b'R', b'C', b'E', 1, 0, 1, 0x0F];
    assert_eq!(read_agent_reply(&accepted), Some(Reply::Accepted));
    assert_eq!(read_agent_reply(&accepted[..9]), None);
    let mut other = accepted;
    other[0] = 0x7F;
    assert_eq!(read_agent_reply(&other), Some(Reply::Accepted));
    other[0] = 0x80;
    assert_eq!(read_agent_reply(&other), Some(Reply::Denied));
    other[6] = 9;
    assert_eq!(read_agent_reply(&other), Some(Reply::Denied));
    for at in 6..10 {
        let mut other = accepted;
        other[at] ^= 0x10;
        assert_eq!(read_agent_reply(&other), Some(Reply::Incompatible));
    }

    assert_eq!(read_status_reply(&[0, 1, 0, 2, 0x00, 0]), Some(Reply::Accepted));
    assert_eq!(read_status_reply(&[0, 1, 0, 2, 0x01, 0, 9]), Some(Reply::Accepted));
    assert_eq!(read_status_reply(&[0, 1, 0, 2, 0x85, 0]), Some(Reply::Denied));
    assert_eq!(read_status_reply(&[0, 1, 0, 2, 0x85]), None);

    assert_eq!(handshake_result(Some(Reply::Accepted)), Ok(()));
    assert_eq!(handshake_result(Some(Reply::Denied)), Err(Error::Denied));
    assert_eq!(handshake_result(Some(Reply::Incompatible)), Err(Error::Incompatible));
    assert_eq!(handshake_result(None), Err(Error::Timeout));
}

#[test]
fn submessages_are_found_one_after_the_other() {
    let mut buf = vec![0xEE, 0xEE];
    buf.extend(sub(SubMessageHeader::Data(3, DataFormat::FormatSample), &[1, 2, 3]));
    buf.extend(sub(SubMessageHeader::HeartBeat(0), &[]));
    buf.extend(sub(SubMessageHeader::Info(2), &[9, 9]));
    let first = next_submessage(&buf, 2).unwrap();
    assert_eq!(
        first,
        SubMessage { header: SubMessageHeader::Data(3, DataFormat::FormatSample), start: 6, end: 9 }
    );
    let second = next_submessage(&buf, first.end).unwrap();
    assert_eq!(second, SubMessage { header: SubMessageHeader::HeartBeat(0), start: 13, end: 13 });
    let third = next_submessage(&buf, second.end).unwrap();
    assert_eq!(third, SubMessage { header: SubMessageHeader::Info(2), start: 17, end: 19 });
    assert_eq!(third.end, buf.len());
    assert_eq!(next_submessage(&buf, buf.len()), Err(Error::InvalidData));
    assert_eq!(next_submessage(&buf, buf.len() - 3), Err(Error::InvalidData));
    assert_eq!(next_submessage(&buf[..18], 13), Err(Error::InvalidData));
    assert_eq!(next_submessage(&[16, 1, 0, 0], 0), Err(Error::InvalidData));
    assert_eq!(next_submessage(&[9, 0x05, 0, 0], 0), Err(Error::InvalidData));
}

#[test]
fn a_message_is_summed_up() {
    let stream = StreamId::from_raw(1, StreamDirection::InputStream);
    assert!(read_stream(&[1, 2], stream, 7));
    let mut buf = Vec::new();
    buf.extend(sub(SubMessageHeader::Data(2, DataFormat::FormatData), &[1, 2]));
    buf.extend(sub(SubMessageHeader::WriteData(1, DataFormat::FormatSample), &[3]));
    buf.extend(sub(SubMessageHeader::HeartBeat(4), &[0; 4]));
    buf.extend(sub(SubMessageHeader::AckNack(4), &[0; 4]));
    buf.extend(sub(SubMessageHeader::AckNack(0), &[]));
    buf.extend(sub(SubMessageHeader::Fragment(1, true), &[5]));
    buf.extend(sub(SubMessageHeader::Status(6), &[0, 0, 0, 0, 0x80, 0]));
    buf.extend(sub(SubMessageHeader::TimeStamp(8), &[0; 8]));
    buf.extend(sub(SubMessageHeader::CreateClient(0), &[]));
    assert_eq!(
        read_submessage_list(&buf, 0, stream, 0),
        Ok(Summary { reply: Some(Reply::Denied), data: 2, reliable: 3, fragments: 1, skipped: 2 })
    );
    assert_eq!(read_submessage_list(&buf, buf.len(), stream, 0), Ok(summary()));
    assert_eq!(read_submessage_list(&buf[..buf.len() - 1], 0, stream, 0), Err(Error::InvalidData));
    assert_eq!(read_submessage_list(&buf, 1, stream, 0), Err(Error::InvalidData));

    let mut short_status = sub(SubMessageHeader::StatusAgent(9), &[0; 9]);
    assert_eq!(read_submessage_list(&short_status, 0, stream, 0), Err(Error::InvalidData));
    short_status = sub(SubMessageHeader::Status(5), &[0; 5]);
    assert_eq!(read_submessage_list(&short_status, 0, stream, 0), Err(Error::InvalidData));
}

#[test]
fn a_message_must_be_meant_for_the_session() {
    let info = SessionInfo { id: 0x81, key: KEY };
    assert_eq!(read_message(&info, &[0x81, 0, 0, 0]), Ok(summary()));
    assert_eq!(read_message(&info, &[0x82, 0, 0, 0]), Err(Error::InvalidData));
    assert_eq!(read_message(&info, &[0x81, 0, 0]), Err(Error::InvalidData));
    assert_eq!(read_message(&info, &[]), Err(Error::InvalidData));
    assert_eq!(read_message(&info, &[0x01, 0, 0, 0, 0x22, 0x33, 0x44, 0x55]), Err(Error::InvalidData));
    assert_eq!(
        read_message(&info, &agent_status(0, [1, 0], [1, 0x0F])),
        Ok(Summary { reply: Some(Reply::Accepted), ..summary() })
    );
    assert_eq!(
        read_message(&info, &agent_status(0, [2, 0], [1, 0x0F])),
        Ok(Summary { reply: Some(Reply::Incompatible), ..summary() })
    );
    let mut cut = agent_status(0, [1, 0], [1, 0x0F]);
    cut.pop();
    assert_eq!(read_message(&info, &cut), Err(Error::InvalidData));
    let mut trailing = agent_status(0, [1, 0], [1, 0x0F]);
    trailing.push(0);
    assert_eq!(read_message(&info, &trailing), Err(Error::InvalidData));

    let keyed = SessionInfo { id: 0x01, key: KEY };
    let mut message = vec![0x01, 5, 0, 0, 0x22, 0x33, 0x44, 0x55];
    message.extend(sub(SubMessageHeader::Data(1, DataFormat::FormatData), &[7]));
    assert_eq!(read_message(&keyed, &message), Ok(Summary { data: 1, ..summary() }));
    message[7] = 0x56;
    assert_eq!(read_message(&keyed, &message), Err(Error::InvalidData));
    assert_eq!(read_message(&keyed, &message[..7]), Err(Error::InvalidData));
    assert_eq!(read_message(&keyed, &[0x81, 0, 0, 0]), Err(Error::InvalidData));
}

/// An agent at the other end of a transport, as the test scripts it.
#[derive(Default)]
struct Script {
    sent: Vec<Vec<u8>>,
    /// What the agent answers to each message it is sent, in turn.
    answers: VecDeque<Vec<Vec<u8>>>,
    inbox: VecDeque<Vec<u8>>,
    current: Vec<u8>,
    clock: i32,
    fail_send: Option<Error>,
    fail_receive: bool,
}

#[derive(Clone, Default)]
struct Agent(Rc<RefCell<Script>>);

impl Transmitter for Agent {
    type Ok = usize;

    fn send_msg(&mut self, buf: &[u8]) -> Result<usize, Error> {
        let mut script = self.0.borrow_mut();
        script.sent.push(buf.to_vec());
        if let Some(answers) = script.answers.pop_front() {
            script.inbox.extend(answers);
        }
        match script.fail_send {
            Some(e) => Err(e),
            None => Ok(buf.len()),
        }
    }
}

impl Receiver for Agent {
    fn receive_msg(&mut self, timeout: i32) -> Result<&[u8], Error> {
        {
            let mut script = self.0.borrow_mut();
            if script.fail_receive {
                return Err(Error::IoError);
            }
            match script.inbox.pop_front() {
                Some(message) => {
                    script.clock += 1;
                    script.current = message;
                }
                None => {
                    script.clock += timeout.max(1);
                    return Err(Error::Timeout);
                }
            }
        }
        let current = self.0.borrow().current.clone();
        Ok(Box::leak(current.into_boxed_slice()))
    }
}

impl Clock for Agent {
    fn now(&mut self) -> i32 {
        self.0.borrow().clock
    }
}

fn create_message() -> Vec<u8> {
    let pointer = (usize::BITS / 8) as u16;
    let mtu = (256 - pointer).to_le_bytes();
    vec![
        0x80, 0x00, 0x00, 0x00, 0x00, 0x01, 0x10, 0x00, b'X', b'R', b'C', b'E', 0x01, 0x00, 0x01,
        0x0F, 0x22, 0x33, 0x44, 0x55, 0x81, 0x00, mtu[0], mtu[1],
    ]
}

#[test]
fn the_message_that_opens_a_session() {
    let mut session = Session::new(KEY, Agent::default());
    let mut buf = [0xFFu8; 75];
    assert_eq!(session.create_message(&mut buf), Ok(24));
    assert_eq!(buf[..24], create_message()[..]);
    assert_eq!(buf[24..], [0xFFu8; 51]);
    assert_eq!(session.told_mtu(), 256 - (usize::BITS / 8) as u16);
    assert_eq!(session.last_reply(), None);

    let mut body = [0u8; 20];
    assert_eq!(session.buffer_create_session(252, &mut body), Ok(20));
    assert_eq!(body[..18], create_message()[4..22]);
    assert_eq!(body[18..], [252, 0]);

    session.set_profile(true, false);
    let mut buf = [0u8; 75];
    assert_eq!(session.create_message(&mut buf), Ok(44));
    assert_eq!(buf[21], 1);
    assert_eq!(buf[24..35], [7, 0, 0, 0, b'u', b'x', b'r', b'_', b's', b'm', 0]);
    assert_eq!(buf[36..42], [2, 0, 0, 0, b'1', 0]);

    session.set_profile(false, true);
    let mut buf = [0u8; 75];
    assert_eq!(session.create_message(&mut buf), Ok(50));
    assert_eq!(buf[24..35], [7, 0, 0, 0, b'u', b'x', b'r', b'_', b'h', b'l', 0]);
    assert_eq!(buf[36..47], [7, 0, 0, 0, b'9', b'9', b'9', b'9', b'9', b'9', 0]);

    session.set_profile(true, true);
    let mut buf = [0u8; 75];
    assert_eq!(session.create_message(&mut buf), Ok(70));
    assert_eq!(buf[44..55], [7, 0, 0, 0, b'u', b'x', b'r', b'_', b'h', b'l', 0]);
    assert_eq!(buf[56..67], [7, 0, 0, 0, b'9', b'9', b'9', b'9', b'9', b'9', 0]);
    assert_eq!(buf[68..70], (256 - (usize::BITS / 8) as u16).to_le_bytes());
    let mut short = [0u8; 40];
    assert_eq!(
        session.buffer_create_session(1, &mut short),
        Err(xrce_client_rs::error::Error::BufferNotEnough)
    );
}

#[test]
fn the_agent_accepts_at_once() {
    let agent = Agent::default();
    agent.0.borrow_mut().answers.push_back(vec![agent_status(0, [1, 0], [1, 0x0F])]);
    let mut session = Session::new(KEY, agent.clone());
    assert_eq!(session.create(), Ok(()));
    assert_eq!(session.last_reply(), Some(Reply::Accepted));
    assert_eq!(agent.0.borrow().sent, vec![create_message()]);
}

#[test]
fn the_agent_accepts_after_a_while() {
    let agent = Agent::default();
    {
        let mut script = agent.0.borrow_mut();
        script.answers.push_back(vec![]);
        script.answers.push_back(vec![vec![0x42, 0, 0, 0], vec![0x81, 0, 0]]);
        script.answers.push_back(vec![
            vec![0x81, 0, 0, 0],
            agent_status(0x80, [1, 0], [1, 0x0F]),
            agent_status(0, [1, 0], [1, 0x0F]),
        ]);
    }
    let mut session = Session::new(KEY, agent.clone());
    assert_eq!(session.create(), Ok(()));
    assert_eq!(agent.0.borrow().sent.len(), 3);
}

#[test]
fn the_agent_never_answers() {
    let agent = Agent::default();
    let mut session = Session::new(KEY, agent.clone());
    assert_eq!(session.create(), Err(Error::Timeout));
    assert_eq!(session.last_reply(), None);
    assert_eq!(agent.0.borrow().sent, vec![create_message(); 10]);
    assert!(agent.0.borrow().clock >= 10_000);
}

#[test]
fn the_agent_refuses() {
    let agent = Agent::default();
    for _ in 0..10 {
        agent.0.borrow_mut().answers.push_back(vec![agent_status(0x83, [1, 0], [1, 0x0F])]);
    }
    let mut session = Session::new(KEY, agent.clone());
    assert_eq!(session.create(), Err(Error::Denied));
    assert_eq!(session.last_reply(), Some(Reply::Denied));
    assert_eq!(agent.0.borrow().sent.len(), 10);
}

#[test]
fn the_agent_is_of_another_kind() {
    let agent = Agent::default();
    agent.0.borrow_mut().answers.push_back(vec![agent_status(0, [1, 1], [1, 0x0F])]);
    let mut session = Session::new(KEY, agent.clone());
    assert_eq!(session.create(), Err(Error::Incompatible));
    assert_eq!(agent.0.borrow().sent.len(), 10);
}

#[test]
fn the_link_fails_during_the_handshake() {
    let agent = Agent::default();
    agent.0.borrow_mut().fail_send = Some(Error::IoError);
    let mut session = Session::new(KEY, agent.clone());
    assert_eq!(session.create(), Err(Error::IoError));
    assert_eq!(agent.0.borrow().sent.len(), 1);

    let agent = Agent::default();
    agent.0.borrow_mut().fail_receive = true;
    let mut session = Session::new(KEY, agent.clone());
    assert_eq!(session.create(), Err(Error::IoError));
    assert_eq!(session.listen_message(5).map(|(held, _)| held), Err(Error::IoError));

    let agent = Agent::default();
    agent.0.borrow_mut().fail_send = Some(Error::PartWritten(3));
    agent.0.borrow_mut().answers.push_back(vec![]);
    agent.0.borrow_mut().answers.push_back(vec![agent_status(0, [1, 0], [1, 0x0F])]);
    let mut session = Session::new(KEY, agent.clone());
    assert_eq!(session.create(), Ok(()));
    assert_eq!(agent.0.borrow().sent.len(), 2);
}

#[test]
fn without_attempts_the_message_is_sent_once() {
    let agent = Agent::default();
    let mut session = Session::new(KEY, agent.clone());
    assert_eq!(session.wait_session_status(&[1, 2, 3], 0), Ok(()));
    assert_eq!(agent.0.borrow().sent, vec![vec![1, 2, 3]]);
    assert_eq!(session.wait_session_status(&[4], 2), Err(Error::Timeout));
    assert_eq!(agent.0.borrow().sent.len(), 3);
    agent.0.borrow_mut().fail_send = Some(Error::Timeout);
    assert_eq!(session.wait_session_status(&[5], 0), Err(Error::IoError));
}

#[test]
fn listening_reads_one_message() {
    let agent = Agent::default();
    let mut session = Session::new(KEY, agent.clone());
    assert_eq!(session.listen_message(7), Err(Error::Timeout));
    let mut data = vec![0x81, 0x80, 1, 0];
    data.extend(sub(SubMessageHeader::Data(2, DataFormat::FormatData), &[1, 2]));
    agent.0.borrow_mut().inbox.push_back(data.clone());
    agent.0.borrow_mut().inbox.push_back(vec![0x81, 0, 0]);
    agent.0.borrow_mut().inbox.push_back(agent_status(0x80, [1, 0], [1, 0x0F]));
    agent.0.borrow_mut().inbox.push_back(vec![]);
    {
        let (held, message) = session.listen_message(7).unwrap();
        assert_eq!(held, Summary { data: 1, ..summary() });
        assert_eq!(message, &data[..]);
        let found = next_submessage(message, 4).unwrap();
        assert_eq!(found.header, SubMessageHeader::Data(2, DataFormat::FormatData));
        assert_eq!(message[found.start..found.end], [1, 2]);
    }
    assert_eq!(session.last_reply(), None);
    assert_eq!(session.listen_message(7), Err(Error::InvalidData));
    assert_eq!(
        session.listen_message(7).map(|(held, _)| held),
        Ok(Summary { reply: Some(Reply::Denied), ..summary() })
    );
    assert_eq!(session.last_reply(), Some(Reply::Denied));
    assert_eq!(session.listen_message(7), Ok((summary(), &[][..])));
    assert_eq!(session.last_reply(), Some(Reply::Denied));
}

/// A link that answers every frame it is sent with the frames of a script.
#[derive(Clone, Default)]
struct Loopback(Rc<RefCell<(Vec<u8>, VecDeque<u8>, i32)>>);

impl SerialPlatformOps for Loopback {
    fn write_serial_data(&mut self, buf: &[u8]) -> Result<usize, Error> {
        self.0.borrow_mut().0.extend_from_slice(buf);
        Ok(buf.len())
    }

    fn read_serial_data(&mut self, buf: &mut [u8], len: usize, _timeout: i32) -> Result<usize, Error> {
        let mut n = 0;
        while n < len {
            match self.0.borrow_mut().1.pop_front() {
                Some(b) => {
                    buf[n] = b;
                    n += 1;
                }
                None => break,
            }
        }
        Ok(n)
    }

    fn millis(&mut self) -> i32 {
        self.0.borrow_mut().2 += 50;
        self.0.borrow().2
    }
}

#[test]
fn a_session_over_a_serial_link() {
    let link = Loopback::default();
    let mut agent_side = SerialTransport::new(link.clone(), 1, 0);
    agent_side.send_msg(&agent_status(0, [1, 0], [1, 0x0F])).unwrap();
    let answer: Vec<u8> = link.0.borrow_mut().0.drain(..).collect();
    link.0.borrow_mut().1.extend(answer);

    let mut session = Session::new(KEY, SerialTransport::new(link.clone(), 0, 1));
    assert_eq!(session.create(), Ok(()));
    let sent = link.0.borrow().0.clone();
    assert_eq!(sent[..3], [0x7E, 1, 0]);
    let mut agent_side = SerialTransport::new(Loopback::default(), 1, 0);
    let other = agent_side.release();
    other.0.borrow_mut().1.extend(sent);
    agent_side = SerialTransport::new(other, 1, 0);
    assert_eq!(agent_side.receive_msg(100_000), Ok(&create_message()[..]));

    let mut session = Session::new(KEY, SerialTransport::new(Loopback::default(), 0, 1));
    assert_eq!(session.create(), Err(Error::Timeout));
}

#[test]
fn what_follows_a_send() {
    assert!(!after_send(&Ok::<usize, Error>(3)));
    assert!(!after_send(&Err::<usize, Error>(Error::PartWritten(2))));
    assert!(!after_send(&Err::<(), Error>(Error::PartWritten(0))));
    assert!(after_send(&Err::<usize, Error>(Error::IoError)));
    assert!(after_send(&Err::<usize, Error>(Error::Timeout)));
    assert!(after_send(&Err::<usize, Error>(Error::InvalidData)));
}

#[test]
fn what_follows_listening() {
    let go_on = ListenNext::GoOn;
    assert_eq!(after_listen(None, Ok(summary())), go_on);
    assert_eq!(after_listen(None, Err(Error::Timeout)), go_on);
    assert_eq!(after_listen(None, Err(Error::InvalidData)), go_on);
    assert_eq!(after_listen(Some(Reply::Denied), Ok(summary())), go_on);
    assert_eq!(after_listen(Some(Reply::Incompatible), Err(Error::Timeout)), go_on);
    assert_eq!(after_listen(Some(Reply::Accepted), Ok(summary())), ListenNext::Stop(Ok(())));
    assert_eq!(after_listen(Some(Reply::Accepted), Err(Error::Timeout)), ListenNext::Stop(Ok(())));
    assert_eq!(after_listen(None, Err(Error::IoError)), ListenNext::Stop(Err(Error::IoError)));
    assert_eq!(
        after_listen(Some(Reply::Accepted), Err(Error::IoError)),
        ListenNext::Stop(Err(Error::IoError))
    );
    assert!(listen_on(1000, 0));
    assert!(listen_on(1, 17));
    assert!(!listen_on(0, 0));
    assert!(!listen_on(-5, 0));
    assert!(!listen_on(1000, u32::MAX));
}

#[test]
fn a_session_with_profiles_opens_with_a_longer_message() {
    for (shared, hard, len) in [(false, false, 24usize), (true, false, 44), (false, true, 50), (true, true, 70)] {
        let agent = Agent::default();
        let mut session = Session::new(KEY, agent.clone());
        session.set_profile(shared, hard);
        let mut expected = [0u8; 75];
        assert_eq!(session.create_message(&mut expected), Ok(len));
        assert_eq!(session.create(), Err(Error::Timeout));
        let sent = agent.0.borrow().sent.clone();
        assert_eq!(sent.len(), MAX_SESSION_CONNECTION_ATTEMPTS);
        for message in sent {
            assert_eq!(message[..], expected[..len]);
        }
    }
}
