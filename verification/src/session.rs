//! The session of a client with its agent: the handshake that opens it and
//! the reading of the messages that come in.
use vstd::prelude::*;
use vstd::slice::slice_subrange;
use crate::communication::{Receiver, Transmitter, MAX_MESSAGE_SIZE};
use crate::header::{ClientKey, MessageHeader, SESSION_ID_WITHOUT_CLIENT_KEY};
use crate::micro_cdr::{
    align_up, lemma_fits_width, lemma_wire_roundtrip, CdrStream, NATIVE_ENDIANNESS, wire_value,
};
use vstd::utf8::is_ascii_chars;
use crate::stream_id::{StreamDirection, StreamId, StreamType};
use crate::submessage::{SubMessageHeader, SUBHEADER_SIZE};
use crate::time::{Clock, remaining_budget};
use crate::types::{
    properties_written, CLIENT_Representation, CREATE_CLIENT_Payload, Property,
};
use crate::{Error, Result, MAX_SESSION_CONNECTION_ATTEMPTS, MIN_SESSION_CONNECTION_INTERVAL};

verus! {

/// Bytes that the property of the shared-memory profile adds to `CREATE_CLIENT`.
pub const PROFILE_SHARED_MEMORY_ADD_SIZE: usize = 21;

/// Bytes that the property of the hard liveliness check adds to `CREATE_CLIENT`.
pub const HARD_LIVELINESS_CHECK_ADD_SIZE: usize = 26;

/// Bytes of a message header without a client key.
pub const MIN_HEADER_SIZE: usize = 4;

/// Bytes of a message header with a client key.
pub const MAX_HEADER_SIZE: usize = 8;

/// Bytes that the sub-message header of `CREATE_CLIENT` reports as payload.
pub const CREATE_CLIENT_PAYLOAD_SIZE: usize = 16;

/// Bytes of the longest message that opens a session.
pub const CREATE_SESSION_MAX_MSG_SIZE: usize = 75;

/// The id of a session that was not given another.
pub const DEFAULT_SESSION_ID: u8 = 0x81;

/// The largest message, in bytes, that a session promises to send or take.
pub const DEFAULT_MTU: u16 = 256;

/// The protocol version that the client speaks.
pub const XRCE_VERSION: [u8; 2] = [0x01, 0x00];

/// The vendor of the client.
pub const XRCE_VENDOR_ID: [u8; 2] = [0x01, 0x0F];

/// A status byte from this value on reports a failure.
pub const STATUS_ERROR_THRESHOLD: u8 = 0x80;

/// How often a session looks for the reply to one `CREATE_CLIENT` message
/// before it sends the next, however much of the interval is left.
pub const LISTEN_LIMIT: u32 = u32::MAX;

/// What the agent answered to `CREATE_CLIENT`.
#[derive(Debug, Clone, Copy, PartialEq, Eq, Structural)]
pub enum Reply {
    /// The session is open.
    Accepted,
    /// The agent refused.
    Denied,
    /// The agent speaks another version of the protocol or is of another vendor.
    Incompatible,
}

/// What a message held, sub-message by sub-message.
#[derive(Debug, Clone, Copy, PartialEq, Eq, Structural)]
pub struct Summary {
    /// The last answer to `CREATE_CLIENT` among the sub-messages, if there was one.
    pub reply: Option<Reply>,
    /// `Data` and `WriteData` sub-messages, which go to the reader of the stream.
    pub data: usize,
    /// `HeartBeat` and `AckNack` sub-messages, which belong to the reliable streams.
    pub reliable: usize,
    /// `Fragment` sub-messages.
    pub fragments: usize,
    /// Sub-messages of the other kinds, which are skipped.
    pub skipped: usize,
}

/// By what an agent knows a session.
#[derive(Debug, Clone, Copy, PartialEq, Eq)]
pub struct SessionInfo {
    pub id: u8,
    pub key: ClientKey,
}

/// A sub-message inside a message: its header and where its payload lies.
#[derive(Debug, Clone, Copy, PartialEq, Eq, Structural)]
pub struct SubMessage {
    pub header: SubMessageHeader,
    /// Index of the first byte of the payload.
    pub start: usize,
    /// Index after the last byte of the payload, where the next sub-message starts.
    pub end: usize,
}

/// The answer that the payload of a `STATUS_AGENT` sub-message gives: a
/// result of two bytes, status first, then the agent's cookie, version and
/// vendor id. There is none if the payload is shorter than these ten bytes.
pub open spec fn agent_reply(payload: Seq<u8>) -> Option<Reply> {
    if payload.len() < 10 {
        None
    } else if payload[0] >= STATUS_ERROR_THRESHOLD {
        Some(Reply::Denied)
    } else if payload[6] != XRCE_VERSION@[0] || payload[7] != XRCE_VERSION@[1] || payload[8]
        != XRCE_VENDOR_ID@[0] || payload[9] != XRCE_VENDOR_ID@[1] {
        Some(Reply::Incompatible)
    } else {
        Some(Reply::Accepted)
    }
}

/// The answer that the payload of a `STATUS` sub-message gives: the request
/// and the object it is about, two bytes each, then a result of two bytes,
/// status first. There is none if the payload is shorter than these six bytes.
pub open spec fn status_reply(payload: Seq<u8>) -> Option<Reply> {
    if payload.len() < 6 {
        None
    } else if payload[4] >= STATUS_ERROR_THRESHOLD {
        Some(Reply::Denied)
    } else {
        Some(Reply::Accepted)
    }
}

/// The sub-message that starts at `pos` in `buf`, if there is a whole one:
/// four bytes that stand for a header, and as many bytes of payload as the
/// header says. It is given as its header and the index after its payload,
/// where the next sub-message starts; the payload starts after the four
/// bytes of the header.
pub open spec fn submessage_at(buf: Seq<u8>, pos: int) -> Option<(SubMessageHeader, int)> {
    if pos < 0 || pos + SUBHEADER_SIZE > buf.len() {
        None
    } else {
        match SubMessageHeader::of_fields(
            buf[pos],
            buf[pos + 1],
            wire_value(NATIVE_ENDIANNESS, buf.subrange(pos + 2, pos + 4)) as u16,
        ) {
            Ok(header) => if pos + SUBHEADER_SIZE + header.length() <= buf.len() {
                Some((header, pos + SUBHEADER_SIZE + header.length()))
            } else {
                None
            },
            Err(_) => None,
        }
    }
}

/// `summary` with one more sub-message counted, whose header is `header`
/// and whose payload is `payload`. A status that is too short to hold an
/// answer makes the message invalid.
pub open spec fn counted(summary: Summary, header: SubMessageHeader, payload: Seq<u8>) -> Option<
    Summary,
> {
    match header {
        SubMessageHeader::StatusAgent(_) => match agent_reply(payload) {
            Some(reply) => Some(Summary { reply: Some(reply), ..summary }),
            None => None,
        },
        SubMessageHeader::Status(_) => match status_reply(payload) {
            Some(reply) => Some(Summary { reply: Some(reply), ..summary }),
            None => None,
        },
        SubMessageHeader::Data(_, _) => Some(
            Summary { data: (summary.data + 1) as usize, ..summary },
        ),
        SubMessageHeader::WriteData(_, _) => Some(
            Summary { data: (summary.data + 1) as usize, ..summary },
        ),
        SubMessageHeader::HeartBeat(_) => Some(
            Summary { reliable: (summary.reliable + 1) as usize, ..summary },
        ),
        SubMessageHeader::AckNack(_) => Some(
            Summary { reliable: (summary.reliable + 1) as usize, ..summary },
        ),
        SubMessageHeader::Fragment(_, _) => Some(
            Summary { fragments: (summary.fragments + 1) as usize, ..summary },
        ),
        _ => Some(Summary { skipped: (summary.skipped + 1) as usize, ..summary }),
    }
}

/// What the sub-messages of `buf` from `pos` on add to `summary`, or
/// nothing if one of them is cut short or stands for no sub-message.
pub open spec fn summed(buf: Seq<u8>, pos: int, summary: Summary) -> Option<Summary>
    decreases buf.len() - pos,
{
    if pos >= buf.len() {
        Some(summary)
    } else {
        match submessage_at(buf, pos) {
            None => None,
            Some((header, end)) => match counted(
                summary,
                header,
                buf.subrange(pos + SUBHEADER_SIZE, end),
            ) {
                None => None,
                Some(next) => summed(buf, end, next),
            },
        }
    }
}

/// A summary of nothing.
pub open spec fn nothing() -> Summary {
    Summary { reply: None, data: 0, reliable: 0, fragments: 0, skipped: 0 }
}

/// What a whole message holds for the session, or nothing if it is not a
/// valid message for the session: its header is cut short, it is meant for
/// another, or one of its sub-messages is invalid.
pub open spec fn message_summary(buf: Seq<u8>, info: SessionInfo) -> Option<Summary> {
    let start = CdrStream::start(buf, NATIVE_ENDIANNESS);
    if !MessageHeader::after_read(start).ok() {
        None
    } else if buf[0] != info.id {
        None
    } else if info.id < SESSION_ID_WITHOUT_CLIENT_KEY && buf.subrange(4, 8) != info.key@ {
        None
    } else {
        summed(
            buf,
            if buf[0] < SESSION_ID_WITHOUT_CLIENT_KEY {
                MAX_HEADER_SIZE as int
            } else {
                MIN_HEADER_SIZE as int
            },
            nothing(),
        )
    }
}

/// The result of a handshake that has used up its attempts, by the last
/// answer of the agent.
pub open spec fn handshake_outcome(reply: Option<Reply>) -> Result<()> {
    match reply {
        Some(Reply::Accepted) => Ok(()),
        Some(Reply::Denied) => Err(Error::Denied),
        Some(Reply::Incompatible) => Err(Error::Incompatible),
        None => Err(Error::Timeout),
    }
}

/// The result of a handshake that has used up its attempts, by the last
/// answer of the agent: success if it accepted, `Denied` if it refused,
/// `Incompatible` if it speaks another version or is of another vendor,
/// `Timeout` if it never answered.
pub fn handshake_result(reply: Option<Reply>) -> (r: Result<()>)
    ensures
        r == handshake_outcome(reply),
{
    match reply {
        Some(Reply::Accepted) => Ok(()),
        Some(Reply::Denied) => Err(Error::Denied),
        Some(Reply::Incompatible) => Err(Error::Incompatible),
        None => Err(Error::Timeout),
    }
}

/// The answer in the payload of a `STATUS_AGENT` sub-message.
pub fn read_agent_reply(payload: &[u8]) -> (r: Option<Reply>)
    ensures
        r == agent_reply(payload@),
{
    if payload.len() < 10 {
        None
    } else if payload[0] >= STATUS_ERROR_THRESHOLD {
        Some(Reply::Denied)
    } else if payload[6] != XRCE_VERSION[0] || payload[7] != XRCE_VERSION[1] || payload[8]
        != XRCE_VENDOR_ID[0] || payload[9] != XRCE_VENDOR_ID[1] {
        Some(Reply::Incompatible)
    } else {
        Some(Reply::Accepted)
    }
}

/// The answer in the payload of a `STATUS` sub-message.
pub fn read_status_reply(payload: &[u8]) -> (r: Option<Reply>)
    ensures
        r == status_reply(payload@),
{
    if payload.len() < 6 {
        None
    } else if payload[4] >= STATUS_ERROR_THRESHOLD {
        Some(Reply::Denied)
    } else {
        Some(Reply::Accepted)
    }
}

/// The sub-message that starts at `pos` in `buf`. It is invalid if its
/// header or its payload is cut short, or if the header stands for no
/// sub-message.
pub fn next_submessage(buf: &[u8], pos: usize) -> (r: Result<SubMessage>)
    requires
        pos <= buf@.len(),
    ensures
        match r {
            Ok(sub) => {
                &&& submessage_at(buf@, pos as int) == Some((sub.header, sub.end as int))
                &&& sub.start == pos + SUBHEADER_SIZE
                &&& sub.start <= sub.end <= buf@.len()
            },
            Err(e) => e == Error::InvalidData && submessage_at(buf@, pos as int) is None,
        },
{
    let rest = slice_subrange(buf, pos, buf.len());
    proof {
        if rest@.len() >= 4 {
            assert(rest@.subrange(2, 4) =~= buf@.subrange(pos + 2, pos + 4));
        }
    }
    let header = match SubMessageHeader::from_slice(rest) {
        Ok(header) => header,
        Err(_) => {
            return Err(Error::InvalidData);
        },
    };
    let (_, _, length) = header.fields(NATIVE_ENDIANNESS);
    let start = pos + SUBHEADER_SIZE;
    if length as usize > buf.len() - start {
        return Err(Error::InvalidData);
    }
    Ok(SubMessage { header, start, end: start + length as usize })
}

/// Hands a sub-message of a stream to the reader of the stream, and says
/// whether the reader takes it. The readers of all three classes of
/// streams take every sub-message as it comes.
pub fn read_stream(buf: &[u8], stream_id: StreamId, seq_num: u16) -> (taken: bool)
    requires
        stream_id.type_u != StreamType::SharedMemoryStream,
    ensures
        taken,
{
    match stream_id.type_u {
        StreamType::NoneStream => true,
        StreamType::BestEffortStream => true,
        StreamType::ReliableStream => true,
        StreamType::SharedMemoryStream => true,
    }
}

/// Goes through the sub-messages of `buf`, which belong to the stream
/// `stream_id` and to the message numbered `seq_num`, and says what it
/// held: the last answer to `CREATE_CLIENT`, and how many sub-messages of
/// data, of the reliable streams, of fragments and of other kinds.
pub fn read_submessage_list(buf: &[u8], from: usize, stream_id: StreamId, seq_num: u16) -> (r:
    Result<Summary>)
    requires
        from <= buf@.len(),
        stream_id.type_u != StreamType::SharedMemoryStream,
    ensures
        match r {
            Ok(summary) => summed(buf@, from as int, nothing()) == Some(summary),
            Err(e) => e == Error::InvalidData && summed(buf@, from as int, nothing()) is None,
        },
{
    let mut pos = from;
    let mut summary = Summary { reply: None, data: 0, reliable: 0, fragments: 0, skipped: 0 };
    let ghost goal = summed(buf@, from as int, nothing());
    while pos < buf.len()
        invariant
            pos <= buf@.len(),
            stream_id.type_u != StreamType::SharedMemoryStream,
            goal == summed(buf@, from as int, nothing()),
            goal == summed(buf@, pos as int, summary),
            summary.data + summary.reliable + summary.fragments + summary.skipped <= pos,
        decreases buf@.len() - pos,
    {
        let sub = match next_submessage(buf, pos) {
            Ok(sub) => sub,
            Err(e) => {
                return Err(e);
            },
        };
        let payload = slice_subrange(buf, sub.start, sub.end);
        match sub.header {
            SubMessageHeader::StatusAgent(_) => {
                match read_agent_reply(payload) {
                    Some(reply) => {
                        summary.reply = Some(reply);
                    },
                    None => {
                        return Err(Error::InvalidData);
                    },
                }
            },
            SubMessageHeader::Status(_) => {
                match read_status_reply(payload) {
                    Some(reply) => {
                        summary.reply = Some(reply);
                    },
                    None => {
                        return Err(Error::InvalidData);
                    },
                }
            },
            SubMessageHeader::Data(_, _) => {
                let _ = read_stream(payload, stream_id, seq_num);
                summary.data = summary.data + 1;
            },
            SubMessageHeader::WriteData(_, _) => {
                let _ = read_stream(payload, stream_id, seq_num);
                summary.data = summary.data + 1;
            },
            SubMessageHeader::HeartBeat(_) => {
                summary.reliable = summary.reliable + 1;
            },
            SubMessageHeader::AckNack(_) => {
                summary.reliable = summary.reliable + 1;
            },
            SubMessageHeader::Fragment(_, _) => {
                summary.fragments = summary.fragments + 1;
            },
            _ => {
                summary.skipped = summary.skipped + 1;
            },
        }
        pos = sub.end;
    }
    Ok(summary)
}

/// Reads a message for the session `info`: checks that it is meant for
/// the session and goes through its sub-messages. Anything amiss makes
/// the message `InvalidData`.
pub fn read_message(info: &SessionInfo, buf: &[u8]) -> (r: Result<Summary>)
    ensures
        match r {
            Ok(summary) => message_summary(buf@, *info) == Some(summary),
            Err(e) => e == Error::InvalidData && message_summary(buf@, *info) is None,
        },
{
    let header = match MessageHeader::from_slice(buf) {
        Ok(header) => header,
        Err(_) => {
            return Err(Error::InvalidData);
        },
    };
    proof {
        header.lemma_encoding_bytes(buf@);
    }
    if header.session_id != info.id {
        return Err(Error::InvalidData);
    }
    let offset = match header.key {
        Some(key) => {
            if info.id < SESSION_ID_WITHOUT_CLIENT_KEY && !(key[0] == info.key[0] && key[1]
                == info.key[1] && key[2] == info.key[2] && key[3] == info.key[3]) {
                return Err(Error::InvalidData);
            }
            proof {
                assert(key@ =~= info.key@);
            }
            MAX_HEADER_SIZE
        },
        None => MIN_HEADER_SIZE,
    };
    let stream = StreamId::from_raw(header.stream_id, StreamDirection::InputStream);
    read_submessage_list(buf, offset, stream, header.sequence_num)
}

/// What passed between a session and its transport.
pub enum Event {
    /// The session handed `message` to the transport to send. `failed` says
    /// that the transport answered with an error other than `PartWritten`.
    Sent { message: Seq<u8>, failed: bool },
    /// The session listened for a message for up to `budget` milliseconds,
    /// with this outcome.
    Heard { budget: i32, outcome: Result<Summary> },
}

/// The number of messages handed to the transport among `events`.
pub open spec fn sent_count(events: Seq<Event>) -> nat
    decreases events.len(),
{
    if events.len() == 0 {
        0
    } else {
        sent_count(events.drop_last()) + if events.last() is Sent { 1nat } else { 0nat }
    }
}

/// The number of times the session listened among `events`.
pub open spec fn heard_count(events: Seq<Event>) -> nat
    decreases events.len(),
{
    if events.len() == 0 {
        0
    } else {
        heard_count(events.drop_last()) + if events.last() is Heard { 1nat } else { 0nat }
    }
}

/// Every message handed to the transport among `events` was `message`,
/// and the transport failed on none of them.
pub open spec fn only_sent(events: Seq<Event>, message: Seq<u8>) -> bool {
    forall|i: int|
        0 <= i < events.len() ==> ((#[trigger] events[i]) matches Event::Sent {
            message: m,
            failed,
        } ==> m == message && !failed)
}

/// After each message handed to the transport among `events`, but the
/// last event, the session listened, for up to
/// `MIN_SESSION_CONNECTION_INTERVAL` milliseconds; and whenever it
/// listened, it had time left to listen.
pub open spec fn listened_after_each(events: Seq<Event>) -> bool {
    &&& forall|i: int|
        0 <= i < events.len() - 1 && (#[trigger] events[i]) is Sent ==> (events[i
            + 1] matches Event::Heard { budget, .. } && budget == MIN_SESSION_CONNECTION_INTERVAL)
    &&& forall|i: int|
        0 <= i < events.len() ==> ((#[trigger] events[i]) matches Event::Heard { budget, .. }
            ==> budget > 0)
}

/// The last answer of the agent after the session heard `heard`, where
/// `reply` was the last answer before: the answer in the message that was
/// heard, if it held one.
pub open spec fn reply_with(reply: Option<Reply>, heard: Result<Summary>) -> Option<Reply> {
    match heard {
        Ok(summary) => match summary.reply {
            Some(answer) => Some(answer),
            None => reply,
        },
        Err(_) => reply,
    }
}

/// The last answer of the agent after `events`, where `reply` was the last
/// answer before them.
pub open spec fn reply_after(reply: Option<Reply>, events: Seq<Event>) -> Option<Reply>
    decreases events.len(),
{
    if events.len() == 0 {
        reply
    } else {
        match events.last() {
            Event::Heard { outcome, .. } => reply_with(
                reply_after(reply, events.drop_last()),
                outcome,
            ),
            Event::Sent { .. } => reply_after(reply, events.drop_last()),
        }
    }
}

/// The session listened and the link failed.
pub open spec fn heard_failure(e: Event) -> bool {
    e matches Event::Heard { outcome: Err(Error::IoError), .. }
}

/// A short string of ASCII characters is written whole where there is
/// room for its length, its bytes and its terminator.
proof fn lemma_text_written(s: CdrStream, text: Seq<char>)
    requires
        s.ok(),
        is_ascii_chars(text),
        text.len() < 0x1_0000,
        align_up(s.offset, 4) + 5 + text.len() <= s.bytes.len(),
    ensures
        s.put_string(text).ok(),
        s.put_string(text).offset == align_up(s.offset, 4) + 5 + text.len(),
        s.put_string(text).bytes.len() == s.bytes.len(),
        s.put_string(text).order == s.order,
{
    vstd::utf8::is_ascii_chars_encode_utf8(text);
    lemma_fits_width(text.len() + 1);
    lemma_wire_roundtrip(s.order, text.len() + 1, 4);
}

/// What one more event adds to the counts and to the last answer.
pub proof fn lemma_event_pushed(reply: Option<Reply>, events: Seq<Event>, e: Event)
    ensures
        sent_count(events.push(e)) == sent_count(events) + if e is Sent { 1nat } else { 0nat },
        heard_count(events.push(e)) == heard_count(events) + if e is Heard { 1nat } else { 0nat },
        reply_after(reply, events.push(e)) == match e {
            Event::Heard { outcome, .. } => reply_with(reply_after(reply, events), outcome),
            Event::Sent { .. } => reply_after(reply, events),
        },
{
    assert(events.push(e).drop_last() =~= events);
}

/// Where the agent was never heard to answer, the last answer stays what it was.
pub proof fn lemma_no_answer(reply: Option<Reply>, events: Seq<Event>)
    requires
        forall|i: int|
            0 <= i < events.len() ==> ((#[trigger] events[i]) matches Event::Heard {
                outcome: Ok(summary),
                ..
            } ==> summary.reply is None),
    ensures
        reply_after(reply, events) == reply,
    decreases events.len(),
{
    if events.len() > 0 {
        lemma_no_answer(reply, events.drop_last());
    }
}

/// What listening brought, without the message itself.
pub open spec fn heard_of(r: Result<(Summary, &[u8])>) -> Result<Summary> {
    match r {
        Ok((summary, _)) => Ok(summary),
        Err(e) => Err(e),
    }
}

/// A handshake without attempts, where the transport does not fail, sends
/// the message once, listens for nothing and succeeds.
pub proof fn lemma_sent_once(
    events: Seq<Event>,
    reply: Option<Reply>,
    r: Result<()>,
    message: Seq<u8>,
)
    requires
        handshake_done(events, reply, r, message, 0),
        forall|i: int|
            0 <= i < events.len() ==> ((#[trigger] events[i]) matches Event::Sent {
                failed,
                ..
            } ==> !failed),
    ensures
        events == seq![Event::Sent { message, failed: false }],
        r == Ok::<(), Error>(()),
        reply is None,
{
    assert(events =~= seq![events[0]]);
    assert(events.drop_last() =~= Seq::<Event>::empty());
    reveal_with_fuel(reply_after, 2);
}

/// A handshake with attempts, where the transport does not fail to send
/// and each listening ends in `Timeout`, sends the message once for each
/// attempt, listens after each, and ends in `Timeout`.
pub proof fn lemma_never_answered(
    events: Seq<Event>,
    reply: Option<Reply>,
    r: Result<()>,
    message: Seq<u8>,
    attempts: usize,
)
    requires
        attempts > 0,
        handshake_done(events, reply, r, message, attempts),
        forall|i: int|
            0 <= i < events.len() ==> (match #[trigger] events[i] {
                Event::Sent { failed, .. } => !failed,
                Event::Heard { outcome, .. } => outcome == Err::<Summary, Error>(Error::Timeout),
            }),
    ensures
        r == Err::<(), Error>(Error::Timeout),
        sent_count(events) == attempts,
        only_sent(events, message),
        listened_after_each(events),
        events.last() is Heard,
{
    lemma_no_answer(None, events);
}

/// The transport failed to send: it answered with an error other than `PartWritten`.
pub open spec fn send_failed<S>(answer: Result<S>) -> bool {
    answer matches Err(e) && !(e is PartWritten)
}

/// Whether the transport failed to send. A message that the transport
/// took only part of counts as sent.
pub fn after_send<S>(answer: &Result<S>) -> (failed: bool)
    ensures
        failed == send_failed(*answer),
{
    match answer {
        Ok(_) => false,
        Err(Error::PartWritten(_)) => false,
        Err(_) => true,
    }
}

/// What a handshake does after it listened.
#[derive(Debug, Clone, Copy, PartialEq, Eq)]
pub enum ListenNext {
    /// It ends with this result.
    Stop(Result<()>),
    /// It goes on listening, if its time allows, and sends again if not.
    GoOn,
}

/// What follows when the session heard `heard` and the last answer of the
/// agent is then `reply`: a failure of the link ends the handshake, and so
/// does an agent that accepted; anything else lets it go on.
pub open spec fn listen_next(reply: Option<Reply>, heard: Result<Summary>) -> ListenNext {
    if heard == Err::<Summary, Error>(Error::IoError) {
        ListenNext::Stop(Err(Error::IoError))
    } else if reply == Some(Reply::Accepted) {
        ListenNext::Stop(Ok(()))
    } else {
        ListenNext::GoOn
    }
}

/// What a handshake does after the session heard `heard` and the last
/// answer of the agent is then `reply`.
pub fn after_listen(reply: Option<Reply>, heard: Result<Summary>) -> (next: ListenNext)
    ensures
        next == listen_next(reply, heard),
{
    match heard {
        Err(Error::IoError) => ListenNext::Stop(Err(Error::IoError)),
        _ => match reply {
            Some(Reply::Accepted) => ListenNext::Stop(Ok(())),
            _ => ListenNext::GoOn,
        },
    }
}

/// A handshake listens on for the answer to the message it sent: time is
/// left of the interval and it has listened fewer than `LISTEN_LIMIT` times.
pub open spec fn listens_on(remaining_time: i32, looks: u32) -> bool {
    remaining_time > 0 && looks < LISTEN_LIMIT
}

/// Whether a handshake listens on for the answer to the message it sent.
pub fn listen_on(remaining_time: i32, looks: u32) -> (on: bool)
    ensures
        on == listens_on(remaining_time, looks),
{
    remaining_time > 0 && looks < LISTEN_LIMIT
}

/// What a handshake that sent `message` up to `attempts` times has done,
/// where `events` is what passed between the session and its transport
/// meanwhile, `reply` the last answer of the agent after it, and `r` the
/// result.
///
/// Every message sent was `message`. With no attempts the message is sent
/// once and nothing is listened for; the result is `Ok` unless the
/// transport failed. Else the handshake ends with `Ok` as soon as the
/// agent is heard to accept, with `IoError` as soon as the transport fails
/// to send or to listen, and otherwise after `attempts` sends, each
/// followed by listening, with what `handshake_outcome` makes of the last
/// answer.
pub open spec fn handshake_done(
    events: Seq<Event>,
    reply: Option<Reply>,
    r: Result<()>,
    message: Seq<u8>,
    attempts: usize,
) -> bool {
    &&& reply == reply_after(None, events)
    &&& events.len() > 0
    &&& only_sent(events.drop_last(), message)
    &&& listened_after_each(events)
    &&& forall|i: int|
        0 <= i < events.len() - 1 ==> !heard_failure(#[trigger] events[i])
    &&& if attempts == 0 {
        &&& events.len() == 1
        &&& events[0] matches Event::Sent { message: m, failed } && m == message && r == if failed {
            Err::<(), Error>(Error::IoError)
        } else {
            Ok::<(), Error>(())
        }
    } else {
        match r {
            Ok(()) => {
                &&& reply == Some(Reply::Accepted)
                &&& events.last() is Heard
                &&& 1 <= sent_count(events) <= attempts
            },
            Err(Error::IoError) => {
                &&& sent_count(events) <= attempts
                &&& events.last() == (Event::Sent { message, failed: true }) || heard_failure(
                    events.last(),
                )
            },
            Err(e) => {
                &&& r == handshake_outcome(reply)
                &&& reply != Some(Reply::Accepted)
                &&& only_sent(events, message)
                &&& events.last() is Heard
                &&& sent_count(events) == attempts
                &&& heard_count(events) >= attempts
            },
        }
    }
}

/// A session of a client with an agent, over a transport that it owns.
///
/// The session keeps a record of what passes between it and its transport
/// for its contracts to speak of: the messages it hands over to be sent,
/// and what each listening brings.
pub struct Session<T: Transmitter + Receiver + Clock> {
    transport: T,
    info: SessionInfo,
    mtu: u16,
    shared_memory: bool,
    hard_liveliness: bool,
    reply: Option<Reply>,
    events: Ghost<Seq<Event>>,
}

impl<T: Transmitter + Receiver + Clock> Session<T> {
    /// The transport that the session owns.
    pub closed spec fn transport(&self) -> T {
        self.transport
    }

    /// What has passed between the session and its transport, in order.
    pub closed spec fn events(&self) -> Seq<Event> {
        self.events@
    }

    /// What has passed between the session and its transport since `before`.
    pub open spec fn events_since(&self, before: &Self) -> Seq<Event> {
        self.events().skip(before.events().len() as int)
    }

    /// This session is set up as `before` was.
    pub open spec fn set_up_as(&self, before: &Self) -> bool {
        &&& self.info() == before.info()
        &&& self.mtu() == before.mtu()
        &&& self.shared_memory() == before.shared_memory()
        &&& self.hard_liveliness() == before.hard_liveliness()
    }

    /// The record of this session is that of `before` and what came after,
    /// and it is set up as `before` was.
    pub open spec fn went_on(&self, before: &Self) -> bool {
        &&& before.events().len() <= self.events().len()
        &&& self.events().take(before.events().len() as int) == before.events()
        &&& self.set_up_as(before)
    }

    /// By what the agent knows the session.
    pub closed spec fn info(&self) -> SessionInfo {
        self.info
    }

    /// The largest message, in bytes, that the session promises to send or take.
    pub closed spec fn mtu(&self) -> u16 {
        self.mtu
    }

    /// The last answer of the agent to `CREATE_CLIENT`, if it gave one.
    pub closed spec fn reply(&self) -> Option<Reply> {
        self.reply
    }

    /// The client asks for the shared-memory profile.
    pub closed spec fn shared_memory(&self) -> bool {
        self.shared_memory
    }

    /// The client asks for the hard liveliness check.
    pub closed spec fn hard_liveliness(&self) -> bool {
        self.hard_liveliness
    }

    /// A session with the default id and MTU, for the client with the given
    /// key. Nothing is sent.
    pub fn new(key: ClientKey, transport: T) -> (session: Self)
        ensures
            session.info().id == DEFAULT_SESSION_ID,
            session.info().key == key,
            session.mtu() == DEFAULT_MTU,
            session.reply() is None,
            !session.shared_memory(),
            !session.hard_liveliness(),
            session.transport() == transport,
            session.events() == Seq::<Event>::empty(),
    {
        Session {
            events: Ghost(Seq::empty()),
            transport,
            info: SessionInfo { id: DEFAULT_SESSION_ID, key },
            mtu: DEFAULT_MTU,
            shared_memory: false,
            hard_liveliness: false,
            reply: None,
        }
    }

    /// Chooses the profiles that the client asks the agent for when it
    /// opens the session: the shared-memory profile adds the property
    /// `uxr_sm` with value `1`, the hard liveliness check the property
    /// `uxr_hl` with value `999999`.
    pub fn set_profile(&mut self, shared_memory: bool, hard_liveliness: bool)
        ensures
            final(self).shared_memory() == shared_memory,
            final(self).hard_liveliness() == hard_liveliness,
            final(self).events() == old(self).events(),
            final(self).info() == old(self).info(),
            final(self).mtu() == old(self).mtu(),
            final(self).reply() == old(self).reply(),
    {
        self.shared_memory = shared_memory;
        self.hard_liveliness = hard_liveliness;
    }

    /// The last answer of the agent to `CREATE_CLIENT`, if it gave one.
    pub fn last_reply(&self) -> (reply: Option<Reply>)
        ensures
            reply == self.reply(),
    {
        self.reply
    }

    /// The stream `s` after the `CREATE_CLIENT` sub-message of this session
    /// is written to it, with the given MTU and the properties of the
    /// profiles that were chosen.
    pub open spec fn create_client_written(&self, mtu: u16, s: CdrStream) -> CdrStream {
        let info = self.info();
        if self.shared_memory() && self.hard_liveliness() {
            CREATE_CLIENT_Payload::<2>(
                CLIENT_Representation {
                    xrce_cookie: [0x58, 0x52, 0x43, 0x45],
                    xrce_version: XRCE_VERSION,
                    xrce_vendor_id: XRCE_VENDOR_ID,
                    client_key: info.key,
                    session_id: info.id,
                    properties: Some(
                        [
                            Property { name: "uxr_sm", value: "1" },
                            Property { name: "uxr_hl", value: "999999" },
                        ],
                    ),
                    mtu,
                },
            ).written(s)
        } else if self.shared_memory() {
            CREATE_CLIENT_Payload::<1>(
                CLIENT_Representation {
                    xrce_cookie: [0x58, 0x52, 0x43, 0x45],
                    xrce_version: XRCE_VERSION,
                    xrce_vendor_id: XRCE_VENDOR_ID,
                    client_key: info.key,
                    session_id: info.id,
                    properties: Some([Property { name: "uxr_sm", value: "1" }]),
                    mtu,
                },
            ).written(s)
        } else if self.hard_liveliness() {
            CREATE_CLIENT_Payload::<1>(
                CLIENT_Representation {
                    xrce_cookie: [0x58, 0x52, 0x43, 0x45],
                    xrce_version: XRCE_VERSION,
                    xrce_vendor_id: XRCE_VENDOR_ID,
                    client_key: info.key,
                    session_id: info.id,
                    properties: Some([Property { name: "uxr_hl", value: "999999" }]),
                    mtu,
                },
            ).written(s)
        } else {
            CREATE_CLIENT_Payload::<1>(
                CLIENT_Representation {
                    xrce_cookie: [0x58, 0x52, 0x43, 0x45],
                    xrce_version: XRCE_VERSION,
                    xrce_vendor_id: XRCE_VENDOR_ID,
                    client_key: info.key,
                    session_id: info.id,
                    properties: None,
                    mtu,
                },
            ).written(s)
        }
    }

    /// Writes the `CREATE_CLIENT` sub-message of this session at the start
    /// of `buf`: the sub-message header, the cookie `XRCE`, the version and
    /// vendor of the client, the key and id of the session, the properties
    /// of the profiles that were chosen, and the given MTU. Returns the
    /// number of bytes written.
    pub fn buffer_create_session(&self, mtu: u16, buf: &mut [u8]) -> (r: crate::error::Result<
        usize,
    >)
        ensures
            final(buf)@.len() == old(buf)@.len(),
            final(buf)@ == self.create_client_written(
                mtu,
                CdrStream::start(old(buf)@, NATIVE_ENDIANNESS),
            ).bytes,
            match r {
                Ok(n) => {
                    &&& self.create_client_written(
                        mtu,
                        CdrStream::start(old(buf)@, NATIVE_ENDIANNESS),
                    ).ok()
                    &&& n == self.create_client_written(
                        mtu,
                        CdrStream::start(old(buf)@, NATIVE_ENDIANNESS),
                    ).offset
                },
                Err(e) => self.create_client_written(
                    mtu,
                    CdrStream::start(old(buf)@, NATIVE_ENDIANNESS),
                ).fault == Some(e),
            },
            !self.shared_memory() && !self.hard_liveliness() && old(buf)@.len() >= 20 ==> r
                == Ok::<usize, crate::error::Error>(20),
    {
        let xrce_cookie = [0x58u8, 0x52u8, 0x43u8, 0x45u8];
        if self.shared_memory && self.hard_liveliness {
            let payload: CREATE_CLIENT_Payload<'static, 2> = CREATE_CLIENT_Payload(
                CLIENT_Representation {
                    xrce_cookie,
                    xrce_version: XRCE_VERSION,
                    xrce_vendor_id: XRCE_VENDOR_ID,
                    client_key: self.info.key,
                    session_id: self.info.id,
                    properties: Some(
                        [
                            Property { name: "uxr_sm", value: "1" },
                            Property { name: "uxr_hl", value: "999999" },
                        ],
                    ),
                    mtu,
                },
            );
            payload.to_slice(buf)
        } else if self.shared_memory {
            let payload: CREATE_CLIENT_Payload<'static, 1> = CREATE_CLIENT_Payload(
                CLIENT_Representation {
                    xrce_cookie,
                    xrce_version: XRCE_VERSION,
                    xrce_vendor_id: XRCE_VENDOR_ID,
                    client_key: self.info.key,
                    session_id: self.info.id,
                    properties: Some([Property { name: "uxr_sm", value: "1" }]),
                    mtu,
                },
            );
            payload.to_slice(buf)
        } else if self.hard_liveliness {
            let payload: CREATE_CLIENT_Payload<'static, 1> = CREATE_CLIENT_Payload(
                CLIENT_Representation {
                    xrce_cookie,
                    xrce_version: XRCE_VERSION,
                    xrce_vendor_id: XRCE_VENDOR_ID,
                    client_key: self.info.key,
                    session_id: self.info.id,
                    properties: Some([Property { name: "uxr_hl", value: "999999" }]),
                    mtu,
                },
            );
            payload.to_slice(buf)
        } else {
            let payload: CREATE_CLIENT_Payload<'static, 1> = CREATE_CLIENT_Payload(
                CLIENT_Representation {
                    xrce_cookie,
                    xrce_version: XRCE_VERSION,
                    xrce_vendor_id: XRCE_VENDOR_ID,
                    client_key: self.info.key,
                    session_id: self.info.id,
                    properties: None,
                    mtu,
                },
            );
            payload.to_slice(buf)
        }
    }

    /// Waits up to `remaining_time` milliseconds for a message and reads
    /// it. An answer to `CREATE_CLIENT` in it becomes the last answer of
    /// the agent. Returns what the message held, and the message, in which
    /// `next_submessage` finds the sub-messages and their payloads. A
    /// message of no bytes holds nothing.
    pub fn listen_message(&mut self, remaining_time: i32) -> (r: Result<(Summary, &[u8])>)
        ensures
            final(self).went_on(old(self)),
            final(self).events() == old(self).events().push(
                (Event::Heard { budget: remaining_time, outcome: heard_of(r) }),
            ),
            final(self).reply() == reply_with(old(self).reply(), heard_of(r)),
            r matches Ok((summary, message)) ==> if message@.len() == 0 {
                summary == nothing()
            } else {
                message_summary(message@, old(self).info()) == Some(summary)
            },
    {
        let result = match self.transport.receive_msg(remaining_time) {
            Ok(recv) => {
                let read = if recv.len() != 0 {
                    read_message(&self.info, recv)
                } else {
                    Ok(Summary { reply: None, data: 0, reliable: 0, fragments: 0, skipped: 0 })
                };
                match read {
                    Ok(summary) => Ok((summary, recv)),
                    Err(e) => Err(e),
                }
            },
            Err(e) => Err(e),
        };
        if let Ok((summary, _)) = result {
            if let Some(reply) = summary.reply {
                self.reply = Some(reply);
            }
        }
        proof {
            self.events@ = self.events@.push(
                Event::Heard { budget: remaining_time, outcome: heard_of(result) },
            );
            assert(self.events@.take(old(self).events().len() as int) =~= old(self).events());
        }
        result
    }

    /// Hands `buf` to the transport to send and says whether that failed.
    fn send(&mut self, buf: &[u8]) -> (failed: bool)
        requires
            buf@.len() <= MAX_MESSAGE_SIZE,
        ensures
            final(self).went_on(old(self)),
            final(self).events() == old(self).events().push(
                (Event::Sent { message: buf@, failed }),
            ),
            final(self).reply() == old(self).reply(),
    {
        let answer = self.transport.send_msg(buf);
        let failed = after_send(&answer);
        proof {
            self.events@ = self.events@.push(Event::Sent { message: buf@, failed });
            assert(self.events@.take(old(self).events().len() as int) =~= old(self).events());
        }
        failed
    }

    /// Sends `buf` and waits for the agent to accept, up to `attempts`
    /// times, each time for `MIN_SESSION_CONNECTION_INTERVAL` milliseconds.
    /// With no attempts at all, sends `buf` once and does not wait.
    ///
    /// A message that the link took only part of counts as sent. A failure
    /// of the link ends the handshake at once. What follows each answer of
    /// the transport is what `after_send`, `after_listen` and `listen_on`
    /// say.
    pub fn wait_session_status(&mut self, buf: &[u8], attempts: usize) -> (r: Result<()>)
        requires
            buf@.len() <= MAX_MESSAGE_SIZE,
        ensures
            final(self).went_on(old(self)),
            handshake_done(
                final(self).events_since(old(self)),
                final(self).reply(),
                r,
                buf@,
                attempts,
            ),
    {
        self.reply = None;
        let ghost before = self.events@;
        let ghost ev = Seq::<Event>::empty();
        proof {
            assert(before + ev =~= before);
            assert(before.take(before.len() as int) =~= before);
        }
        if attempts == 0 {
            let failed = self.send(buf);
            proof {
                ev = ev.push(Event::Sent { message: buf@, failed });
                lemma_event_pushed(None, Seq::<Event>::empty(), ev[0]);
                assert(self.events@.skip(before.len() as int) =~= ev);
                    assert(self.events@.take(before.len() as int) =~= before);
            }
            return if failed {
                Err(Error::IoError)
            } else {
                Ok(())
            };
        }
        let mut attempt: usize = 0;
        while attempt < attempts
            invariant
                attempt <= attempts,
                attempts > 0,
                buf@.len() <= MAX_MESSAGE_SIZE,
                before == old(self).events(),
                self.set_up_as(old(self)),
                self.events() == before + ev,
                self.reply() == reply_after(None, ev),
                self.reply() != Some(Reply::Accepted),
                only_sent(ev, buf@),
                listened_after_each(ev),
                forall|i: int|
                    0 <= i < ev.len() ==> !heard_failure(#[trigger] ev[i]),
                sent_count(ev) == attempt,
                attempt == 0 ==> ev.len() == 0,
                heard_count(ev) >= attempt,
                attempt > 0 ==> ev.len() > 0 && ev.last() is Heard,
            decreases attempts - attempt,
        {
            let failed = self.send(buf);
            proof {
                let e = Event::Sent { message: buf@, failed };
                lemma_event_pushed(None, ev, e);
                assert(ev.push(e).drop_last() =~= ev);
                assert(before + ev.push(e) =~= (before + ev).push(e));
                ev = ev.push(e);
            }
            if failed {
                proof {
                    assert(self.events@.skip(before.len() as int) =~= ev);
                    assert(self.events@.take(before.len() as int) =~= before);
                }
                return Err(Error::IoError);
            }
            let start_timestamp = self.transport.now();
            let mut remaining_time = MIN_SESSION_CONNECTION_INTERVAL;
            let mut looks: u32 = 0;
            while listen_on(remaining_time, looks)
                invariant
                    attempt < attempts,
                    before == old(self).events(),
                    self.set_up_as(old(self)),
                    self.events() == before + ev,
                    self.reply() == reply_after(None, ev),
                    self.reply() != Some(Reply::Accepted),
                    only_sent(ev, buf@),
                    listened_after_each(ev),
                    forall|i: int|
                        0 <= i < ev.len() ==> !heard_failure(#[trigger] ev[i]),
                    sent_count(ev) == attempt + 1,
                    ev.len() > 0,
                    looks == 0 ==> ev.last() is Sent,
                    heard_count(ev) >= attempt + looks,
                    looks > 0 ==> ev.len() > 0 && ev.last() is Heard,
                    looks > 0 || remaining_time == MIN_SESSION_CONNECTION_INTERVAL,
                decreases LISTEN_LIMIT - looks,
            {
                let heard = match self.listen_message(remaining_time) {
                    Ok((summary, _)) => Ok(summary),
                    Err(e) => Err(e),
                };
                proof {
                    let e = Event::Heard { budget: remaining_time, outcome: heard };
                    lemma_event_pushed(None, ev, e);
                    assert(ev.push(e).drop_last() =~= ev);
                    assert(before + ev.push(e) =~= (before + ev).push(e));
                    ev = ev.push(e);
                }
                match after_listen(self.reply, heard) {
                    ListenNext::Stop(result) => {
                        proof {
                            assert(self.events@.skip(before.len() as int) =~= ev);
                    assert(self.events@.take(before.len() as int) =~= before);
                        }
                        return result;
                    },
                    ListenNext::GoOn => {},
                }
                let now = self.transport.now();
                remaining_time = remaining_budget(
                    MIN_SESSION_CONNECTION_INTERVAL,
                    start_timestamp,
                    now,
                );
                looks = looks + 1;
            }
            attempt = attempt + 1;
        }
        proof {
            assert(self.events@.skip(before.len() as int) =~= ev);
                    assert(self.events@.take(before.len() as int) =~= before);
        }
        handshake_result(self.reply)
    }

    /// The message that opens the session: the header and the
    /// `CREATE_CLIENT` sub-message as `create_message` writes them into a
    /// buffer of zeros.
    pub open spec fn opening_message(&self) -> Seq<u8> {
        self.create_header().encoding(NATIVE_ENDIANNESS) + self.create_body(
            Seq::new(75, |i: int| 0u8),
        ).bytes.take(self.create_body(Seq::new(75, |i: int| 0u8)).offset as int)
    }

    /// The message that opens the session fits the buffer it is made in.
    pub open spec fn opening_fits(&self) -> bool {
        self.create_body(Seq::new(75, |i: int| 0u8)).ok()
    }

    /// The buffer of the opening message behind its header, once the part
    /// of the `CREATE_CLIENT` sub-message that every session writes stands
    /// in it, and a boolean that says whether properties follow.
    pub closed spec fn opening_start(&self, properties: bool) -> CdrStream {
        let s = CdrStream::start(Seq::new(75, |i: int| 0u8).subrange(4, 75), NATIVE_ENDIANNESS);
        let on = self.info();
        SubMessageHeader::CreateClient(CREATE_CLIENT_PAYLOAD_SIZE as u16).written(s).put_u8(
            0x58,
        ).put_u8(0x52).put_u8(0x43).put_u8(0x45).put_u8(XRCE_VERSION@[0]).put_u8(
            XRCE_VERSION@[1],
        ).put_u8(XRCE_VENDOR_ID@[0]).put_u8(XRCE_VENDOR_ID@[1]).put_u8(on.key@[0]).put_u8(
            on.key@[1],
        ).put_u8(on.key@[2]).put_u8(on.key@[3]).put_u8(on.id).put_bool(properties)
    }

    /// The part of the opening message that every session writes takes
    /// eighteen bytes behind the header.
    proof fn lemma_opening_start(&self, properties: bool)
        ensures
            self.opening_start(properties).ok(),
            self.opening_start(properties).offset == 18,
            self.opening_start(properties).bytes.len() == 71,
    {
        lemma_fits_width(CREATE_CLIENT_PAYLOAD_SIZE as nat);
        lemma_wire_roundtrip(NATIVE_ENDIANNESS, CREATE_CLIENT_PAYLOAD_SIZE as nat, 2);
    }

    /// A stream of 71 bytes with the properties of the chosen profiles
    /// written from offset 18 on has room left for the MTU.
    proof fn lemma_profiles_fit(&self, t: CdrStream)
        requires
            t.ok(),
            t.offset == 18,
            t.bytes.len() == 71,
            self.shared_memory() || self.hard_liveliness(),
        ensures
            ({
                let props = if self.shared_memory() && self.hard_liveliness() {
                    seq![
                        Property { name: "uxr_sm", value: "1" },
                        Property { name: "uxr_hl", value: "999999" },
                    ]
                } else if self.shared_memory() {
                    seq![Property { name: "uxr_sm", value: "1" }]
                } else {
                    seq![Property { name: "uxr_hl", value: "999999" }]
                };
                let u = properties_written(props, t);
                u.ok() && u.offset <= 63 && u.bytes.len() == 71
            }),
    {
        reveal_strlit("uxr_sm");
        reveal_strlit("1");
        reveal_strlit("uxr_hl");
        reveal_strlit("999999");
        reveal_with_fuel(properties_written, 3);
        if self.shared_memory() {
            lemma_text_written(t, "uxr_sm"@);
            let u = t.put_string("uxr_sm"@);
            lemma_text_written(u, "1"@);
            let v = u.put_string("1"@);
            if self.hard_liveliness() {
                lemma_text_written(v, "uxr_hl"@);
                let w = v.put_string("uxr_hl"@);
                lemma_text_written(w, "999999"@);
                let props = seq![
                    Property { name: "uxr_sm", value: "1" },
                    Property { name: "uxr_hl", value: "999999" },
                ];
                assert(props.drop_first().drop_first().len() == 0);
            } else {
                let props = seq![Property { name: "uxr_sm", value: "1" }];
                assert(props.drop_first().len() == 0);
            }
        } else {
            lemma_text_written(t, "uxr_hl"@);
            let u = t.put_string("uxr_hl"@);
            lemma_text_written(u, "999999"@);
            let props = seq![Property { name: "uxr_hl", value: "999999" }];
            assert(props.drop_first().len() == 0);
        }
    }

    /// The message that opens the session fits its buffer, whatever the
    /// key and id of the session and whichever profiles were chosen.
    pub proof fn lemma_opening_fits(&self)
        ensures
            self.opening_fits(),
    {
        let some = self.shared_memory() || self.hard_liveliness();
        let t = self.opening_start(some);
        self.lemma_opening_start(some);
        lemma_fits_width(self.announced_mtu() as nat);
        lemma_wire_roundtrip(NATIVE_ENDIANNESS, self.announced_mtu() as nat, 2);
        if some {
            self.lemma_profiles_fit(t);
            let both = [
                Property { name: "uxr_sm", value: "1" },
                Property { name: "uxr_hl", value: "999999" },
            ];
            assert(both@ =~= seq![both[0], both[1]]);
            let shared = [Property { name: "uxr_sm", value: "1" }];
            assert(shared@ =~= seq![shared[0]]);
            let hard = [Property { name: "uxr_hl", value: "999999" }];
            assert(hard@ =~= seq![hard[0]]);
        }
    }

    /// Opens the session: sends the `CREATE_CLIENT` message, which tells
    /// the agent the key and id of the session and an MTU that is the
    /// session's less the size of a pointer, and waits for the agent to
    /// accept, up to `MAX_SESSION_CONNECTION_ATTEMPTS` times.
    ///
    /// The result would be `InvalidData` if the message did not fit the
    /// buffer it is made in. It always fits, so that error never comes.
    pub fn create(&mut self) -> (r: Result<()>)
        ensures
            final(self).went_on(old(self)),
            r != Err::<(), Error>(Error::InvalidData),
            handshake_done(
                final(self).events_since(old(self)),
                final(self).reply(),
                r,
                old(self).opening_message(),
                MAX_SESSION_CONNECTION_ATTEMPTS,
            ),
    {
        let mut create_session_buffer = [0u8; 75];
        proof {
            assert(create_session_buffer@ =~= Seq::new(75, |i: int| 0u8));
            self.lemma_opening_fits();
        }
        let len = match self.create_message(&mut create_session_buffer) {
            Ok(len) => len,
            Err(_) => {
                return Err(Error::InvalidData);
            },
        };
        let message = slice_subrange(
            vstd::array::array_as_slice(&create_session_buffer),
            0,
            len,
        );
        proof {
            let whole = create_session_buffer@;
            assert(message@ =~= whole.subrange(0, 4) + whole.subrange(4, 75).take(len - 4));
        }
        self.wait_session_status(message, MAX_SESSION_CONNECTION_ATTEMPTS)
    }

    /// The header of the message that opens the session: the session's id
    /// with only its highest bit kept, which says that no key follows, on
    /// the stream without ordering, numbered 0.
    pub open spec fn create_header(&self) -> MessageHeader {
        MessageHeader {
            session_id: self.info().id & SESSION_ID_WITHOUT_CLIENT_KEY,
            stream_id: 0,
            sequence_num: 0,
            key: None,
        }
    }

    /// The MTU that the session tells the agent: its own less the size of
    /// a pointer, and nothing if it is smaller than that.
    pub open spec fn announced_mtu(&self) -> u16 {
        if self.mtu() >= usize::BITS / 8 {
            (self.mtu() - usize::BITS / 8) as u16
        } else {
            0
        }
    }

    /// The MTU that the session tells the agent: its own less the size of a pointer.
    pub fn told_mtu(&self) -> (mtu: u16)
        ensures
            mtu == self.announced_mtu(),
    {
        proof {
            broadcast use vstd::layout::layout_of_primitives;
        }
        let pointer = core::mem::size_of::<usize>() as u16;
        if self.mtu >= pointer {
            self.mtu - pointer
        } else {
            0
        }
    }

    /// The `CREATE_CLIENT` sub-message of this session as it is written
    /// behind the message header in a buffer that holds `before`.
    pub open spec fn create_body(&self, before: Seq<u8>) -> CdrStream {
        self.create_client_written(
            self.announced_mtu(),
            CdrStream::start(before.subrange(4, 75), NATIVE_ENDIANNESS),
        )
    }

    /// Writes the message that opens the session at the start of `buf`:
    /// the message header in its first four bytes, then the
    /// `CREATE_CLIENT` sub-message. Returns the length of the message.
    pub fn create_message(&self, buf: &mut [u8; 75]) -> (r: crate::error::Result<usize>)
        ensures
            final(buf)@.subrange(0, 4) == self.create_header().encoding(NATIVE_ENDIANNESS),
            final(buf)@.subrange(4, 75) == self.create_body(old(buf)@).bytes,
            match r {
                Ok(n) => self.create_body(old(buf)@).ok() && n == 4 + self.create_body(
                    old(buf)@,
                ).offset && n <= 75,
                Err(e) => self.create_body(old(buf)@).fault == Some(e),
            },
            !self.shared_memory() && !self.hard_liveliness() ==> r == Ok::<
                usize,
                crate::error::Error,
            >(24),
    {
        let mtu = self.told_mtu();
        let (head, body) = vstd::array::ref_mut_array_unsizing_coercion(buf).split_at_mut(
            MIN_HEADER_SIZE,
        );
        let header = MessageHeader::new(self.info.id & SESSION_ID_WITHOUT_CLIENT_KEY, 0, 0, None);
        let first = header.to_slice(head);
        let second = self.buffer_create_session(mtu, body);
        match (first, second) {
            (Ok(len1), Ok(len2)) => Ok(len1 + len2),
            (Err(e), _) => Err(e),
            (_, Err(e)) => Err(e),
        }
    }
}

} // verus!
