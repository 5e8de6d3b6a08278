//! The two tasks that run on the opened channel: one logs what arrives,
//! the other sends a keepalive on a timer. Each is a step function; the
//! caller does the waiting, receiving and sending.

use vstd::prelude::*;
use vstd::string::StrSliceExecFns;
use vstd::utf8::{decode_utf8, encode_utf8, valid_utf8};
use crate::addr_cell::ServerAddr;

verus! {

/// Size of the receive buffer: the channel's largest message.
pub const MESSAGE_SIZE: usize = 1500;

/// Time between two keepalives, in milliseconds.
pub const WRITE_INTERVAL_MS: u64 = 1000;

/// The keepalive payload.
pub const PING: &'static str = "PING";

/// Relies on `std::str::from_utf8`: the text whose UTF-8 encoding is `b`,
/// when `b` is valid UTF-8.
#[verifier::external_body]
fn utf8_text(b: &[u8]) -> (r: Option<&str>)
    ensures
        r is Some <==> valid_utf8(b@),
        r matches Some(s) ==> encode_utf8(s@) == b@,
{
    std::str::from_utf8(b).ok()
}

/// The log line of a received message.
pub open spec fn recv_line(tag: Seq<char>, text: Seq<char>) -> Seq<char> {
    "Client recv <- "@ + tag + ": "@ + text
}

/// The log line of a sent message.
pub open spec fn send_line(tag: Seq<char>, text: Seq<char>) -> Seq<char> {
    "Client send -> "@ + tag + ": "@ + text
}

/// What a receive on the channel gave.
#[derive(Debug)]
pub enum ReadEvent {
    /// A message with these bytes.
    Message(Vec<u8>),
    /// The channel was closed: the expected end.
    Closed,
    /// Any other receive error.
    Failed,
}

/// Why the read task ended.
#[derive(Clone, Copy, Debug, PartialEq, Eq, Structural)]
pub enum ReadEnd {
    Closed,
    Failed,
    /// A message was not UTF-8 text.
    NotText,
}

#[derive(Debug)]
pub enum ReadAction {
    /// Log this line and receive again.
    Log(String),
    Stop(ReadEnd),
}

/// One step of the read task: a message is decoded and logged, tagged with
/// the address as it stands; any error ends the task.
pub fn read_step(addr: &ServerAddr, event: &ReadEvent) -> (r: ReadAction)
    ensures
        match event {
            ReadEvent::Message(b) => if valid_utf8(b@) {
                r matches ReadAction::Log(line) && line@ == recv_line(
                    addr.tag_text(),
                    decode_utf8(b@),
                )
            } else {
                r == ReadAction::Stop(ReadEnd::NotText)
            },
            ReadEvent::Closed => r == ReadAction::Stop(ReadEnd::Closed),
            ReadEvent::Failed => r == ReadAction::Stop(ReadEnd::Failed),
        },
{
    match event {
        ReadEvent::Message(b) => match utf8_text(b.as_slice()) {
            Some(text) => {
                proof {
                    vstd::utf8::encode_utf8_decode_utf8(text@);
                }
                let mut line = String::new();
                line.append("Client recv <- ");
                let tag = addr.tag();
                line.append(tag.as_str());
                line.append(": ");
                line.append(text);
                assert(line@ =~= recv_line(addr.tag_text(), decode_utf8(b@)));
                ReadAction::Log(line)
            },
            None => ReadAction::Stop(ReadEnd::NotText),
        },
        ReadEvent::Closed => ReadAction::Stop(ReadEnd::Closed),
        ReadEvent::Failed => ReadAction::Stop(ReadEnd::Failed),
    }
}

/// How many messages the read task logs, when its receives give the
/// payloads `msgs` in turn, before it stops: `read_step` logs a payload
/// exactly when it is UTF-8 text. Nothing of the write task enters it.
pub open spec fn read_run(msgs: Seq<Seq<u8>>) -> nat
    decreases msgs.len(),
{
    if msgs.len() == 0 {
        0
    } else if valid_utf8(msgs[0]) {
        1 + read_run(msgs.drop_first())
    } else {
        0
    }
}

/// The read task logs every text message it receives and keeps reading,
/// however the write task fares.
pub proof fn lemma_reader_logs_all_text(msgs: Seq<Seq<u8>>)
    requires
        forall|i: int| 0 <= i < msgs.len() ==> valid_utf8(#[trigger] msgs[i]),
    ensures
        read_run(msgs) == msgs.len(),
    decreases msgs.len(),
{
    if msgs.len() > 0 {
        let rest = msgs.drop_first();
        assert forall|i: int| 0 <= i < rest.len() implies valid_utf8(#[trigger] rest[i]) by {
            assert(rest[i] == msgs[i + 1]);
        }
        assert(valid_utf8(msgs[0]));
        lemma_reader_logs_all_text(rest);
    }
}

/// What the write task was told.
#[derive(Clone, Copy, Debug, PartialEq, Eq, Structural)]
pub enum WriteEvent {
    /// The interval has passed.
    Tick,
    /// The last send went through.
    Sent,
    /// The last send failed.
    SendFailed,
}

#[derive(Debug)]
pub enum WriteAction {
    /// Log `line`, then send `payload`.
    Send { line: String, payload: Vec<u8> },
    /// Wait for the next tick.
    Wait,
    /// End the task; nothing is retried.
    Stop,
}

/// The kind of answer the write task gives to an event.
#[derive(Clone, Copy, Debug, PartialEq, Eq, Structural)]
pub enum WriteKind {
    Send,
    Wait,
    Stop,
}

pub open spec fn write_reaction(e: WriteEvent) -> WriteKind {
    match e {
        WriteEvent::Tick => WriteKind::Send,
        WriteEvent::Sent => WriteKind::Wait,
        WriteEvent::SendFailed => WriteKind::Stop,
    }
}

impl WriteAction {
    pub open spec fn kind(self) -> WriteKind {
        match self {
            WriteAction::Send { .. } => WriteKind::Send,
            WriteAction::Wait => WriteKind::Wait,
            WriteAction::Stop => WriteKind::Stop,
        }
    }
}

/// How many sends the write task makes, tick after tick, when its sends
/// go through or fail as `results` says in turn (`true`: went through).
pub open spec fn write_run(results: Seq<bool>) -> nat
    decreases results.len(),
{
    if results.len() == 0 || write_reaction(WriteEvent::Tick) != WriteKind::Send {
        0
    } else {
        let e = if results[0] {
            WriteEvent::Sent
        } else {
            WriteEvent::SendFailed
        };
        if write_reaction(e) == WriteKind::Stop {
            1
        } else {
            1 + write_run(results.drop_first())
        }
    }
}

/// The write task stops on its first failed send: when sends `0..k` go
/// through and send `k` fails, it makes exactly `k + 1` sends, whatever
/// would have come after.
pub proof fn lemma_writer_stops_at_first_failure(results: Seq<bool>, k: int)
    requires
        0 <= k < results.len(),
        !results[k],
        forall|i: int| 0 <= i < k ==> results[i],
    ensures
        write_run(results) == k + 1,
    decreases k,
{
    if k > 0 {
        let rest = results.drop_first();
        assert forall|i: int| 0 <= i < k - 1 implies rest[i] by {
            assert(rest[i] == results[i + 1]);
        }
        assert(rest[k - 1] == results[k]);
        lemma_writer_stops_at_first_failure(rest, k - 1);
        assert(results[0]);
    }
}

/// One step of the write task: each tick sends the keepalive, tagged in the
/// log with the address as it stands; the first failed send ends the task.
pub fn write_step(addr: &ServerAddr, event: WriteEvent) -> (r: WriteAction)
    ensures
        r.kind() == write_reaction(event),
        match event {
            WriteEvent::Tick => r matches WriteAction::Send { line, payload } && line@ == send_line(
                addr.tag_text(),
                PING@,
            ) && payload@ == encode_utf8(PING@),
            WriteEvent::Sent => r is Wait,
            WriteEvent::SendFailed => r is Stop,
        },
{
    match event {
        WriteEvent::Tick => {
            let mut line = String::new();
            line.append("Client send -> ");
            let tag = addr.tag();
            line.append(tag.as_str());
            line.append(": ");
            line.append(PING);
            assert(line@ =~= send_line(addr.tag_text(), PING@));
            let payload = PING.as_bytes_vec();
            WriteAction::Send { line, payload }
        },
        WriteEvent::Sent => WriteAction::Wait,
        WriteEvent::SendFailed => WriteAction::Stop,
    }
}

} // verus!
