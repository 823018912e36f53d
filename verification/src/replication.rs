//! The handshake by which a replica makes itself known to its primary: three
//! requests, one after the other, each with the one reply that lets the
//! handshake go on.

use crate::cache::Store;
use crate::decimal::{lemma_nat_digits, nat_digits, push_digits, u16_of_text};
use crate::handler::{command_of, dispatch, serve, simple, Command};
use crate::resp::laws::{lemma_digits_plain, lemma_round_trip};
use crate::server::ServerInfo;
use crate::resp::value::{
    encode_line, lemma_array_model, models, wire, Frame, Value, TAG_SIMPLE_STRING,
};
use crate::text::{all_ascii, lemma_ascii_is_utf8, text_of};
use vstd::prelude::*;
use vstd::utf8::{decode_utf8, encode_utf8};

verus! {

/// Where the handshake stands.
#[derive(Debug, Clone, Copy, PartialEq, Eq, Structural)]
pub enum Handshake {
    /// `PING` is to be sent, or its reply is awaited.
    Ping,
    /// `REPLCONF listening-port` is to be sent, or its reply is awaited.
    AnnouncePort,
    /// `REPLCONF capa psync2` is to be sent, or its reply is awaited.
    AnnounceCapability,
    /// All three replies came as they should.
    Done,
}

/// What the bytes received so far mean for the step that awaits them.
#[derive(Debug, Clone, Copy, PartialEq, Eq, Structural)]
pub enum Progress {
    /// The reply is complete and is the expected one: go on from this step.
    Advance(Handshake),
    /// The bytes are the beginning of the expected reply: read on.
    Incomplete,
    /// The bytes are not what the step expects: the handshake has failed.
    Failed,
}

/// The text of a port number.
pub open spec fn port_text(port: u16) -> Seq<char> {
    decode_utf8(nat_digits(port as nat))
}

/// The request of a step, for a replica that listens on `port`. The last
/// step has none.
pub open spec fn request_frame(step: Handshake, port: u16) -> Option<Frame> {
    match step {
        Handshake::Ping => Some(Frame::Array(seq![Frame::BulkString("PING"@)])),
        Handshake::AnnouncePort => Some(
            Frame::Array(
                seq![
                    Frame::BulkString("REPLCONF"@),
                    Frame::BulkString("listening-port"@),
                    Frame::BulkString(port_text(port)),
                ],
            ),
        ),
        Handshake::AnnounceCapability => Some(
            Frame::Array(
                seq![
                    Frame::BulkString("REPLCONF"@),
                    Frame::BulkString("capa"@),
                    Frame::BulkString("psync2"@),
                ],
            ),
        ),
        Handshake::Done => None,
    }
}

/// The one reply that lets a step go on: `+PONG` to the ping, `+OK` to the
/// two announcements. The last step awaits none.
pub open spec fn expected_reply(step: Handshake) -> Option<Seq<u8>> {
    match step {
        Handshake::Ping => Some(simple("PONG"@)),
        Handshake::AnnouncePort => Some(simple("OK"@)),
        Handshake::AnnounceCapability => Some(simple("OK"@)),
        Handshake::Done => None,
    }
}

/// The step behind a step.
pub open spec fn next_step(step: Handshake) -> Handshake {
    match step {
        Handshake::Ping => Handshake::AnnouncePort,
        Handshake::AnnouncePort => Handshake::AnnounceCapability,
        Handshake::AnnounceCapability => Handshake::Done,
        Handshake::Done => Handshake::Done,
    }
}

/// Whether `a` is the beginning of `b`, and shorter.
pub open spec fn proper_prefix(a: Seq<u8>, b: Seq<u8>) -> bool {
    a.len() < b.len() && a == b.take(a.len() as int)
}

/// What the bytes received so far mean for a step.
pub open spec fn progress_spec(step: Handshake, received: Seq<u8>) -> Progress {
    match expected_reply(step) {
        Some(expected) => if received == expected {
            Progress::Advance(next_step(step))
        } else if proper_prefix(received, expected) {
            Progress::Incomplete
        } else {
            Progress::Failed
        },
        None => Progress::Failed,
    }
}

fn bulk(text: &str) -> (value: Value)
    ensures
        value@ == Frame::BulkString(text@),
{
    Value::BulkString(text.to_owned())
}

fn port_value(port: u16) -> (value: Value)
    ensures
        value@ == Frame::BulkString(port_text(port)),
{
    let mut digits: Vec<u8> = Vec::new();
    push_digits(port as u64, &mut digits);
    proof {
        lemma_nat_digits(port as nat);
        assert(digits@ =~= nat_digits(port as nat));
        assert(all_ascii(digits@));
        lemma_ascii_is_utf8(digits@);
    }
    match text_of(digits.as_slice()) {
        Some(text) => Value::BulkString(text),
        None => Value::BulkString(String::new()),
    }
}

impl Handshake {
    /// The first step.
    pub fn start() -> (step: Handshake)
        ensures
            step == Handshake::Ping,
    {
        Handshake::Ping
    }

    /// Whether the handshake is complete.
    pub fn is_done(&self) -> (done: bool)
        ensures
            done == (*self == Handshake::Done),
    {
        match self {
            Handshake::Done => true,
            _ => false,
        }
    }

    /// The bytes to send at this step, for a replica that listens on
    /// `own_port`; none once the handshake is complete.
    pub fn request(&self, own_port: u16) -> (bytes: Option<Vec<u8>>)
        ensures
            match bytes {
                Some(b) => request_frame(*self, own_port) is Some && b@ == wire(
                    request_frame(*self, own_port)->Some_0,
                ),
                None => request_frame(*self, own_port) is None,
            },
    {
        let items = match self {
            Handshake::Ping => vec![bulk("PING")],
            Handshake::AnnouncePort => vec![
                bulk("REPLCONF"),
                bulk("listening-port"),
                port_value(own_port),
            ],
            Handshake::AnnounceCapability => vec![bulk("REPLCONF"), bulk("capa"), bulk("psync2")],
            Handshake::Done => {
                return None;
            },
        };
        proof {
            lemma_array_model(items);
            assert(models(items@) =~= request_frame(*self, own_port)->Some_0->Array_0);
        }
        Some(Value::Array(items).to_resp())
    }

    /// Judges the bytes received so far in answer to this step's request.
    ///
    /// The step's one reply, whole, lets the handshake go on; a beginning of
    /// it asks for more bytes; anything else fails the handshake, and so
    /// does any byte once the handshake is complete.
    pub fn on_reply(&self, received: &[u8]) -> (progress: Progress)
        ensures
            progress == progress_spec(*self, received@),
    {
        let (expected, next) = match self {
            Handshake::Ping => (
                encode_line(TAG_SIMPLE_STRING, "PONG".as_bytes()),
                Handshake::AnnouncePort,
            ),
            Handshake::AnnouncePort => (
                encode_line(TAG_SIMPLE_STRING, "OK".as_bytes()),
                Handshake::AnnounceCapability,
            ),
            Handshake::AnnounceCapability => (
                encode_line(TAG_SIMPLE_STRING, "OK".as_bytes()),
                Handshake::Done,
            ),
            Handshake::Done => {
                return Progress::Failed;
            },
        };
        let n = received.len();
        let m = expected.len();
        if n > m {
            return Progress::Failed;
        }
        let mut i: usize = 0;
        while i < n
            invariant
                0 <= i <= n <= m,
                n == received@.len(),
                m == expected@.len(),
                expected_reply(*self) == Some(expected@),
                forall|j: int| 0 <= j < i ==> received@[j] == expected@[j],
            decreases n - i,
        {
            if received[i] != expected[i] {
                assert(expected@.take(n as int)[i as int] != received@[i as int]);
                return Progress::Failed;
            }
            i = i + 1;
        }
        assert(received@ =~= expected@.take(n as int));
        if n == m {
            assert(expected@.take(n as int) =~= expected@);
            Progress::Advance(next)
        } else {
            Progress::Incomplete
        }
    }
}

/// The handshake goes from its first step to its end on the replies `+PONG`,
/// `+OK` and `+OK`, each whole and in this order.
pub proof fn lemma_handshake_completes()
    ensures
        progress_spec(Handshake::Ping, simple("PONG"@)) == Progress::Advance(
            Handshake::AnnouncePort,
        ),
        progress_spec(Handshake::AnnouncePort, simple("OK"@)) == Progress::Advance(
            Handshake::AnnounceCapability,
        ),
        progress_spec(Handshake::AnnounceCapability, simple("OK"@)) == Progress::Advance(
            Handshake::Done,
        ),
{
}

/// A reply that is neither the expected one nor a beginning of it fails the
/// step, whichever step it is; and no reply moves the handshake but the
/// expected one.
pub proof fn lemma_handshake_deviation(step: Handshake, received: Seq<u8>)
    ensures
        progress_spec(step, received) is Advance <==> expected_reply(step) == Some(received),
        progress_spec(step, received) is Advance ==> progress_spec(step, received)
            == Progress::Advance(next_step(step)),
        expected_reply(step) matches Some(expected) && received != expected && !proper_prefix(
            received,
            expected,
        ) ==> progress_spec(step, received) == Progress::Failed,
{
}

/// The digits of a number are no more than the number and one.
proof fn lemma_nat_digits_len(n: nat)
    ensures
        nat_digits(n).len() <= n + 1,
    decreases n,
{
    if n >= 10 {
        lemma_nat_digits_len(n / 10);
    }
}

/// The text of a port is its digits.
proof fn lemma_port_text(port: u16)
    ensures
        encode_utf8(port_text(port)) == nat_digits(port as nat),
        encode_utf8(port_text(port)).len() <= usize::MAX,
        u16_of_text(encode_utf8(port_text(port))) == Some(port),
{
    let digits = nat_digits(port as nat);
    lemma_nat_digits(port as nat);
    lemma_nat_digits_len(port as nat);
    assert(all_ascii(digits));
    lemma_ascii_is_utf8(digits);
    vstd::utf8::decode_utf8_encode_utf8(digits);
    lemma_digits_plain(port as nat);
}

/// The names of the handshake's commands are those of the dispatcher.
proof fn lemma_handshake_names()
    ensures
        command_of("PING"@) == Command::Ping,
        command_of("REPLCONF"@) == Command::Replconf,
        encode_utf8("PING"@).len() == 4,
        encode_utf8("REPLCONF"@).len() == 8,
        encode_utf8("listening-port"@).len() == 14,
        encode_utf8("capa"@).len() == 4,
        encode_utf8("psync2"@).len() == 6,
{
    reveal_strlit("PING");
    reveal_strlit("ECHO");
    reveal_strlit("SET");
    reveal_strlit("GET");
    reveal_strlit("INFO");
    reveal_strlit("REPLCONF");
    reveal_strlit("listening-port");
    reveal_strlit("capa");
    reveal_strlit("psync2");
    vstd::utf8::is_ascii_chars_encode_utf8("PING"@);
    vstd::utf8::is_ascii_chars_encode_utf8("ECHO"@);
    vstd::utf8::is_ascii_chars_encode_utf8("SET"@);
    vstd::utf8::is_ascii_chars_encode_utf8("GET"@);
    vstd::utf8::is_ascii_chars_encode_utf8("INFO"@);
    vstd::utf8::is_ascii_chars_encode_utf8("REPLCONF"@);
    vstd::utf8::is_ascii_chars_encode_utf8("listening-port"@);
    vstd::utf8::is_ascii_chars_encode_utf8("capa"@);
    vstd::utf8::is_ascii_chars_encode_utf8("psync2"@);
    let name = crate::text::upper(encode_utf8("REPLCONF"@));
    assert(name.len() == 8);
    assert(crate::text::upper(encode_utf8("PING"@)).len() == 4);
    assert(crate::text::upper(encode_utf8("ECHO"@)).len() == 4);
    assert(crate::text::upper(encode_utf8("SET"@)).len() == 3);
    assert(crate::text::upper(encode_utf8("GET"@)).len() == 3);
    assert(crate::text::upper(encode_utf8("INFO"@)).len() == 4);
}

/// A node that serves requests as this library does answers each request of
/// the handshake with the reply that lets the handshake go on, and its store
/// stays as it is: a replica's handshake with such a primary completes.
pub proof fn lemma_served_handshake(
    step: Handshake,
    port: u16,
    store: Store,
    info: ServerInfo,
    now: u64,
)
    requires
        step != Handshake::Done,
    ensures
        request_frame(step, port) is Some,
        expected_reply(step) is Some,
        serve(store, wire(request_frame(step, port)->Some_0), info, now) == (
            store,
            expected_reply(step)->Some_0,
        ),
        progress_spec(
            step,
            serve(store, wire(request_frame(step, port)->Some_0), info, now).1,
        ) == Progress::Advance(next_step(step)),
{
    let request = request_frame(step, port)->Some_0;
    let args = request->Array_0;
    lemma_handshake_names();
    lemma_port_text(port);
    assert(request.wf() && request.line_safe()) by {
        assert forall|i: int| 0 <= i < args.len() implies (#[trigger] args[i]).wf()
            && args[i].line_safe() by {}
    }
    lemma_round_trip(request);
    assert(serve(store, wire(request), info, now) == dispatch(store, request, info, now));
}

} // verus!
