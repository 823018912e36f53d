//! The command dispatcher: what a request does to the store, and the reply
//! that goes back.
//!
//! A request is an array whose first item is a bulk string that names the
//! command, in any case. Every request gets a reply: one that cannot be
//! served gets a simple error, and leaves the store as it was. Arguments
//! behind those that a command reads are ignored.

use crate::cache::{after_lookup, lookup, Cache, Store};
use crate::decimal::{
    lemma_nat_digits, nat_digits, parse_u16, parse_u64, push_digits, u16_of_text, u64_of_text,
};
use crate::resp::parser::{parse, parse_spec};
use crate::resp::value::{
    bulk_wire, crlf, encode_bulk, encode_line, lemma_array_model, models, push_crlf, wire, Frame,
    Value, TAG_BULK_STRING, TAG_SIMPLE_ERROR, TAG_SIMPLE_STRING,
};
use crate::server::{role_name, ServerInfo};
use crate::text::{all_ascii, lemma_ascii_is_utf8, names, push_bytes, same_name};
use vstd::prelude::*;
use vstd::utf8::{decode_utf8, encode_utf8, valid_utf8};

verus! {

/// The commands.
#[derive(Debug, Clone, Copy, PartialEq, Eq, Structural)]
pub enum Command {
    Ping,
    Echo,
    SetKey,
    GetKey,
    Info,
    Replconf,
    Unknown,
}

/// When an entry that `SET` writes expires.
#[derive(Debug, Clone, Copy, PartialEq, Eq, Structural)]
pub enum Expiry {
    /// No modifier: the entry never expires.
    Never,
    /// `PX` or `EX`: the entry lives until the clock reads more than this.
    At(u64),
    /// A modifier that cannot be read.
    Malformed,
}

/// Whether `text` is `word` but for the case of ASCII letters.
pub open spec fn is_word(text: Seq<char>, word: Seq<char>) -> bool {
    same_name(encode_utf8(text), encode_utf8(word))
}

/// The command that a name stands for.
pub open spec fn command_of(name: Seq<char>) -> Command {
    if is_word(name, "PING"@) {
        Command::Ping
    } else if is_word(name, "ECHO"@) {
        Command::Echo
    } else if is_word(name, "SET"@) {
        Command::SetKey
    } else if is_word(name, "GET"@) {
        Command::GetKey
    } else if is_word(name, "INFO"@) {
        Command::Info
    } else if is_word(name, "REPLCONF"@) {
        Command::Replconf
    } else {
        Command::Unknown
    }
}

/// The reply `+<text>`.
pub open spec fn simple(text: Seq<char>) -> Seq<u8> {
    wire(Frame::SimpleString(text))
}

/// The reply `-<text>`.
pub open spec fn failure(text: Seq<char>) -> Seq<u8> {
    wire(Frame::SimpleError(text))
}

/// The reply to `GET` where nothing is found: the bulk of length `-1`.
pub open spec fn null_bulk() -> Seq<u8> {
    seq![36u8, 45u8, 49u8, 13u8, 10u8]
}

/// The reply to a request that is no array.
pub open spec fn not_a_request() -> Seq<u8> {
    failure("Err an error occured"@)
}

/// The reply to an array that names no command: it is empty, or its first
/// item is no bulk string.
pub open spec fn no_command() -> Seq<u8> {
    failure("ERR invalid command"@)
}

/// The reply to a name that is no command.
pub open spec fn unknown_command() -> Seq<u8> {
    failure("ERR Unknown command"@)
}

/// The reply to a command that lacks an argument.
pub open spec fn missing_argument() -> Seq<u8> {
    failure("ERR wrong number of arguments"@)
}

/// The reply to an argument that is no bulk string where one is asked for.
pub open spec fn wrong_type() -> Seq<u8> {
    failure("ERR wrong type of argument"@)
}

/// The reply to arguments that cannot be read.
pub open spec fn syntax_error() -> Seq<u8> {
    failure("ERR syntax error"@)
}

/// The deadline `millis` milliseconds after `now`, held at `u64::MAX`.
pub open spec fn deadline_after(now: u64, millis: nat) -> u64 {
    if now + millis > u64::MAX {
        u64::MAX
    } else {
        (now + millis) as u64
    }
}

/// The expiry that the arguments of a `SET` ask for when the clock reads `now`.
///
/// Three arguments ask for none. Behind them `PX` and a count of
/// milliseconds, or `EX` and a count of seconds, both bulk strings and the
/// count an unsigned decimal that fits in a `u64`, ask for a deadline that far
/// from `now`. Anything else is malformed.
pub open spec fn expiry_spec(args: Seq<Frame>, now: u64) -> Expiry {
    if args.len() == 3 {
        Expiry::Never
    } else if args.len() >= 5 && args[3] is BulkString && args[4] is BulkString {
        let unit = args[3]->BulkString_0;
        match u64_of_text(encode_utf8(args[4]->BulkString_0)) {
            Some(count) => if is_word(unit, "PX"@) {
                Expiry::At(deadline_after(now, count as nat))
            } else if is_word(unit, "EX"@) {
                Expiry::At(deadline_after(now, count as nat * 1000))
            } else {
                Expiry::Malformed
            },
            None => Expiry::Malformed,
        }
    } else {
        Expiry::Malformed
    }
}

/// `ECHO`: the argument, a bulk string, as it came.
pub open spec fn echo_reply(args: Seq<Frame>) -> Seq<u8> {
    if args.len() < 2 {
        missing_argument()
    } else if args[1] is BulkString {
        wire(args[1])
    } else {
        wrong_type()
    }
}

/// `SET`: the store and the reply.
///
/// The key and the value are kept in their encoded form. The reply is `+OK`
/// where the store held nothing under the key, expired or not, and `+UPDATED`
/// where an entry was replaced.
pub open spec fn set_outcome(store: Store, args: Seq<Frame>, now: u64) -> (Store, Seq<u8>) {
    if args.len() < 3 {
        (store, missing_argument())
    } else {
        let reply = if store.contains_key(wire(args[1])) {
            simple("UPDATED"@)
        } else {
            simple("OK"@)
        };
        match expiry_spec(args, now) {
            Expiry::Never => (store.insert(wire(args[1]), (wire(args[2]), None)), reply),
            Expiry::At(deadline) => (
                store.insert(wire(args[1]), (wire(args[2]), Some(deadline))),
                reply,
            ),
            Expiry::Malformed => (store, syntax_error()),
        }
    }
}

/// `GET`: the store and the reply. The bytes kept under the key go back as
/// they are; an entry that has expired leaves the store.
pub open spec fn get_outcome(store: Store, args: Seq<Frame>, now: u64) -> (Store, Seq<u8>) {
    if args.len() < 2 {
        (store, missing_argument())
    } else {
        (
            after_lookup(store, wire(args[1]), now),
            match lookup(store, wire(args[1]), now) {
                Some(value) => value,
                None => null_bulk(),
            },
        )
    }
}

/// The text of the reply to `INFO`: the role, and on two more lines the
/// replication id and offset where the node has an id.
pub open spec fn info_text(info: ServerInfo) -> Seq<u8> {
    let role = encode_utf8("role:"@) + role_name(info.role);
    if info.replication_id@.len() == 0 {
        role
    } else {
        role + crlf() + encode_utf8("master_replid:"@) + encode_utf8(info.replication_id@)
            + crlf() + encode_utf8("master_repl_offset:"@) + nat_digits(
            info.replication_offset as nat,
        )
    }
}

/// `INFO`: a bulk string.
pub open spec fn info_reply(info: ServerInfo) -> Seq<u8> {
    bulk_wire(36, info_text(info))
}

/// Whether the arguments of a `REPLCONF` have one of the two shapes:
/// `listening-port` and a port, or `capa` and `psync2`, all bulk strings.
pub open spec fn replconf_shape(args: Seq<Frame>) -> bool {
    &&& args.len() >= 3
    &&& args[1] is BulkString
    &&& args[2] is BulkString
    &&& {
        let option = args[1]->BulkString_0;
        let value = args[2]->BulkString_0;
        ||| is_word(option, "listening-port"@) && u16_of_text(encode_utf8(value)) is Some
        ||| is_word(option, "capa"@) && is_word(value, "psync2"@)
    }
}

/// `REPLCONF`: `+OK` for one of the two shapes.
pub open spec fn replconf_reply(args: Seq<Frame>) -> Seq<u8> {
    if replconf_shape(args) {
        simple("OK"@)
    } else {
        syntax_error()
    }
}

/// What a request does when the clock reads `now`: the store afterwards, and
/// the reply.
pub open spec fn dispatch(store: Store, request: Frame, info: ServerInfo, now: u64) -> (
    Store,
    Seq<u8>,
) {
    match request {
        Frame::Array(args) => if args.len() > 0 && args[0] is BulkString {
            match command_of(args[0]->BulkString_0) {
                Command::Ping => (store, simple("PONG"@)),
                Command::Echo => (store, echo_reply(args)),
                Command::SetKey => set_outcome(store, args, now),
                Command::GetKey => get_outcome(store, args, now),
                Command::Info => (store, info_reply(info)),
                Command::Replconf => (store, replconf_reply(args)),
                Command::Unknown => (store, unknown_command()),
            }
        } else {
            (store, no_command())
        },
        _ => (store, not_a_request()),
    }
}

/// What the bytes of a request do when the clock reads `now`: they are
/// decoded, and the value is dispatched.
pub open spec fn serve(store: Store, buffer: Seq<u8>, info: ServerInfo, now: u64) -> (
    Store,
    Seq<u8>,
) {
    dispatch(store, parse_spec(buffer).1, info, now)
}

fn reply_simple(text: &str) -> (reply: Vec<u8>)
    ensures
        reply@ == simple(text@),
{
    encode_line(TAG_SIMPLE_STRING, text.as_bytes())
}

fn reply_failure(text: &str) -> (reply: Vec<u8>)
    ensures
        reply@ == failure(text@),
{
    encode_line(TAG_SIMPLE_ERROR, text.as_bytes())
}

/// The command that `name` stands for.
pub fn command_named(name: &String) -> (command: Command)
    ensures
        command == command_of(name@),
{
    if names(name, "PING") {
        Command::Ping
    } else if names(name, "ECHO") {
        Command::Echo
    } else if names(name, "SET") {
        Command::SetKey
    } else if names(name, "GET") {
        Command::GetKey
    } else if names(name, "INFO") {
        Command::Info
    } else if names(name, "REPLCONF") {
        Command::Replconf
    } else {
        Command::Unknown
    }
}

fn deadline(now: u64, count: u64, scale: u64) -> (res: u64)
    ensures
        res == deadline_after(now, count as nat * scale as nat),
{
    assert(count as nat * scale as nat == count * scale) by (nonlinear_arith);
    match count.checked_mul(scale) {
        Some(millis) => now.saturating_add(millis),
        None => u64::MAX,
    }
}

fn read_expiry(arr: &Vec<Value>, now: u64) -> (expiry: Expiry)
    ensures
        expiry == expiry_spec(models(arr@), now),
{
    if arr.len() == 3 {
        return Expiry::Never;
    }
    if arr.len() < 5 {
        return Expiry::Malformed;
    }
    assert(models(arr@)[3] == arr@[3]@ && models(arr@)[4] == arr@[4]@);
    match (&arr[3], &arr[4]) {
        (Value::BulkString(unit), Value::BulkString(amount)) => {
            match parse_u64(amount.as_str().as_bytes()) {
                Some(count) => {
                    if names(unit, "PX") {
                        Expiry::At(deadline(now, count, 1))
                    } else if names(unit, "EX") {
                        Expiry::At(deadline(now, count, 1000))
                    } else {
                        Expiry::Malformed
                    }
                },
                None => Expiry::Malformed,
            }
        },
        _ => Expiry::Malformed,
    }
}

fn execute_echo(arr: &Vec<Value>) -> (reply: Vec<u8>)
    ensures
        reply@ == echo_reply(models(arr@)),
{
    if arr.len() < 2 {
        return reply_failure("ERR wrong number of arguments");
    }
    assert(models(arr@)[1] == arr@[1]@);
    match &arr[1] {
        Value::BulkString(_) => arr[1].to_resp(),
        _ => reply_failure("ERR wrong type of argument"),
    }
}

fn execute_set(arr: &Vec<Value>, db: &mut Cache, now: u64) -> (reply: Vec<u8>)
    requires
        old(db).wf(),
    ensures
        final(db).wf(),
        (final(db)@, reply@) == set_outcome(old(db)@, models(arr@), now),
{
    if arr.len() < 3 {
        return reply_failure("ERR wrong number of arguments");
    }
    assert(models(arr@)[1] == arr@[1]@ && models(arr@)[2] == arr@[2]@);
    let expiry_time = match read_expiry(arr, now) {
        Expiry::Never => None,
        Expiry::At(deadline) => Some(deadline),
        Expiry::Malformed => {
            return reply_failure("ERR syntax error");
        },
    };
    let key = arr[1].to_resp();
    let value = arr[2].to_resp();
    match db.insert(key, value, expiry_time) {
        Some(_) => reply_simple("UPDATED"),
        None => reply_simple("OK"),
    }
}

fn execute_get(arr: &Vec<Value>, db: &mut Cache, now: u64) -> (reply: Vec<u8>)
    requires
        old(db).wf(),
    ensures
        final(db).wf(),
        (final(db)@, reply@) == get_outcome(old(db)@, models(arr@), now),
{
    if arr.len() < 2 {
        return reply_failure("ERR wrong number of arguments");
    }
    assert(models(arr@)[1] == arr@[1]@);
    let key = arr[1].to_resp();
    match db.get_at(&key, now) {
        Some(value) => value,
        None => {
            let mut reply: Vec<u8> = Vec::new();
            reply.push(36);
            reply.push(45);
            reply.push(49);
            push_crlf(&mut reply);
            assert(reply@ =~= null_bulk());
            reply
        },
    }
}

fn execute_info(server_info: &ServerInfo) -> (reply: Vec<u8>)
    ensures
        reply@ == info_reply(*server_info),
{
    let mut text: Vec<u8> = Vec::new();
    push_bytes(&mut text, "role:".as_bytes());
    push_bytes(&mut text, server_info.role.name().as_bytes());
    if !server_info.replication_id.as_str().is_empty() {
        push_crlf(&mut text);
        push_bytes(&mut text, "master_replid:".as_bytes());
        push_bytes(&mut text, server_info.replication_id.as_str().as_bytes());
        push_crlf(&mut text);
        push_bytes(&mut text, "master_repl_offset:".as_bytes());
        push_digits(server_info.replication_offset, &mut text);
    }
    assert(text@ =~= info_text(*server_info));
    encode_bulk(TAG_BULK_STRING, text.as_slice())
}

fn execute_replconf(arr: &Vec<Value>) -> (reply: Vec<u8>)
    ensures
        reply@ == replconf_reply(models(arr@)),
{
    if arr.len() < 3 {
        return reply_failure("ERR syntax error");
    }
    assert(models(arr@)[1] == arr@[1]@ && models(arr@)[2] == arr@[2]@);
    let shape = match (&arr[1], &arr[2]) {
        (Value::BulkString(option), Value::BulkString(value)) => {
            (names(option, "listening-port") && parse_u16(value.as_str().as_bytes()).is_some())
                || (names(option, "capa") && names(value, "psync2"))
        },
        _ => false,
    };
    if shape {
        reply_simple("OK")
    } else {
        reply_failure("ERR syntax error")
    }
}

/// Serves one request when the clock reads `now`, and returns the reply.
pub fn process_command_at(db: &mut Cache, command: &Value, server_info: &ServerInfo, now: u64) -> (reply:
    Vec<u8>)
    requires
        old(db).wf(),
    ensures
        final(db).wf(),
        (final(db)@, reply@) == dispatch(old(db)@, command@, *server_info, now),
{
    match command {
        Value::Array(arr) => {
            proof {
                lemma_array_model(*arr);
            }
            if arr.len() == 0 {
                return reply_failure("ERR invalid command");
            }
            assert(models(arr@)[0] == arr@[0]@);
            match &arr[0] {
                Value::BulkString(name) => match command_named(name) {
                    Command::Ping => reply_simple("PONG"),
                    Command::Echo => execute_echo(arr),
                    Command::SetKey => execute_set(arr, db, now),
                    Command::GetKey => execute_get(arr, db, now),
                    Command::Info => execute_info(server_info),
                    Command::Replconf => execute_replconf(arr),
                    Command::Unknown => reply_failure("ERR Unknown command"),
                },
                _ => reply_failure("ERR invalid command"),
            }
        },
        _ => reply_failure("Err an error occured"),
    }
}

/// Serves one request at the present reading of the store's clock: what
/// [`process_command_at`] does at some reading `now`.
pub fn process_command(db: &mut Cache, command: &Value, server_info: &ServerInfo) -> (reply: Vec<
    u8,
>)
    requires
        old(db).wf(),
    ensures
        final(db).wf(),
        exists|now: u64|
            (final(db)@, reply@) == #[trigger] dispatch(old(db)@, command@, *server_info, now),
{
    let now = db.now();
    process_command_at(db, command, server_info, now)
}

/// Decodes the request in `buffer` and serves it when the clock reads `now`.
pub fn respond_at(db: &mut Cache, buffer: &[u8], server_info: &ServerInfo, now: u64) -> (reply:
    Vec<u8>)
    requires
        old(db).wf(),
    ensures
        final(db).wf(),
        (final(db)@, reply@) == serve(old(db)@, buffer@, *server_info, now),
{
    let (_, command) = parse(buffer);
    process_command_at(db, &command, server_info, now)
}

/// Decodes the request in `buffer` and serves it at the present reading of
/// the store's clock: what [`respond_at`] does at some reading `now`.
pub fn respond(db: &mut Cache, buffer: &[u8], server_info: &ServerInfo) -> (reply: Vec<u8>)
    requires
        old(db).wf(),
    ensures
        final(db).wf(),
        exists|now: u64|
            (final(db)@, reply@) == #[trigger] serve(old(db)@, buffer@, *server_info, now),
{
    let now = db.now();
    respond_at(db, buffer, server_info, now)
}

/// How a read from a connection ended.
#[derive(Debug, Clone, Copy, PartialEq, Eq, Structural)]
pub enum ReadOutcome {
    /// Bytes came in.
    Data,
    /// The stream is at its end: the read gave no bytes.
    End,
    /// Nothing is there to read right now.
    WouldBlock,
    /// The read failed.
    Failed,
}

/// How a write to a connection ended.
#[derive(Debug, Clone, Copy, PartialEq, Eq, Structural)]
pub enum WriteOutcome {
    /// The reply went out.
    Written,
    /// There is no room to write right now.
    WouldBlock,
    /// The write failed.
    Failed,
}

/// What the handler of a connection does next.
#[derive(Debug, PartialEq, Eq)]
pub enum HandlerStep {
    /// Write these bytes to the connection.
    Reply(Vec<u8>),
    /// Read from the connection again.
    Read,
    /// Return to the reactor and wait for the connection to be ready again.
    Wait,
    /// Return to the reactor and have the connection closed.
    Close,
}

/// Decides what follows a read from a connection, and serves the request
/// that came in.
///
/// Bytes that came in are decoded and served, and the reply is to be
/// written. The end of the stream and a read that would block end the
/// handler's turn; a read that failed ends the connection. Only bytes that
/// came in touch the store.
pub fn on_read(db: &mut Cache, outcome: ReadOutcome, received: &[u8], server_info: &ServerInfo) -> (step:
    HandlerStep)
    requires
        old(db).wf(),
    ensures
        final(db).wf(),
        match outcome {
            ReadOutcome::Data => exists|now: u64|
                step matches HandlerStep::Reply(reply) && (final(db)@, reply@) == #[trigger] serve(
                    old(db)@,
                    received@,
                    *server_info,
                    now,
                ),
            ReadOutcome::End => step == HandlerStep::Wait && final(db)@ == old(db)@,
            ReadOutcome::WouldBlock => step == HandlerStep::Wait && final(db)@ == old(db)@,
            ReadOutcome::Failed => step == HandlerStep::Close && final(db)@ == old(db)@,
        },
{
    match outcome {
        ReadOutcome::Data => HandlerStep::Reply(respond(db, received, server_info)),
        ReadOutcome::End => HandlerStep::Wait,
        ReadOutcome::WouldBlock => HandlerStep::Wait,
        ReadOutcome::Failed => HandlerStep::Close,
    }
}

/// Decides what follows the write of a reply: the next read, the end of the
/// handler's turn where the write would block, or the end of the connection
/// where it failed.
pub fn on_write(outcome: WriteOutcome) -> (step: HandlerStep)
    ensures
        step == match outcome {
            WriteOutcome::Written => HandlerStep::Read,
            WriteOutcome::WouldBlock => HandlerStep::Wait,
            WriteOutcome::Failed => HandlerStep::Close,
        },
{
    match outcome {
        WriteOutcome::Written => HandlerStep::Read,
        WriteOutcome::WouldBlock => HandlerStep::Wait,
        WriteOutcome::Failed => HandlerStep::Close,
    }
}

/// The request `GET key`, the command under any of its names.
pub open spec fn get_request(name: Seq<char>, key: Frame) -> Frame {
    Frame::Array(seq![Frame::BulkString(name), key])
}

/// The request `SET key value`, the command under any of its names.
pub open spec fn set_request(name: Seq<char>, key: Frame, value: Frame) -> Frame {
    Frame::Array(seq![Frame::BulkString(name), key, value])
}

/// The request `SET key value unit count`, the command under any of its names.
pub open spec fn set_request_for(
    name: Seq<char>,
    key: Frame,
    value: Frame,
    unit: Seq<char>,
    count: Seq<char>,
) -> Frame {
    Frame::Array(
        seq![Frame::BulkString(name), key, value, Frame::BulkString(unit), Frame::BulkString(count)],
    )
}

/// `GET` on a key that has no deadline leaves the store as it is, and gives
/// the same reply when it is asked again, whatever the clock reads.
pub proof fn lemma_get_twice(
    store: Store,
    name: Seq<char>,
    key: Frame,
    info: ServerInfo,
    first: u64,
    second: u64,
)
    requires
        command_of(name) == Command::GetKey,
        store.contains_key(wire(key)) ==> store[wire(key)].1 is None,
    ensures
        dispatch(store, get_request(name, key), info, first).0 == store,
        dispatch(store, get_request(name, key), info, second) == dispatch(
            store,
            get_request(name, key),
            info,
            first,
        ),
{
}

/// `SET` on a key that the store does not hold is answered `+OK`, and a
/// second `SET` on the same key `+UPDATED`.
pub proof fn lemma_set_twice(
    store: Store,
    name: Seq<char>,
    key: Frame,
    first_value: Frame,
    second_value: Frame,
    info: ServerInfo,
    first: u64,
    second: u64,
)
    requires
        command_of(name) == Command::SetKey,
        !store.contains_key(wire(key)),
    ensures
        ({
            let after = dispatch(store, set_request(name, key, first_value), info, first);
            &&& after.1 == simple("OK"@)
            &&& dispatch(after.0, set_request(name, key, second_value), info, second).1 == simple(
                "UPDATED"@,
            )
        }),
{
}

/// A key written with `PX` and a count of milliseconds is answered with its
/// value as long as the clock reads no more than the count behind the
/// writing, and with the null bulk once it reads more; the store then holds
/// the key no longer.
pub proof fn lemma_px_expiry(
    store: Store,
    set_name: Seq<char>,
    get_name: Seq<char>,
    key: Frame,
    value: Frame,
    unit: Seq<char>,
    count: Seq<char>,
    info: ServerInfo,
    written_at: u64,
    now: u64,
)
    requires
        command_of(set_name) == Command::SetKey,
        command_of(get_name) == Command::GetKey,
        is_word(unit, "PX"@),
        u64_of_text(encode_utf8(count)) is Some,
    ensures
        ({
            let millis = u64_of_text(encode_utf8(count))->Some_0;
            let written = dispatch(
                store,
                set_request_for(set_name, key, value, unit, count),
                info,
                written_at,
            ).0;
            let read = dispatch(written, get_request(get_name, key), info, now);
            &&& now <= deadline_after(written_at, millis as nat) ==> read == (written, wire(value))
            &&& now > deadline_after(written_at, millis as nat) ==> read.1 == null_bulk()
                && !read.0.contains_key(wire(key))
        }),
{
}

/// A request whose name is no command is answered with a simple error, and
/// leaves the store as it is.
pub proof fn lemma_unknown_command(store: Store, args: Seq<Frame>, info: ServerInfo, now: u64)
    requires
        args.len() > 0,
        args[0] is BulkString,
        command_of(args[0]->BulkString_0) == Command::Unknown,
    ensures
        dispatch(store, Frame::Array(args), info, now) == (
            store,
            wire(Frame::SimpleError("ERR Unknown command"@)),
        ),
{
}

/// Whether `bytes` are the encoding of a value.
pub open spec fn is_encoding(bytes: Seq<u8>) -> bool {
    exists|f: Frame| bytes == #[trigger] wire(f)
}

/// Whether every value that the store holds is the encoding of a value.
pub open spec fn holds_encodings(store: Store) -> bool {
    forall|key: Seq<u8>| store.contains_key(key) ==> is_encoding(#[trigger] store[key].0)
}

/// The text of the reply to `INFO` is well-formed UTF-8.
proof fn lemma_info_text(info: ServerInfo)
    ensures
        valid_utf8(info_text(info)),
{
    let digits = nat_digits(info.replication_offset as nat);
    lemma_nat_digits(info.replication_offset as nat);
    assert(all_ascii(digits));
    lemma_ascii_is_utf8(digits);
    assert(all_ascii(crlf()));
    lemma_ascii_is_utf8(crlf());
    vstd::utf8::encode_utf8_valid_utf8("role:"@);
    vstd::utf8::encode_utf8_valid_utf8("master"@);
    vstd::utf8::encode_utf8_valid_utf8("slave"@);
    vstd::utf8::encode_utf8_valid_utf8("master_replid:"@);
    vstd::utf8::encode_utf8_valid_utf8("master_repl_offset:"@);
    vstd::utf8::encode_utf8_valid_utf8(info.replication_id@);
    let a = encode_utf8("role:"@) + role_name(info.role);
    vstd::utf8::valid_utf8_concat(encode_utf8("role:"@), role_name(info.role));
    let b = a + crlf();
    vstd::utf8::valid_utf8_concat(a, crlf());
    let c = b + encode_utf8("master_replid:"@);
    vstd::utf8::valid_utf8_concat(b, encode_utf8("master_replid:"@));
    let d = c + encode_utf8(info.replication_id@);
    vstd::utf8::valid_utf8_concat(c, encode_utf8(info.replication_id@));
    let e = d + crlf();
    vstd::utf8::valid_utf8_concat(d, crlf());
    let f = e + encode_utf8("master_repl_offset:"@);
    vstd::utf8::valid_utf8_concat(e, encode_utf8("master_repl_offset:"@));
    vstd::utf8::valid_utf8_concat(f, digits);
}

/// Every request gets a well-formed reply: the encoding of a value, or the
/// null bulk. This holds as long as the store holds encodings, which every
/// request keeps so.
pub proof fn lemma_reply_well_formed(store: Store, request: Frame, info: ServerInfo, now: u64)
    requires
        holds_encodings(store),
    ensures
        holds_encodings(dispatch(store, request, info, now).0),
        dispatch(store, request, info, now).1 == null_bulk() || is_encoding(
            dispatch(store, request, info, now).1,
        ),
{
    let (after, reply) = dispatch(store, request, info, now);
    assert(forall|text: Seq<char>| is_encoding(#[trigger] simple(text)));
    assert(forall|text: Seq<char>| is_encoding(#[trigger] failure(text)));
    match request {
        Frame::Array(args) => {
            if args.len() > 0 && args[0] is BulkString {
                match command_of(args[0]->BulkString_0) {
                    Command::Echo => {
                        if args.len() >= 2 {
                            assert(is_encoding(wire(args[1])));
                        }
                    },
                    Command::SetKey => {
                        if args.len() >= 3 {
                            assert(is_encoding(wire(args[2])));
                        }
                    },
                    Command::GetKey => {
                        if args.len() >= 2 {
                            let key = wire(args[1]);
                            if store.contains_key(key) {
                                assert(is_encoding(store[key].0));
                            }
                        }
                    },
                    Command::Info => {
                        lemma_info_text(info);
                        vstd::utf8::decode_utf8_encode_utf8(info_text(info));
                        assert(info_reply(info) == wire(
                            Frame::BulkString(decode_utf8(info_text(info))),
                        ));
                    },
                    _ => {},
                }
            }
        },
        _ => {},
    }
}

} // verus!
