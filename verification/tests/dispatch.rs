use respkv::cache::Cache;
use respkv::handler::{
    command_named, on_read, on_write, process_command, process_command_at, respond, respond_at,
    Command, HandlerStep, ReadOutcome, WriteOutcome,
};
use respkv::resp::value::Value;
use respkv::server::{replica_target, Role, ServerInfo};

const REPLICATION_ID: &str = "8371b4fb1155b71f4a04d3e1bc3e18c4a990aeeb";

fn primary() -> ServerInfo {
    ServerInfo::primary(REPLICATION_ID.to_string())
}

fn bulk(s: &str) -> Value {
    Value::BulkString(s.to_string())
}

fn request(words: &[&str]) -> Value {
    Value::Array(words.iter().map(|w| bulk(w)).collect())
}

fn ask(db: &mut Cache, words: &[&str], now: u64) -> Vec<u8> {
    process_command_at(db, &request(words), &primary(), now)
}

#[test]
fn ping_is_answered_pong() {
    let mut db = Cache::new();
    assert_eq!(ask(&mut db, &["PING"], 0), b"+PONG\r\n");
    assert_eq!(ask(&mut db, &["ping"], 0), b"+PONG\r\n");
    assert_eq!(ask(&mut db, &["PiNg", "ignored"], 0), b"+PONG\r\n");
    assert_eq!(process_command(&mut db, &request(&["PING"]), &primary()), b"+PONG\r\n");
}

#[test]
fn echo_gives_the_argument_back_as_a_bulk_string() {
    let mut db = Cache::new();
    assert_eq!(ask(&mut db, &["ECHO", "hey"], 0), b"$3\r\nhey\r\n");
    assert_eq!(ask(&mut db, &["echo", ""], 0), b"$0\r\n\r\n");
    assert_eq!(ask(&mut db, &["ECHO"], 0), b"-ERR wrong number of arguments\r\n");
    let odd = Value::Array(vec![bulk("ECHO"), Value::Integer(5)]);
    assert_eq!(
        process_command_at(&mut db, &odd, &primary(), 0),
        b"-ERR wrong type of argument\r\n"
    );
}

#[test]
fn set_answers_ok_on_a_fresh_key_and_updated_on_a_held_one() {
    let mut db = Cache::new();
    assert_eq!(ask(&mut db, &["SET", "k", "v1"], 0), b"+OK\r\n");
    assert_eq!(ask(&mut db, &["SET", "k", "v2"], 0), b"+UPDATED\r\n");
    assert_eq!(ask(&mut db, &["set", "k", "v3"], 0), b"+UPDATED\r\n");
    assert_eq!(ask(&mut db, &["SET", "other", "v"], 0), b"+OK\r\n");
    assert_eq!(ask(&mut db, &["GET", "k"], 0), b"$2\r\nv3\r\n");
}

#[test]
fn get_gives_the_stored_bytes_or_the_null_bulk() {
    let mut db = Cache::new();
    assert_eq!(ask(&mut db, &["GET", "k"], 0), b"$-1\r\n");
    assert_eq!(ask(&mut db, &["SET", "k", "value"], 0), b"+OK\r\n");
    assert_eq!(ask(&mut db, &["GET", "k"], 0), b"$5\r\nvalue\r\n");
    assert_eq!(ask(&mut db, &["get", "k"], u64::MAX), b"$5\r\nvalue\r\n");
    assert_eq!(ask(&mut db, &["GET", "K"], 0), b"$-1\r\n");
    assert_eq!(ask(&mut db, &["GET"], 0), b"-ERR wrong number of arguments\r\n");
    assert_eq!(db.get_at(&b"$1\r\nk\r\n".to_vec(), 0), Some(b"$5\r\nvalue\r\n".to_vec()));
}

#[test]
fn get_on_a_key_without_expiry_answers_the_same_twice() {
    let mut db = Cache::new();
    ask(&mut db, &["SET", "k", "v"], 0);
    let first = process_command(&mut db, &request(&["GET", "k"]), &primary());
    let second = process_command(&mut db, &request(&["GET", "k"]), &primary());
    assert_eq!(first, b"$1\r\nv\r\n");
    assert_eq!(second, first);
}

#[test]
fn a_key_set_with_px_expires_when_its_milliseconds_have_passed() {
    let mut db = Cache::new();
    assert_eq!(ask(&mut db, &["SET", "k", "v", "PX", "100"], 1000), b"+OK\r\n");
    assert_eq!(ask(&mut db, &["GET", "k"], 1000), b"$1\r\nv\r\n");
    assert_eq!(ask(&mut db, &["GET", "k"], 1099), b"$1\r\nv\r\n");
    assert_eq!(ask(&mut db, &["GET", "k"], 1100), b"$1\r\nv\r\n");
    assert_eq!(ask(&mut db, &["GET", "k"], 1101), b"$-1\r\n");
    assert_eq!(ask(&mut db, &["GET", "k"], 1000), b"$-1\r\n");
    assert_eq!(ask(&mut db, &["SET", "k", "w"], 2000), b"+OK\r\n");
    assert_eq!(ask(&mut db, &["GET", "k"], u64::MAX), b"$1\r\nw\r\n");
}

#[test]
fn a_key_set_with_ex_expires_when_its_seconds_have_passed() {
    let mut db = Cache::new();
    assert_eq!(ask(&mut db, &["SET", "k", "v", "ex", "2"], 500), b"+OK\r\n");
    assert_eq!(ask(&mut db, &["GET", "k"], 2500), b"$1\r\nv\r\n");
    assert_eq!(ask(&mut db, &["GET", "k"], 2501), b"$-1\r\n");
}

#[test]
fn a_deadline_beyond_the_clock_is_held_at_its_end() {
    let mut db = Cache::new();
    assert_eq!(ask(&mut db, &["SET", "a", "v", "PX", "18446744073709551615"], 5), b"+OK\r\n");
    assert_eq!(ask(&mut db, &["SET", "b", "v", "EX", "18446744073709551615"], 5), b"+OK\r\n");
    assert_eq!(ask(&mut db, &["SET", "c", "v", "EX", "18446744073709551"], u64::MAX - 1), b"+OK\r\n");
    assert_eq!(ask(&mut db, &["GET", "a"], u64::MAX), b"$1\r\nv\r\n");
    assert_eq!(ask(&mut db, &["GET", "b"], u64::MAX), b"$1\r\nv\r\n");
    assert_eq!(ask(&mut db, &["GET", "c"], u64::MAX), b"$1\r\nv\r\n");
}

#[test]
fn set_with_a_modifier_that_cannot_be_read_writes_nothing() {
    let mut db = Cache::new();
    assert_eq!(ask(&mut db, &["SET", "k", "v", "PX"], 0), b"-ERR syntax error\r\n");
    assert_eq!(ask(&mut db, &["SET", "k", "v", "PX", "soon"], 0), b"-ERR syntax error\r\n");
    assert_eq!(ask(&mut db, &["SET", "k", "v", "PX", "-5"], 0), b"-ERR syntax error\r\n");
    assert_eq!(ask(&mut db, &["SET", "k", "v", "PX", "18446744073709551616"], 0), b"-ERR syntax error\r\n");
    assert_eq!(ask(&mut db, &["SET", "k", "v", "XX", "5"], 0), b"-ERR syntax error\r\n");
    let odd = Value::Array(vec![bulk("SET"), bulk("k"), bulk("v"), bulk("PX"), Value::Integer(5)]);
    assert_eq!(process_command_at(&mut db, &odd, &primary(), 0), b"-ERR syntax error\r\n");
    assert_eq!(ask(&mut db, &["SET", "k"], 0), b"-ERR wrong number of arguments\r\n");
    assert_eq!(ask(&mut db, &["GET", "k"], 0), b"$-1\r\n");
}

#[test]
fn info_reports_the_role_and_the_replication_fields() {
    let mut db = Cache::new();
    let text = format!("role:master\r\nmaster_replid:{}\r\nmaster_repl_offset:0", REPLICATION_ID);
    let expected = format!("${}\r\n{}\r\n", text.len(), text);
    assert_eq!(ask(&mut db, &["INFO"], 0), expected.as_bytes());
    assert_eq!(ask(&mut db, &["info", "replication"], 0), expected.as_bytes());
    let bare = ServerInfo::primary(String::new());
    assert_eq!(
        process_command_at(&mut db, &request(&["INFO"]), &bare, 0),
        b"$11\r\nrole:master\r\n"
    );
    let mut replica = ServerInfo::replica("abc".to_string(), "localhost".to_string(), 6379);
    replica.replication_offset = 42;
    assert_eq!(replica.role, Role::Replica);
    assert_eq!(
        process_command_at(&mut db, &request(&["INFO"]), &replica, 0),
        b"$52\r\nrole:slave\r\nmaster_replid:abc\r\nmaster_repl_offset:42\r\n"
    );
    assert_eq!(Role::Primary.name(), "master");
    assert_eq!(Role::Replica.name(), "slave");
}

#[test]
fn replconf_is_answered_ok_for_its_two_shapes() {
    let mut db = Cache::new();
    assert_eq!(ask(&mut db, &["REPLCONF", "listening-port", "6380"], 0), b"+OK\r\n");
    assert_eq!(ask(&mut db, &["replconf", "LISTENING-PORT", "0"], 0), b"+OK\r\n");
    assert_eq!(ask(&mut db, &["REPLCONF", "capa", "psync2"], 0), b"+OK\r\n");
    assert_eq!(ask(&mut db, &["REPLCONF", "listening-port", "65536"], 0), b"-ERR syntax error\r\n");
    assert_eq!(ask(&mut db, &["REPLCONF", "listening-port", "http"], 0), b"-ERR syntax error\r\n");
    assert_eq!(ask(&mut db, &["REPLCONF", "capa", "eof"], 0), b"-ERR syntax error\r\n");
    assert_eq!(ask(&mut db, &["REPLCONF", "capa"], 0), b"-ERR syntax error\r\n");
    assert_eq!(ask(&mut db, &["REPLCONF"], 0), b"-ERR syntax error\r\n");
    let odd = Value::Array(vec![bulk("REPLCONF"), bulk("capa"), Value::Null]);
    assert_eq!(process_command_at(&mut db, &odd, &primary(), 0), b"-ERR syntax error\r\n");
}

#[test]
fn an_unknown_command_is_answered_with_a_simple_error() {
    let mut db = Cache::new();
    let reply = respond_at(&mut db, b"*1\r\n$4\r\nFOOZ\r\n", &primary(), 0);
    assert_eq!(reply, b"-ERR Unknown command\r\n");
    assert_eq!(respond(&mut db, b"*1\r\n$4\r\nFOOZ\r\n", &primary())[0], b'-');
    assert_eq!(ask(&mut db, &[""], 0), b"-ERR Unknown command\r\n");
    assert_eq!(ask(&mut db, &["PINGS"], 0), b"-ERR Unknown command\r\n");
    assert_eq!(ask(&mut db, &["\u{17f}et", "k", "v"], 0), b"-ERR Unknown command\r\n");
}

#[test]
fn what_is_no_request_is_answered_with_a_simple_error() {
    let mut db = Cache::new();
    let info = primary();
    assert_eq!(process_command_at(&mut db, &Value::Null, &info, 0), b"-Err an error occured\r\n");
    assert_eq!(process_command_at(&mut db, &bulk("PING"), &info, 0), b"-Err an error occured\r\n");
    assert_eq!(
        process_command_at(&mut db, &Value::Array(vec![]), &info, 0),
        b"-ERR invalid command\r\n"
    );
    assert_eq!(
        process_command_at(&mut db, &Value::Array(vec![Value::Integer(1)]), &info, 0),
        b"-ERR invalid command\r\n"
    );
    assert_eq!(
        process_command_at(&mut db, &Value::Array(vec![Value::SimpleString("PING".to_string())]), &info, 0),
        b"-ERR invalid command\r\n"
    );
    assert_eq!(respond_at(&mut db, b"", &info, 0), b"-Err an error occured\r\n");
    assert_eq!(respond_at(&mut db, b"garbage", &info, 0), b"-Err an error occured\r\n");
    assert_eq!(respond_at(&mut db, b"*-1\r\n", &info, 0), b"-Err an error occured\r\n");
}

#[test]
fn the_names_of_the_commands_are_told_apart() {
    assert_eq!(command_named(&"ping".to_string()), Command::Ping);
    assert_eq!(command_named(&"Echo".to_string()), Command::Echo);
    assert_eq!(command_named(&"SET".to_string()), Command::SetKey);
    assert_eq!(command_named(&"gEt".to_string()), Command::GetKey);
    assert_eq!(command_named(&"info".to_string()), Command::Info);
    assert_eq!(command_named(&"ReplConf".to_string()), Command::Replconf);
    assert_eq!(command_named(&"PSYNC".to_string()), Command::Unknown);
}

#[test]
fn requests_are_served_from_their_bytes() {
    let mut db = Cache::new();
    let info = primary();
    assert_eq!(respond_at(&mut db, b"*1\r\n$4\r\nPING\r\n", &info, 0), b"+PONG\r\n");
    assert_eq!(
        respond_at(&mut db, b"*3\r\n$3\r\nSET\r\n$3\r\nfoo\r\n$3\r\nbar\r\n", &info, 0),
        b"+OK\r\n"
    );
    assert_eq!(respond_at(&mut db, b"*2\r\n$3\r\nGET\r\n$3\r\nfoo\r\n", &info, 0), b"$3\r\nbar\r\n");
    assert_eq!(
        respond_at(&mut db, b"*5\r\n$3\r\nSET\r\n$3\r\nfoo\r\n$3\r\nbaz\r\n$2\r\npx\r\n$3\r\n100\r\n", &info, 50),
        b"+UPDATED\r\n"
    );
    assert_eq!(respond_at(&mut db, b"*2\r\n$3\r\nGET\r\n$3\r\nfoo\r\n", &info, 151), b"$-1\r\n");
    assert_eq!(respond(&mut db, b"*2\r\n$4\r\nECHO\r\n$2\r\nhi\r\n", &info), b"$2\r\nhi\r\n");
}

#[test]
fn a_read_decides_the_next_step_of_the_handler() {
    let mut db = Cache::new();
    let info = primary();
    assert_eq!(
        on_read(&mut db, ReadOutcome::Data, b"*1\r\n$4\r\nPING\r\n", &info),
        HandlerStep::Reply(b"+PONG\r\n".to_vec())
    );
    assert_eq!(
        on_read(&mut db, ReadOutcome::Data, b"*3\r\n$3\r\nSET\r\n$1\r\nk\r\n$1\r\nv\r\n", &info),
        HandlerStep::Reply(b"+OK\r\n".to_vec())
    );
    let set = b"*3\r\n$3\r\nSET\r\n$1\r\nz\r\n$1\r\nv\r\n";
    assert_eq!(on_read(&mut db, ReadOutcome::End, set, &info), HandlerStep::Wait);
    assert_eq!(on_read(&mut db, ReadOutcome::WouldBlock, set, &info), HandlerStep::Wait);
    assert_eq!(on_read(&mut db, ReadOutcome::Failed, set, &info), HandlerStep::Close);
    assert_eq!(db.get_at(&b"$1\r\nz\r\n".to_vec(), 0), None);
    assert_eq!(db.get_at(&b"$1\r\nk\r\n".to_vec(), 0), Some(b"$1\r\nv\r\n".to_vec()));
}

#[test]
fn a_write_decides_the_next_step_of_the_handler() {
    assert_eq!(on_write(WriteOutcome::Written), HandlerStep::Read);
    assert_eq!(on_write(WriteOutcome::WouldBlock), HandlerStep::Wait);
    assert_eq!(on_write(WriteOutcome::Failed), HandlerStep::Close);
}

#[test]
fn the_primary_of_a_replica_is_read_from_host_and_port() {
    assert_eq!(replica_target(b"localhost 6379"), Some(("localhost".to_string(), 6379)));
    assert_eq!(replica_target(b"10.0.0.7 6380 extra"), Some(("10.0.0.7".to_string(), 6380)));
    assert_eq!(replica_target(b" 1"), Some((String::new(), 1)));
    assert_eq!(replica_target(b"localhost"), None);
    assert_eq!(replica_target(b"localhost "), None);
    assert_eq!(replica_target(b"localhost  6379"), None);
    assert_eq!(replica_target(b"localhost 65536"), None);
    assert_eq!(replica_target(b"localhost port"), None);
    assert_eq!(replica_target(b"\xff 6379"), None);
    assert_eq!(replica_target(b""), None);
}
