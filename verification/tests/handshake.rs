use respkv::cache::Cache;
use respkv::handler::respond_at;
use respkv::replication::{Handshake, Progress};
use respkv::server::ServerInfo;

#[test]
fn the_handshake_sends_its_three_requests() {
    assert_eq!(Handshake::Ping.request(6380), Some(b"*1\r\n$4\r\nPING\r\n\r\n".to_vec()));
    assert_eq!(
        Handshake::AnnouncePort.request(6380),
        Some(b"*3\r\n$8\r\nREPLCONF\r\n$14\r\nlistening-port\r\n$4\r\n6380\r\n\r\n".to_vec())
    );
    assert_eq!(
        Handshake::AnnouncePort.request(0),
        Some(b"*3\r\n$8\r\nREPLCONF\r\n$14\r\nlistening-port\r\n$1\r\n0\r\n\r\n".to_vec())
    );
    assert_eq!(
        Handshake::AnnounceCapability.request(6380),
        Some(b"*3\r\n$8\r\nREPLCONF\r\n$4\r\ncapa\r\n$6\r\npsync2\r\n\r\n".to_vec())
    );
    assert_eq!(Handshake::Done.request(6380), None);
}

#[test]
fn the_handshake_completes_on_pong_ok_ok() {
    let replies: [&[u8]; 3] = [b"+PONG\r\n", b"+OK\r\n", b"+OK\r\n"];
    let mut step = Handshake::start();
    for reply in replies {
        assert!(!step.is_done());
        assert!(step.request(6380).is_some());
        match step.on_reply(reply) {
            Progress::Advance(next) => step = next,
            other => panic!("{:?}", other),
        }
    }
    assert!(step.is_done());
    assert_eq!(step, Handshake::Done);
}

#[test]
fn the_handshake_fails_on_a_deviation_at_the_second_step() {
    let step = Handshake::start();
    assert_eq!(step.on_reply(b"+PONG\r\n"), Progress::Advance(Handshake::AnnouncePort));
    let step = Handshake::AnnouncePort;
    assert_eq!(step.on_reply(b"-ERR unknown\r\n"), Progress::Failed);
    assert_eq!(step.on_reply(b"+PONG\r\n"), Progress::Failed);
    assert_eq!(step.on_reply(b"+OK\r\n+OK\r\n"), Progress::Failed);
    assert_eq!(step.on_reply(b"+ok\r\n"), Progress::Failed);
}

#[test]
fn the_handshake_fails_on_any_other_reply_at_each_step() {
    assert_eq!(Handshake::Ping.on_reply(b"+OK\r\n"), Progress::Failed);
    assert_eq!(Handshake::Ping.on_reply(b"+PONG\r\nx"), Progress::Failed);
    assert_eq!(Handshake::Ping.on_reply(b"$4\r\nPONG\r\n"), Progress::Failed);
    assert_eq!(Handshake::AnnounceCapability.on_reply(b"+NO\r\n"), Progress::Failed);
    assert_eq!(Handshake::AnnounceCapability.on_reply(b"+OK\r\n"), Progress::Advance(Handshake::Done));
    assert_eq!(Handshake::Done.on_reply(b"+OK\r\n"), Progress::Failed);
    assert_eq!(Handshake::Done.on_reply(b""), Progress::Failed);
}

#[test]
fn the_handshake_reads_on_while_a_reply_is_incomplete() {
    assert_eq!(Handshake::Ping.on_reply(b""), Progress::Incomplete);
    assert_eq!(Handshake::Ping.on_reply(b"+PO"), Progress::Incomplete);
    assert_eq!(Handshake::Ping.on_reply(b"+PONG\r"), Progress::Incomplete);
    assert_eq!(Handshake::Ping.on_reply(b"+PONG\r\n"), Progress::Advance(Handshake::AnnouncePort));
    assert_eq!(Handshake::AnnouncePort.on_reply(b"+O"), Progress::Incomplete);
    assert_eq!(Handshake::AnnouncePort.on_reply(b"+P"), Progress::Failed);
}

#[test]
fn a_primary_answers_the_handshake_of_a_replica() {
    let mut db = Cache::new();
    let info = ServerInfo::primary("8371b4fb1155b71f4a04d3e1bc3e18c4a990aeeb".to_string());
    let mut step = Handshake::start();
    let mut rounds = 0;
    while let Some(request) = step.request(6380) {
        let reply = respond_at(&mut db, &request, &info, 0);
        match step.on_reply(&reply) {
            Progress::Advance(next) => step = next,
            other => panic!("{:?}", other),
        }
        rounds += 1;
    }
    assert_eq!(rounds, 3);
    assert!(step.is_done());
}
