use resp_server::codec::DecodeError;
use resp_server::command::{Command, CommandError};
use resp_server::server::{Step, TcpServer};
use resp_server::value::RespType;

fn bulk(s: &[u8]) -> RespType {
    RespType::BulkString(Some(s.to_vec()))
}

fn request(words: &[&[u8]]) -> RespType {
    RespType::Array(Some(words.iter().map(|w| bulk(w)).collect()))
}

fn reply(server: &mut TcpServer, input: &[u8]) -> Vec<u8> {
    match server.handleRequest(input) {
        Step::Reply(out, used) => {
            assert_eq!(used, input.len());
            out
        }
        other => panic!("expected a reply, got {:?}", other),
    }
}

#[test]
fn ping_without_argument() {
    let mut server = TcpServer::new();
    assert_eq!(reply(&mut server, b"*1\r\n$4\r\nPING\r\n"), b"+PONG\r\n".to_vec());
}

#[test]
fn ping_echoes_its_argument() {
    let mut server = TcpServer::new();
    assert_eq!(reply(&mut server, b"*2\r\n$4\r\nPING\r\n$5\r\nhello\r\n"), b"+hello\r\n".to_vec());
}

#[test]
fn set_then_get() {
    let mut server = TcpServer::new();
    assert_eq!(reply(&mut server, b"*3\r\n$3\r\nSET\r\n$3\r\nfoo\r\n$3\r\nbar\r\n"), b"+OK\r\n".to_vec());
    assert_eq!(reply(&mut server, b"*2\r\n$3\r\nGET\r\n$3\r\nfoo\r\n"), b"$3\r\nbar\r\n".to_vec());
}

#[test]
fn get_missing_key() {
    let mut server = TcpServer::new();
    assert_eq!(reply(&mut server, b"*2\r\n$3\r\nGET\r\n$7\r\nmissing\r\n"), b"$-1\r\n".to_vec());
}

#[test]
fn unknown_command_keeps_connection_open() {
    let mut server = TcpServer::new();
    assert_eq!(reply(&mut server, b"*1\r\n$5\r\nHELLO\r\n"), b"-ERR unknown command\r\n".to_vec());
    assert_eq!(reply(&mut server, b"*1\r\n$4\r\nPING\r\n"), b"+PONG\r\n".to_vec());
}

#[test]
fn store_semantics_through_commands() {
    let mut server = TcpServer::new();
    let r = server.handleCommand(Command::SetKey(b"a".to_vec(), b"1".to_vec()));
    assert_eq!(r, RespType::SimpleString(b"OK".to_vec()));
    assert_eq!(server.handleCommand(Command::Get(b"a".to_vec())), bulk(b"1"));
    assert_eq!(server.handleCommand(Command::Get(b"missing".to_vec())), RespType::BulkString(None));
    server.handleCommand(Command::SetKey(b"a".to_vec(), b"2".to_vec()));
    assert_eq!(server.handleCommand(Command::Get(b"a".to_vec())), bulk(b"2"));
}

#[test]
fn interleaved_writers_on_disjoint_keys_see_their_own_writes() {
    let mut server = TcpServer::new();
    for round in 0..5u8 {
        for worker in 0..4u8 {
            let key = vec![b'k', worker];
            let value = vec![b'v', worker, round];
            server.handleCommand(Command::SetKey(key.clone(), value.clone()));
            assert_eq!(server.handleCommand(Command::Get(key)), RespType::BulkString(Some(value)));
        }
    }
    for worker in 0..4u8 {
        let got = server.handleCommand(Command::Get(vec![b'k', worker]));
        assert_eq!(got, RespType::BulkString(Some(vec![b'v', worker, 4])));
    }
}

#[test]
fn parse_commands() {
    assert_eq!(Command::parse(&request(&[b"PING"])), Ok(Command::Ping(None)));
    assert_eq!(Command::parse(&request(&[b"PING", b"hi"])), Ok(Command::Ping(Some(b"hi".to_vec()))));
    assert_eq!(Command::parse(&request(&[b"GET", b"k"])), Ok(Command::Get(b"k".to_vec())));
    assert_eq!(
        Command::parse(&request(&[b"SET", b"k", b"v"])),
        Ok(Command::SetKey(b"k".to_vec(), b"v".to_vec()))
    );
}

#[test]
fn parse_refusals() {
    assert_eq!(Command::parse(&request(&[b"PING", b"a", b"b"])), Err(CommandError::WrongArity));
    assert_eq!(Command::parse(&request(&[b"GET"])), Err(CommandError::WrongArity));
    assert_eq!(Command::parse(&request(&[b"SET", b"k"])), Err(CommandError::WrongArity));
    assert_eq!(
        Command::parse(&request(&[b"ping"])),
        Err(CommandError::UnknownCommand(b"ping".to_vec()))
    );
    assert_eq!(Command::parse(&request(&[])), Err(CommandError::NotACommand));
    assert_eq!(Command::parse(&RespType::Integer(3)), Err(CommandError::NotACommand));
    let mixed = RespType::Array(Some(vec![bulk(b"GET"), RespType::Integer(1)]));
    assert_eq!(Command::parse(&mixed), Err(CommandError::NotACommand));
    let null = RespType::Array(Some(vec![bulk(b"GET"), RespType::BulkString(None)]));
    assert_eq!(Command::parse(&null), Err(CommandError::NotACommand));
}

#[test]
fn refusals_become_error_replies() {
    let mut server = TcpServer::new();
    assert_eq!(
        reply(&mut server, b"*1\r\n$3\r\nGET\r\n"),
        b"-ERR wrong number of arguments\r\n".to_vec()
    );
    assert_eq!(reply(&mut server, b":5\r\n"), b"-ERR not a command\r\n".to_vec());
}

#[test]
fn incomplete_request_waits_for_more() {
    let mut server = TcpServer::new();
    assert_eq!(server.handleRequest(b""), Step::NeedMore);
    assert_eq!(server.handleRequest(b"*2\r\n$3\r\nGET\r\n$3\r\nfo"), Step::NeedMore);
    assert_eq!(server.handleRequest(b"*1\r\n$4\r\nPI"), Step::NeedMore);
}

#[test]
fn malformed_request_closes_with_error() {
    let mut server = TcpServer::new();
    assert_eq!(server.handleRequest(b"!bad\r\n"), Step::Close(b"-ERR invalid type tag\r\n".to_vec()));
    assert_eq!(
        server.handleRequest(b"$3\r\nabcXY"),
        Step::Close(b"-ERR missing terminator\r\n".to_vec())
    );
    assert_eq!(server.handleRequest(b"*z\r\n"), Step::Close(b"-ERR malformed length\r\n".to_vec()));
}

#[test]
fn pipelined_requests_are_taken_one_at_a_time() {
    let mut server = TcpServer::new();
    let buf: &[u8] = b"*3\r\n$3\r\nSET\r\n$1\r\nk\r\n$1\r\nv\r\n*2\r\n$3\r\nGET\r\n$1\r\nk\r\n";
    let (first, used) = match server.handleRequest(buf) {
        Step::Reply(out, used) => (out, used),
        other => panic!("expected a reply, got {:?}", other),
    };
    assert_eq!(first, b"+OK\r\n".to_vec());
    assert_eq!(used, 27);
    assert_eq!(reply(&mut server, &buf[used..]), b"$1\r\nv\r\n".to_vec());
}

#[test]
fn error_messages() {
    assert_eq!(CommandError::WrongArity.message(), b"ERR wrong number of arguments".to_vec());
    assert_eq!(DecodeError::LengthMismatch.message(), b"ERR length mismatch".to_vec());
    assert_eq!(DecodeError::UnexpectedEof.message(), b"ERR unexpected end of input".to_vec());
}
