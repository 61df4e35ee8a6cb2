//! The server side: runs commands against the store and takes one request
//! at a time off a connection's buffer.
use vstd::prelude::*;
use crate::codec::{decode, decode_spec, encode, encode_value, DecodeError};
use crate::command::{parse_request, Command, CommandError, Refusal, Request};
use crate::store::{copy_bytes, Store};
use crate::value::{RespType, RespValue};

verus! {

/// The text of the error reply for a command that cannot run.
pub open spec fn refusal_text(e: Refusal) -> Seq<u8> {
    match e {
        Refusal::NotACommand => seq![69u8, 82u8, 82u8, 32u8, 110u8, 111u8, 116u8, 32u8, 97u8, 32u8, 99u8, 111u8, 109u8, 109u8, 97u8, 110u8, 100u8],
        Refusal::WrongArity => seq![69u8, 82u8, 82u8, 32u8, 119u8, 114u8, 111u8, 110u8, 103u8, 32u8, 110u8, 117u8, 109u8, 98u8, 101u8, 114u8, 32u8, 111u8, 102u8, 32u8, 97u8, 114u8, 103u8, 117u8, 109u8, 101u8, 110u8, 116u8, 115u8],
        Refusal::UnknownCommand(_) => seq![69u8, 82u8, 82u8, 32u8, 117u8, 110u8, 107u8, 110u8, 111u8, 119u8, 110u8, 32u8, 99u8, 111u8, 109u8, 109u8, 97u8, 110u8, 100u8],
    }
}

/// The text of the error reply for input that is malformed.
pub open spec fn framing_text(e: DecodeError) -> Seq<u8> {
    match e {
        DecodeError::UnexpectedEof => seq![69u8, 82u8, 82u8, 32u8, 117u8, 110u8, 101u8, 120u8, 112u8, 101u8, 99u8, 116u8, 101u8, 100u8, 32u8, 101u8, 110u8, 100u8, 32u8, 111u8, 102u8, 32u8, 105u8, 110u8, 112u8, 117u8, 116u8],
        DecodeError::InvalidTypeTag => seq![69u8, 82u8, 82u8, 32u8, 105u8, 110u8, 118u8, 97u8, 108u8, 105u8, 100u8, 32u8, 116u8, 121u8, 112u8, 101u8, 32u8, 116u8, 97u8, 103u8],
        DecodeError::UnterminatedLine => seq![69u8, 82u8, 82u8, 32u8, 117u8, 110u8, 116u8, 101u8, 114u8, 109u8, 105u8, 110u8, 97u8, 116u8, 101u8, 100u8, 32u8, 108u8, 105u8, 110u8, 101u8],
        DecodeError::MalformedInteger => seq![69u8, 82u8, 82u8, 32u8, 109u8, 97u8, 108u8, 102u8, 111u8, 114u8, 109u8, 101u8, 100u8, 32u8, 105u8, 110u8, 116u8, 101u8, 103u8, 101u8, 114u8],
        DecodeError::MalformedLength => seq![69u8, 82u8, 82u8, 32u8, 109u8, 97u8, 108u8, 102u8, 111u8, 114u8, 109u8, 101u8, 100u8, 32u8, 108u8, 101u8, 110u8, 103u8, 116u8, 104u8],
        DecodeError::LengthMismatch => seq![69u8, 82u8, 82u8, 32u8, 108u8, 101u8, 110u8, 103u8, 116u8, 104u8, 32u8, 109u8, 105u8, 115u8, 109u8, 97u8, 116u8, 99u8, 104u8],
        DecodeError::MissingTerminator => seq![69u8, 82u8, 82u8, 32u8, 109u8, 105u8, 115u8, 115u8, 105u8, 110u8, 103u8, 32u8, 116u8, 101u8, 114u8, 109u8, 105u8, 110u8, 97u8, 116u8, 111u8, 114u8],
    }
}

impl CommandError {
    /// The text of the error reply for this refusal.
    pub fn message(&self) -> (r: Vec<u8>)
        ensures
            r@ == refusal_text(self@),
    {
        match self {
        CommandError::NotACommand => copy_bytes(&[69u8, 82, 82, 32, 110, 111, 116, 32, 97, 32, 99, 111, 109, 109, 97, 110, 100]),
        CommandError::WrongArity => copy_bytes(&[69u8, 82, 82, 32, 119, 114, 111, 110, 103, 32, 110, 117, 109, 98, 101, 114, 32, 111, 102, 32, 97, 114, 103, 117, 109, 101, 110, 116, 115]),
        CommandError::UnknownCommand(_) => copy_bytes(&[69u8, 82, 82, 32, 117, 110, 107, 110, 111, 119, 110, 32, 99, 111, 109, 109, 97, 110, 100]),
        }
    }
}

impl DecodeError {
    /// The text of the error reply for this fault.
    pub fn message(&self) -> (r: Vec<u8>)
        ensures
            r@ == framing_text(*self),
    {
        match self {
        DecodeError::UnexpectedEof => copy_bytes(&[69u8, 82, 82, 32, 117, 110, 101, 120, 112, 101, 99, 116, 101, 100, 32, 101, 110, 100, 32, 111, 102, 32, 105, 110, 112, 117, 116]),
        DecodeError::InvalidTypeTag => copy_bytes(&[69u8, 82, 82, 32, 105, 110, 118, 97, 108, 105, 100, 32, 116, 121, 112, 101, 32, 116, 97, 103]),
        DecodeError::UnterminatedLine => copy_bytes(&[69u8, 82, 82, 32, 117, 110, 116, 101, 114, 109, 105, 110, 97, 116, 101, 100, 32, 108, 105, 110, 101]),
        DecodeError::MalformedInteger => copy_bytes(&[69u8, 82, 82, 32, 109, 97, 108, 102, 111, 114, 109, 101, 100, 32, 105, 110, 116, 101, 103, 101, 114]),
        DecodeError::MalformedLength => copy_bytes(&[69u8, 82, 82, 32, 109, 97, 108, 102, 111, 114, 109, 101, 100, 32, 108, 101, 110, 103, 116, 104]),
        DecodeError::LengthMismatch => copy_bytes(&[69u8, 82, 82, 32, 108, 101, 110, 103, 116, 104, 32, 109, 105, 115, 109, 97, 116, 99, 104]),
        DecodeError::MissingTerminator => copy_bytes(&[69u8, 82, 82, 32, 109, 105, 115, 115, 105, 110, 103, 32, 116, 101, 114, 109, 105, 110, 97, 116, 111, 114]),
        }
    }
}

/// `PONG`
pub open spec fn pong() -> Seq<u8> {
    seq![80u8, 79u8, 78u8, 71u8]
}

/// `OK`
pub open spec fn ok_text() -> Seq<u8> {
    seq![79u8, 75u8]
}

/// What a command replies, given the store's contents before it.
pub open spec fn reply_of(c: Request, m: Map<Seq<u8>, Seq<u8>>) -> RespValue {
    match c {
        Request::Ping(None) => RespValue::SimpleString(pong()),
        Request::Ping(Some(a)) => RespValue::SimpleString(a),
        Request::Get(k) => RespValue::BulkString(
            if m.contains_key(k) {
                Some(m[k])
            } else {
                None
            },
        ),
        Request::SetKey(_, _) => RespValue::SimpleString(ok_text()),
    }
}

/// The store's contents after a command.
pub open spec fn store_after(c: Request, m: Map<Seq<u8>, Seq<u8>>) -> Map<Seq<u8>, Seq<u8>> {
    match c {
        Request::SetKey(k, v) => m.insert(k, v),
        _ => m,
    }
}

/// The reply to a decoded request, and the store's contents after it.
pub open spec fn respond(v: RespValue, m: Map<Seq<u8>, Seq<u8>>) -> (RespValue, Map<Seq<u8>, Seq<u8>>) {
    match parse_request(v) {
        Ok(c) => (reply_of(c, m), store_after(c, m)),
        Err(e) => (RespValue::Error(refusal_text(e)), m),
    }
}

/// What a connection does after one look at its buffer.
#[derive(Debug, Clone, PartialEq, Eq)]
pub enum Step {
    /// Write these bytes, drop this many bytes from the front of the buffer,
    /// and look again.
    Reply(Vec<u8>, usize),
    /// Wait for more bytes; if the peer has closed, end quietly.
    NeedMore,
    /// Write these bytes and close the connection.
    Close(Vec<u8>),
}

/// The server's state: the store that every connection shares.
pub struct TcpServer {
    store: Store,
}

impl View for TcpServer {
    type V = Map<Seq<u8>, Seq<u8>>;

    closed spec fn view(&self) -> Map<Seq<u8>, Seq<u8>> {
        self.store@
    }
}

/// The reply to PING: its argument, as a status line.
fn pingHandler(arg: Vec<u8>) -> (r: RespType)
    ensures
        r.model() == RespValue::SimpleString(arg@),
{
    RespType::SimpleString(arg)
}

impl TcpServer {
    /// The store is well formed.
    pub closed spec fn wf(&self) -> bool {
        self.store.wf()
    }

    /// A server with an empty store.
    pub fn new() -> (r: TcpServer)
        ensures
            r.wf(),
            r@ == Map::<Seq<u8>, Seq<u8>>::empty(),
    {
        TcpServer { store: Store::new() }
    }

    /// Runs a command against the store and gives its reply.
    pub fn handleCommand(&mut self, command: Command) -> (r: RespType)
        requires
            old(self).wf(),
        ensures
            final(self).wf(),
            r.model() == reply_of(command@, old(self)@),
            final(self)@ == store_after(command@, old(self)@),
    {
        match command {
            Command::Ping(None) => pingHandler(copy_bytes(&[80u8, 79, 78, 71])),
            Command::Ping(Some(arg)) => pingHandler(arg),
            Command::Get(key) => RespType::BulkString(self.store.get(key.as_slice())),
            Command::SetKey(key, value) => {
                self.store.set(key, value);
                RespType::SimpleString(copy_bytes(&[79u8, 75]))
            },
        }
    }

    /// Takes the request at the front of `request`, if it is complete, and
    /// says what the connection does next: reply and go on, wait for more
    /// bytes, or report malformed input and close.
    pub fn handleRequest(&mut self, request: &[u8]) -> (r: Step)
        requires
            old(self).wf(),
        ensures
            final(self).wf(),
            match decode_spec(request@) {
                Ok((v, used)) => r matches Step::Reply(out, n) && n == used && out@ == encode_value(
                    respond(v, old(self)@).0,
                ) && final(self)@ == respond(v, old(self)@).1,
                Err(x) => final(self)@ == old(self)@ && (if x.incomplete() {
                    r is NeedMore
                } else {
                    r matches Step::Close(out) && out@ == encode_value(RespValue::Error(framing_text(x)))
                }),
            },
    {
        match decode(request) {
            Err(x) => {
                if x.is_incomplete() {
                    Step::NeedMore
                } else {
                    Step::Close(encode(RespType::Error(x.message())))
                }
            },
            Ok((value, rest)) => {
                let used = request.len() - rest.len();
                let reply = match Command::parse(&value) {
                    Ok(command) => self.handleCommand(command),
                    Err(e) => RespType::Error(e.message()),
                };
                Step::Reply(encode(reply), used)
            },
        }
    }
}

} // verus!
