//! Commands, as clients send them: an array of bulk strings whose first
//! element names the command. Names match case-sensitively, in upper case.
use vstd::prelude::*;
use crate::codec::{lemma_array_model, models};
use crate::store::copy_bytes;
use crate::value::{RespType, RespValue};

verus! {

/// A command as the protocol sees it.
pub enum Request {
    Ping(Option<Seq<u8>>),
    Get(Seq<u8>),
    SetKey(Seq<u8>, Seq<u8>),
}

/// Why a value is not a command that can run.
pub enum Refusal {
    NotACommand,
    WrongArity,
    UnknownCommand(Seq<u8>),
}

/// A validated command.
#[derive(Debug, Clone, PartialEq, Eq)]
pub enum Command {
    /// `PING [message]`
    Ping(Option<Vec<u8>>),
    /// `GET key`
    Get(Vec<u8>),
    /// `SET key value`
    SetKey(Vec<u8>, Vec<u8>),
}

/// Why a decoded value is not a command that can run.
#[derive(Debug, Clone, PartialEq, Eq)]
pub enum CommandError {
    /// The value is not a non-empty array of bulk strings.
    NotACommand,
    /// The command has the wrong number of arguments.
    WrongArity,
    /// No command has this name.
    UnknownCommand(Vec<u8>),
}

impl View for Command {
    type V = Request;

    open spec fn view(&self) -> Request {
        match self {
            Command::Ping(None) => Request::Ping(None),
            Command::Ping(Some(m)) => Request::Ping(Some(m@)),
            Command::Get(k) => Request::Get(k@),
            Command::SetKey(k, v) => Request::SetKey(k@, v@),
        }
    }
}

impl View for CommandError {
    type V = Refusal;

    open spec fn view(&self) -> Refusal {
        match self {
            CommandError::NotACommand => Refusal::NotACommand,
            CommandError::WrongArity => Refusal::WrongArity,
            CommandError::UnknownCommand(n) => Refusal::UnknownCommand(n@),
        }
    }
}

/// `PING`
pub open spec fn ping_name() -> Seq<u8> {
    seq![80u8, 73u8, 78u8, 71u8]
}

/// `GET`
pub open spec fn get_name() -> Seq<u8> {
    seq![71u8, 69u8, 84u8]
}

/// `SET`
pub open spec fn set_name() -> Seq<u8> {
    seq![83u8, 69u8, 84u8]
}

/// A bulk string that is not null.
pub open spec fn is_bulk(v: RespValue) -> bool {
    v matches RespValue::BulkString(Some(_))
}

/// The bytes of a bulk string.
pub open spec fn bulk_text(v: RespValue) -> Seq<u8> {
    match v {
        RespValue::BulkString(Some(b)) => b,
        _ => Seq::empty(),
    }
}

/// The command that a decoded value asks for.
pub open spec fn parse_request(v: RespValue) -> Result<Request, Refusal> {
    match v {
        RespValue::Array(Some(items)) => {
            if items.len() == 0 || exists|i: int| 0 <= i < items.len() && !is_bulk(#[trigger] items[i]) {
                Err(Refusal::NotACommand)
            } else {
                let name = bulk_text(items[0]);
                let n = items.len() - 1;
                if name == ping_name() {
                    if n == 0 {
                        Ok(Request::Ping(None))
                    } else if n == 1 {
                        Ok(Request::Ping(Some(bulk_text(items[1]))))
                    } else {
                        Err(Refusal::WrongArity)
                    }
                } else if name == get_name() {
                    if n == 1 {
                        Ok(Request::Get(bulk_text(items[1])))
                    } else {
                        Err(Refusal::WrongArity)
                    }
                } else if name == set_name() {
                    if n == 2 {
                        Ok(Request::SetKey(bulk_text(items[1]), bulk_text(items[2])))
                    } else {
                        Err(Refusal::WrongArity)
                    }
                } else {
                    Err(Refusal::UnknownCommand(name))
                }
            }
        },
        _ => Err(Refusal::NotACommand),
    }
}

/// What a parse result stands for.
pub open spec fn parsed(r: Result<Command, CommandError>) -> Result<Request, Refusal> {
    match r {
        Ok(c) => Ok(c@),
        Err(e) => Err(e@),
    }
}

/// The bytes of the bulk string `items[i]`.
fn arg(items: &Vec<RespType>, i: usize) -> (r: Vec<u8>)
    requires
        i < items@.len(),
        is_bulk(models(items@)[i as int]),
    ensures
        r@ == bulk_text(models(items@)[i as int]),
{
    match &items[i] {
        RespType::BulkString(Some(b)) => copy_bytes(b.as_slice()),
        _ => Vec::new(),
    }
}

impl Command {
    /// The command that a decoded value asks for, or why there is none.
    pub fn parse(value: &RespType) -> (r: Result<Command, CommandError>)
        ensures
            parsed(r) == parse_request(value.model()),
    {
        let items = match value {
            RespType::Array(Some(items)) => items,
            _ => {
                return Err(CommandError::NotACommand);
            },
        };
        proof {
            lemma_array_model(*items);
        }
        let ghost ms = models(items@);
        if items.len() == 0 {
            return Err(CommandError::NotACommand);
        }
        let mut i: usize = 0;
        while i < items.len()
            invariant
                i <= items@.len(),
                items@.len() > 0,
                ms == models(items@),
                value.model() == RespValue::Array(Some(ms)),
                forall|j: int| 0 <= j < i ==> is_bulk(#[trigger] ms[j]),
            decreases items@.len() - i,
        {
            match &items[i] {
                RespType::BulkString(Some(_)) => {},
                _ => {
                    assert(!is_bulk(ms[i as int]));
                    return Err(CommandError::NotACommand);
                },
            }
            i = i + 1;
        }
        let name = arg(items, 0);
        let n: usize = items.len() - 1;
        if name.len() == 4 && name[0] == 80u8 && name[1] == 73u8 && name[2] == 78u8 && name[3] == 71u8 {
            assert(name@ =~= ping_name());
            if n == 0 {
                Ok(Command::Ping(None))
            } else if n == 1 {
                Ok(Command::Ping(Some(arg(items, 1))))
            } else {
                Err(CommandError::WrongArity)
            }
        } else if name.len() == 3 && name[0] == 71u8 && name[1] == 69u8 && name[2] == 84u8 {
            assert(name@ =~= get_name());
            if n == 1 {
                Ok(Command::Get(arg(items, 1)))
            } else {
                Err(CommandError::WrongArity)
            }
        } else if name.len() == 3 && name[0] == 83u8 && name[1] == 69u8 && name[2] == 84u8 {
            assert(name@ =~= set_name());
            if n == 2 {
                Ok(Command::SetKey(arg(items, 1), arg(items, 2)))
            } else {
                Err(CommandError::WrongArity)
            }
        } else {
            assert(name@ != ping_name() && name@ != get_name() && name@ != set_name()) by {
                if name@ == ping_name() {
                    assert(name@[0] == ping_name()[0]);
                }
            }
            Err(CommandError::UnknownCommand(name))
        }
    }
}

} // verus!
