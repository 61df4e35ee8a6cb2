use vstd::prelude::*;

verus! {

/// A RESP value as the protocol sees it.
pub enum RespValue {
    SimpleString(Seq<u8>),
    Error(Seq<u8>),
    Integer(i64),
    BulkString(Option<Seq<u8>>),
    Array(Option<Seq<RespValue>>),
}

/// A RESP value held in memory.
#[derive(Debug, PartialEq, Eq)]
pub enum RespType {
    /// A status line: `+text\r\n`.
    SimpleString(Vec<u8>),
    /// An error report: `-text\r\n`.
    Error(Vec<u8>),
    /// A signed integer: `:n\r\n`.
    Integer(i64),
    /// A binary-safe string, or the null bulk string.
    BulkString(Option<Vec<u8>>),
    /// A sequence of values, or the null array.
    Array(Option<Vec<RespType>>),
}

impl RespType {
    /// The protocol value that this in-memory value stands for.
    pub open spec fn model(self) -> RespValue
        decreases self,
    {
        match self {
            RespType::SimpleString(s) => RespValue::SimpleString(s@),
            RespType::Error(s) => RespValue::Error(s@),
            RespType::Integer(n) => RespValue::Integer(n),
            RespType::BulkString(None) => RespValue::BulkString(None),
            RespType::BulkString(Some(s)) => RespValue::BulkString(Some(s@)),
            RespType::Array(None) => RespValue::Array(None),
            RespType::Array(Some(items)) => RespValue::Array(
                Some(
                    Seq::new(
                        items.len() as nat,
                        |i: int|
                            if 0 <= i < items.len() {
                                proof {
                                    broadcast use vstd::std_specs::vec::axiom_vec_index_decreases;
                                }
                                items[i].model()
                            } else {
                                RespValue::Integer(0)
                            },
                    ),
                ),
            ),
        }
    }
}

} // verus!
