use resp_server::codec::{decode, encode, DecodeError};
use resp_server::value::RespType;

fn bulk(s: &[u8]) -> RespType {
    RespType::BulkString(Some(s.to_vec()))
}

#[test]
fn encode_simple_string() {
    assert_eq!(encode(RespType::SimpleString(b"OK".to_vec())), b"+OK\r\n".to_vec());
}

#[test]
fn encode_error() {
    assert_eq!(encode(RespType::Error(b"ERR bad".to_vec())), b"-ERR bad\r\n".to_vec());
}

#[test]
fn encode_integers() {
    assert_eq!(encode(RespType::Integer(0)), b":0\r\n".to_vec());
    assert_eq!(encode(RespType::Integer(1000)), b":1000\r\n".to_vec());
    assert_eq!(encode(RespType::Integer(-42)), b":-42\r\n".to_vec());
    assert_eq!(encode(RespType::Integer(i64::MIN)), b":-9223372036854775808\r\n".to_vec());
    assert_eq!(encode(RespType::Integer(i64::MAX)), b":9223372036854775807\r\n".to_vec());
}

#[test]
fn encode_bulk_strings() {
    assert_eq!(encode(bulk(b"hello")), b"$5\r\nhello\r\n".to_vec());
    assert_eq!(encode(bulk(b"")), b"$0\r\n\r\n".to_vec());
    assert_eq!(encode(bulk(b"a\r\nb")), b"$4\r\na\r\nb\r\n".to_vec());
    assert_eq!(encode(RespType::BulkString(None)), b"$-1\r\n".to_vec());
}

#[test]
fn encode_arrays() {
    let v = RespType::Array(Some(vec![bulk(b"GET"), bulk(b"foo")]));
    assert_eq!(encode(v), b"*2\r\n$3\r\nGET\r\n$3\r\nfoo\r\n".to_vec());
    assert_eq!(encode(RespType::Array(None)), b"*-1\r\n".to_vec());
    assert_eq!(encode(RespType::Array(Some(vec![]))), b"*0\r\n".to_vec());
    let nested = RespType::Array(Some(vec![
        RespType::Integer(1),
        RespType::Array(Some(vec![RespType::SimpleString(b"x".to_vec())])),
    ]));
    assert_eq!(encode(nested), b"*2\r\n:1\r\n*1\r\n+x\r\n".to_vec());
}

#[test]
fn decode_each_shape() {
    assert_eq!(decode(b"+OK\r\n"), Ok((RespType::SimpleString(b"OK".to_vec()), &b""[..])));
    assert_eq!(decode(b"-ERR x\r\n"), Ok((RespType::Error(b"ERR x".to_vec()), &b""[..])));
    assert_eq!(decode(b":-17\r\n"), Ok((RespType::Integer(-17), &b""[..])));
    assert_eq!(decode(b":+5\r\n"), Ok((RespType::Integer(5), &b""[..])));
    assert_eq!(decode(b"$3\r\nfoo\r\n"), Ok((bulk(b"foo"), &b""[..])));
    assert_eq!(decode(b"$-1\r\n"), Ok((RespType::BulkString(None), &b""[..])));
    assert_eq!(decode(b"*-1\r\n"), Ok((RespType::Array(None), &b""[..])));
    assert_eq!(
        decode(b"*2\r\n$4\r\nPING\r\n:7\r\nrest"),
        Ok((RespType::Array(Some(vec![bulk(b"PING"), RespType::Integer(7)])), &b"rest"[..]))
    );
}

#[test]
fn decode_bulk_is_binary_safe() {
    assert_eq!(decode(b"$4\r\na\r\nb\r\n"), Ok((bulk(b"a\r\nb"), &b""[..])));
}

#[test]
fn decode_integer_limits() {
    assert_eq!(decode(b":-9223372036854775808\r\n"), Ok((RespType::Integer(i64::MIN), &b""[..])));
    assert_eq!(decode(b":9223372036854775807\r\n"), Ok((RespType::Integer(i64::MAX), &b""[..])));
    assert_eq!(decode(b":9223372036854775808\r\n"), Err(DecodeError::MalformedInteger));
    assert_eq!(decode(b":99999999999999999999999\r\n"), Err(DecodeError::MalformedInteger));
}

#[test]
fn decode_errors() {
    assert_eq!(decode(b""), Err(DecodeError::UnexpectedEof));
    assert_eq!(decode(b"?x\r\n"), Err(DecodeError::InvalidTypeTag));
    assert_eq!(decode(b"+OK"), Err(DecodeError::UnterminatedLine));
    assert_eq!(decode(b":12a\r\n"), Err(DecodeError::MalformedInteger));
    assert_eq!(decode(b":\r\n"), Err(DecodeError::MalformedInteger));
    assert_eq!(decode(b"$x\r\n"), Err(DecodeError::MalformedLength));
    assert_eq!(decode(b"$-2\r\n"), Err(DecodeError::MalformedLength));
    assert_eq!(decode(b"*-5\r\n"), Err(DecodeError::MalformedLength));
    assert_eq!(decode(b"$3\r\nabcXY"), Err(DecodeError::MissingTerminator));
    assert_eq!(decode(b"*2\r\n$1\r\na\r\n"), Err(DecodeError::UnexpectedEof));
}

#[test]
fn decode_length_discipline() {
    assert_eq!(decode(b"$3\r\nab\r\n"), Err(DecodeError::LengthMismatch));
    assert!(DecodeError::LengthMismatch.is_incomplete());
}

#[test]
fn incomplete_and_malformed_are_told_apart() {
    assert!(DecodeError::UnexpectedEof.is_incomplete());
    assert!(DecodeError::UnterminatedLine.is_incomplete());
    assert!(!DecodeError::InvalidTypeTag.is_incomplete());
    assert!(!DecodeError::MalformedInteger.is_incomplete());
    assert!(!DecodeError::MalformedLength.is_incomplete());
    assert!(!DecodeError::MissingTerminator.is_incomplete());
}

#[test]
fn round_trip_of_each_shape() {
    let values = vec![
        RespType::SimpleString(b"PONG".to_vec()),
        RespType::Error(b"ERR no".to_vec()),
        RespType::Integer(-123456789),
        bulk(b"bin\r\nary"),
        RespType::BulkString(None),
        RespType::Array(None),
        RespType::Array(Some(vec![bulk(b"SET"), bulk(b"k"), RespType::Array(Some(vec![]))])),
    ];
    for v in values {
        let shown = format!("{:?}", v);
        let bytes = encode(v);
        let (back, rest) = decode(&bytes).unwrap();
        assert_eq!(format!("{:?}", back), shown);
        assert!(rest.is_empty());
    }
}

#[test]
fn pipelined_values_decode_in_order() {
    let mut buf = encode(RespType::Array(Some(vec![bulk(b"PING")])));
    buf.extend(encode(RespType::Integer(9)));
    let (first, rest) = decode(&buf).unwrap();
    assert_eq!(first, RespType::Array(Some(vec![bulk(b"PING")])));
    let (second, rest) = decode(rest).unwrap();
    assert_eq!(second, RespType::Integer(9));
    assert!(rest.is_empty());
}
