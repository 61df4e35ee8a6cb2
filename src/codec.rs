//! Bit-exact encoding and decoding of RESP values.
use vstd::prelude::*;
use crate::decimal::{digits_of, int_text, parse_decimal, parse_int, write_digits, write_int};
use crate::value::{RespType, RespValue};

verus! {

/// Why a byte string does not start with a complete, valid RESP value.
#[derive(PartialEq, Eq, Structural, Debug, Clone, Copy)]
pub enum DecodeError {
    /// No byte is left where a value should start.
    UnexpectedEof,
    /// The first byte is not one of `+ - : $ *`.
    InvalidTypeTag,
    /// A line has no CRLF before the end of the input.
    UnterminatedLine,
    /// The text of an integer is not a base-10 signed 64-bit integer.
    MalformedInteger,
    /// A length or count is neither `-1` nor a non-negative integer.
    MalformedLength,
    /// Fewer bytes follow a bulk string's header than its length and CRLF.
    LengthMismatch,
    /// The two bytes after a bulk string's payload are not CRLF.
    MissingTerminator,
}

impl DecodeError {
    /// The input may still become a value once more bytes arrive.
    pub open spec fn incomplete(self) -> bool {
        ||| self == DecodeError::UnexpectedEof
        ||| self == DecodeError::UnterminatedLine
        ||| self == DecodeError::LengthMismatch
    }

    /// Tells "not enough bytes yet" apart from input that is malformed for good.
    pub fn is_incomplete(&self) -> (r: bool)
        ensures
            r == self.incomplete(),
    {
        match self {
            DecodeError::UnexpectedEof => true,
            DecodeError::UnterminatedLine => true,
            DecodeError::LengthMismatch => true,
            _ => false,
        }
    }
}

/// The line terminator, CR LF.
pub open spec fn crlf() -> Seq<u8> {
    seq![13u8, 10u8]
}

/// `s` holds CRLF at `i`.
pub open spec fn crlf_at(s: Seq<u8>, i: int) -> bool {
    0 <= i && i + 1 < s.len() && s[i] == 13u8 && s[i + 1] == 10u8
}

/// The first position at or after `from` where CRLF stands.
pub open spec fn find_crlf(s: Seq<u8>, from: int) -> Option<int>
    decreases s.len() - from,
{
    if from < 0 || from + 1 >= s.len() {
        None
    } else if crlf_at(s, from) {
        Some(from)
    } else {
        find_crlf(s, from + 1)
    }
}

/// The RESP encoding of a value.
pub open spec fn encode_value(v: RespValue) -> Seq<u8>
    decreases v,
{
    match v {
        RespValue::SimpleString(t) => seq![43u8] + t + crlf(),
        RespValue::Error(t) => seq![45u8] + t + crlf(),
        RespValue::Integer(n) => seq![58u8] + int_text(n) + crlf(),
        RespValue::BulkString(None) => seq![36u8, 45u8, 49u8] + crlf(),
        RespValue::BulkString(Some(b)) => seq![36u8] + digits_of(b.len()) + crlf() + b + crlf(),
        RespValue::Array(None) => seq![42u8, 45u8, 49u8] + crlf(),
        RespValue::Array(Some(items)) => seq![42u8] + digits_of(items.len()) + crlf()
            + encode_items(items),
    }
}

/// The encodings of `items`, one after the other.
pub open spec fn encode_items(items: Seq<RespValue>) -> Seq<u8>
    decreases items,
{
    if items.len() == 0 {
        Seq::empty()
    } else {
        encode_value(items[0]) + encode_items(items.subrange(1, items.len() as int))
    }
}

/// Decodes one value starting at `pos`, giving it and the position just past it.
/// `depth` is how many levels of nesting are still allowed; the top level
/// grants one per byte, more than any input can use.
pub open spec fn decode_value(s: Seq<u8>, pos: int, depth: nat) -> Result<(RespValue, int), DecodeError>
    decreases depth, 0int, 0nat,
{
    if pos < 0 || pos >= s.len() || depth == 0 {
        Err(DecodeError::UnexpectedEof)
    } else {
        let tag = s[pos];
        if tag == 43u8 || tag == 45u8 || tag == 58u8 {
            match find_crlf(s, pos + 1) {
                None => Err(DecodeError::UnterminatedLine),
                Some(e) => {
                    let text = s.subrange(pos + 1, e);
                    if tag == 43u8 {
                        Ok((RespValue::SimpleString(text), e + 2))
                    } else if tag == 45u8 {
                        Ok((RespValue::Error(text), e + 2))
                    } else {
                        match parse_int(text) {
                            None => Err(DecodeError::MalformedInteger),
                            Some(n) => Ok((RespValue::Integer(n), e + 2)),
                        }
                    }
                },
            }
        } else if tag == 36u8 || tag == 42u8 {
            match find_crlf(s, pos + 1) {
                None => Err(DecodeError::UnterminatedLine),
                Some(e) => match parse_int(s.subrange(pos + 1, e)) {
                    None => Err(DecodeError::MalformedLength),
                    Some(n) => {
                        let p = e + 2;
                        if n < -1 {
                            Err(DecodeError::MalformedLength)
                        } else if tag == 36u8 {
                            if n == -1 {
                                Ok((RespValue::BulkString(None), p))
                            } else if s.len() < p + n + 2 {
                                Err(DecodeError::LengthMismatch)
                            } else if !crlf_at(s, p + n) {
                                Err(DecodeError::MissingTerminator)
                            } else {
                                Ok((RespValue::BulkString(Some(s.subrange(p, p + n))), p + n + 2))
                            }
                        } else if n == -1 {
                            Ok((RespValue::Array(None), p))
                        } else {
                            match decode_items(s, p, n as nat, (depth - 1) as nat) {
                                Err(x) => Err(x),
                                Ok((items, end)) => Ok((RespValue::Array(Some(items)), end)),
                            }
                        }
                    },
                },
            }
        } else {
            Err(DecodeError::InvalidTypeTag)
        }
    }
}

/// Decodes `count` values one after the other, starting at `pos`.
pub open spec fn decode_items(s: Seq<u8>, pos: int, count: nat, depth: nat) -> Result<
    (Seq<RespValue>, int),
    DecodeError,
>
    decreases depth, 1int, count,
{
    if count == 0 {
        Ok((Seq::empty(), pos))
    } else {
        match decode_value(s, pos, depth) {
            Err(x) => Err(x),
            Ok((v, next)) => prepend(v, decode_items(s, next, (count - 1) as nat, depth)),
        }
    }
}

/// `v` in front of the values of a successful decode.
pub open spec fn prepend(v: RespValue, r: Result<(Seq<RespValue>, int), DecodeError>) -> Result<
    (Seq<RespValue>, int),
    DecodeError,
> {
    match r {
        Err(x) => Err(x),
        Ok((rest, end)) => Ok((seq![v] + rest, end)),
    }
}

/// What decoding the start of `s` gives: the value and how many bytes it took.
pub open spec fn decode_spec(s: Seq<u8>) -> Result<(RespValue, int), DecodeError> {
    decode_value(s, 0, s.len())
}

/// What each element of `items` stands for.
pub open spec fn models(items: Seq<RespType>) -> Seq<RespValue> {
    Seq::new(items.len(), |i: int| items[i].model())
}

/// An array stands for the array of what its elements stand for.
pub proof fn lemma_array_model(items: Vec<RespType>)
    ensures
        RespType::Array(Some(items)).model() == RespValue::Array(Some(models(items@))),
{
    match RespType::Array(Some(items)).model() {
        RespValue::Array(Some(ms)) => {
            assert(ms =~= models(items@));
        },
        _ => {},
    }
}

/// The first position at or after `from` where CRLF stands in `buf`.
fn find_line_end(buf: &[u8], from: usize) -> (r: Option<usize>)
    ensures
        match r {
            Some(e) => find_crlf(buf@, from as int) == Some(e as int),
            None => find_crlf(buf@, from as int) is None,
        },
{
    let mut i: usize = from;
    while i < buf.len() && buf.len() - i >= 2
        invariant
            from <= i,
            find_crlf(buf@, from as int) == find_crlf(buf@, i as int),
        decreases buf.len() - i,
    {
        if buf[i] == 13u8 && buf[i + 1] == 10u8 {
            return Some(i);
        }
        i = i + 1;
    }
    None
}

proof fn lemma_encode_items_push(items: Seq<RespValue>, v: RespValue)
    ensures
        encode_items(items.push(v)) == encode_items(items) + encode_value(v),
    decreases items.len(),
{
    if items.len() == 0 {
        assert(items.push(v).subrange(1, 1) =~= Seq::<RespValue>::empty());
        assert(encode_items(Seq::<RespValue>::empty()) =~= Seq::<u8>::empty());
        assert(encode_items(items.push(v)) =~= encode_value(v));
    } else {
        let tail = items.subrange(1, items.len() as int);
        lemma_encode_items_push(tail, v);
        assert(items.push(v).subrange(1, items.len() + 1int) =~= tail.push(v));
        assert(encode_items(items.push(v)) =~= encode_items(items) + encode_value(v));
    }
}

fn append_bytes(out: &mut Vec<u8>, bytes: &[u8])
    ensures
        final(out)@ == old(out)@ + bytes@,
{
    let mut i: usize = 0;
    while i < bytes.len()
        invariant
            i <= bytes@.len(),
            out@ == old(out)@ + bytes@.subrange(0, i as int),
        decreases bytes@.len() - i,
    {
        out.push(bytes[i]);
        i = i + 1;
        assert(out@ =~= old(out)@ + bytes@.subrange(0, i as int));
    }
    assert(bytes@.subrange(0, i as int) =~= bytes@);
}

fn append_crlf(out: &mut Vec<u8>)
    ensures
        final(out)@ == old(out)@ + crlf(),
{
    out.push(13u8);
    out.push(10u8);
    assert(final(out)@ =~= old(out)@ + crlf());
}

/// Appends the encoding of `v` to `out`.
fn encode_into(v: &RespType, out: &mut Vec<u8>)
    ensures
        final(out)@ == old(out)@ + encode_value(v.model()),
    decreases v,
{
    let ghost start = out@;
    match v {
        RespType::SimpleString(t) => {
            out.push(43u8);
            append_bytes(out, t.as_slice());
            append_crlf(out);
        },
        RespType::Error(t) => {
            out.push(45u8);
            append_bytes(out, t.as_slice());
            append_crlf(out);
        },
        RespType::Integer(n) => {
            out.push(58u8);
            write_int(*n, out);
            append_crlf(out);
        },
        RespType::BulkString(None) => {
            out.push(36u8);
            out.push(45u8);
            out.push(49u8);
            append_crlf(out);
        },
        RespType::BulkString(Some(b)) => {
            out.push(36u8);
            write_digits(b.len() as u64, out);
            append_crlf(out);
            append_bytes(out, b.as_slice());
            append_crlf(out);
        },
        RespType::Array(None) => {
            out.push(42u8);
            out.push(45u8);
            out.push(49u8);
            append_crlf(out);
        },
        RespType::Array(Some(items)) => {
            proof {
                lemma_array_model(*items);
            }
            out.push(42u8);
            write_digits(items.len() as u64, out);
            append_crlf(out);
            let ghost header = out@;
            let mut i: usize = 0;
            while i < items.len()
                invariant
                    i <= items@.len(),
                    *v == RespType::Array(Some(*items)),
                    out@ == header + encode_items(models(items@).subrange(0, i as int)),
                decreases items@.len() - i,
            {
                proof {
                    broadcast use vstd::std_specs::vec::axiom_vec_index_decreases;
                    assert(decreases_to!(*v => (*v)->Array_0));
                    assert(decreases_to!((*v)->Array_0 => (*v)->Array_0->0));
                    assert(decreases_to!(*items => items[i as int]));
                    lemma_encode_items_push(models(items@).subrange(0, i as int), items@[i as int].model());
                    assert(models(items@).subrange(0, i as int).push(items@[i as int].model())
                        =~= models(items@).subrange(0, i + 1));
                }
                encode_into(&items[i], out);
                i = i + 1;
            }
            assert(models(items@).subrange(0, i as int) =~= models(items@));
        },
    }
    assert(out@ =~= start + encode_value(v.model()));
}

/// The RESP encoding of `value`.
pub fn encode(value: RespType) -> (r: Vec<u8>)
    ensures
        r@ == encode_value(value.model()),
{
    let mut out: Vec<u8> = Vec::new();
    encode_into(&value, &mut out);
    assert(out@ =~= encode_value(value.model()));
    out
}

proof fn lemma_find_crlf(s: Seq<u8>, from: int)
    ensures
        find_crlf(s, from) matches Some(e) ==> from <= e && crlf_at(s, e),
    decreases s.len() - from,
{
    if !(from < 0 || from + 1 >= s.len()) && !crlf_at(s, from) {
        lemma_find_crlf(s, from + 1);
    }
}

/// A copy of `buf[start..end]`.
fn copy_range(buf: &[u8], start: usize, end: usize) -> (r: Vec<u8>)
    requires
        start <= end <= buf@.len(),
    ensures
        r@ == buf@.subrange(start as int, end as int),
{
    let mut out: Vec<u8> = Vec::new();
    let mut i: usize = start;
    while i < end
        invariant
            start <= i <= end <= buf@.len(),
            out@ == buf@.subrange(start as int, i as int),
        decreases end - i,
    {
        out.push(buf[i]);
        i = i + 1;
        assert(out@ =~= buf@.subrange(start as int, i as int));
    }
    out
}

/// `prefix` in front of the values of a successful decode.
pub open spec fn after(prefix: Seq<RespValue>, r: Result<(Seq<RespValue>, int), DecodeError>) -> Result<
    (Seq<RespValue>, int),
    DecodeError,
> {
    match r {
        Err(x) => Err(x),
        Ok((rest, end)) => Ok((prefix + rest, end)),
    }
}

proof fn lemma_after_prepend(
    prefix: Seq<RespValue>,
    v: RespValue,
    r: Result<(Seq<RespValue>, int), DecodeError>,
)
    ensures
        after(prefix, prepend(v, r)) == after(prefix.push(v), r),
{
    if let Ok((rest, end)) = r {
        assert(prefix + (seq![v] + rest) =~= prefix.push(v) + rest);
    }
}

/// Decodes one value of `buf` starting at `pos`, with `depth` levels of
/// nesting allowed.
fn decode_at(buf: &[u8], pos: usize, depth: usize) -> (r: Result<(RespType, usize), DecodeError>)
    ensures
        match r {
            Ok((v, end)) => decode_value(buf@, pos as int, depth as nat) == Ok::<(RespValue, int), DecodeError>((v.model(), end as int)),
            Err(x) => decode_value(buf@, pos as int, depth as nat) == Err::<(RespValue, int), DecodeError>(x),
        },
        r matches Ok((_, end)) ==> pos < end <= buf@.len(),
    decreases depth,
{
    if pos >= buf.len() || depth == 0 {
        return Err(DecodeError::UnexpectedEof);
    }
    let tag = buf[pos];
    if tag != 43u8 && tag != 45u8 && tag != 58u8 && tag != 36u8 && tag != 42u8 {
        return Err(DecodeError::InvalidTypeTag);
    }
    let e = match find_line_end(buf, pos + 1) {
        None => {
            return Err(DecodeError::UnterminatedLine);
        },
        Some(e) => e,
    };
    proof {
        lemma_find_crlf(buf@, pos + 1);
    }
    if tag == 43u8 {
        return Ok((RespType::SimpleString(copy_range(buf, pos + 1, e)), e + 2));
    }
    if tag == 45u8 {
        return Ok((RespType::Error(copy_range(buf, pos + 1, e)), e + 2));
    }
    if tag == 58u8 {
        return match parse_decimal(buf, pos + 1, e) {
            None => Err(DecodeError::MalformedInteger),
            Some(n) => Ok((RespType::Integer(n), e + 2)),
        };
    }
    let n = match parse_decimal(buf, pos + 1, e) {
        None => {
            return Err(DecodeError::MalformedLength);
        },
        Some(n) => n,
    };
    let p: usize = e + 2;
    if n < -1 {
        return Err(DecodeError::MalformedLength);
    }
    if tag == 36u8 {
        if n == -1 {
            return Ok((RespType::BulkString(None), p));
        }
        if ((buf.len() - p) as u64) < (n as u64) + 2 {
            return Err(DecodeError::LengthMismatch);
        }
        let q: usize = p + n as usize;
        if buf[q] != 13u8 || buf[q + 1] != 10u8 {
            return Err(DecodeError::MissingTerminator);
        }
        return Ok((RespType::BulkString(Some(copy_range(buf, p, q))), q + 2));
    }
    if n == -1 {
        return Ok((RespType::Array(None), p));
    }
    let count: u64 = n as u64;
    let ghost s = buf@;
    let ghost d = (depth - 1) as nat;
    let mut items: Vec<RespType> = Vec::new();
    let mut at: usize = p;
    let mut i: u64 = 0;
    while i < count
        invariant
            i <= count,
            s == buf@,
            depth >= 1,
            d == depth - 1,
            decode_value(s, pos as int, depth as nat) == match decode_items(s, p as int, count as nat, d) {
                Err(x) => Err(x),
                Ok((all, end)) => Ok((RespValue::Array(Some(all)), end)),
            },
            pos < p <= at <= buf@.len(),
            decode_items(s, p as int, count as nat, d) == after(
                models(items@),
                decode_items(s, at as int, (count - i) as nat, d),
            ),
        decreases count - i,
    {
        match decode_at(buf, at, depth - 1) {
            Err(x) => {
                return Err(x);
            },
            Ok((v, next)) => {
                proof {
                    let ms = models(items@);
                    assert(models(items@.push(v)) =~= ms.push(v.model()));
                    let later = decode_items(s, next as int, (count - i - 1) as nat, d);
                    assert(decode_items(s, at as int, (count - i) as nat, d) == prepend(v.model(), later));
                    lemma_after_prepend(ms, v.model(), later);
                }
                items.push(v);
                at = next;
            },
        }
        i = i + 1;
    }
    proof {
        lemma_array_model(items);
        assert(models(items@) + Seq::<RespValue>::empty() =~= models(items@));
    }
    Ok((RespType::Array(Some(items)), at))
}

/// Decodes the value at the start of `s`, and hands back the bytes after it.
pub fn decode(s: &[u8]) -> (r: Result<(RespType, &[u8]), DecodeError>)
    ensures
        match r {
            Ok((v, rest)) => decode_spec(s@) matches Ok((m, end)) && v.model() == m && 0 < end <= s@.len()
                && rest@ == s@.subrange(end, s@.len() as int),
            Err(x) => decode_spec(s@) == Err::<(RespValue, int), DecodeError>(x),
        },
{
    match decode_at(s, 0, s.len()) {
        Err(x) => Err(x),
        Ok((v, end)) => {
            let (_, rest) = s.split_at(end);
            Ok((v, rest))
        },
    }
}

} // verus!
