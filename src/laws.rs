//! What holds of the codec across calls: decoding undoes encoding, and
//! values sent back to back come out one at a time, in order; and what
//! GET sees after SET.
use vstd::prelude::*;
use crate::codec::{DecodeError, crlf_at, decode_items, decode_spec, decode_value, encode_items, encode_value, find_crlf};
use crate::decimal::{all_digits, digits_of, digits_value, int_text, is_digit, lemma_digits_of, lemma_parse_int_text, parse_int};
use crate::command::Request;
use crate::server::{reply_of, store_after};
use crate::value::RespValue;

verus! {

/// Text that fits on a status or error line: no CR and no LF.
pub open spec fn line_text(t: Seq<u8>) -> bool {
    forall|i: int| 0 <= i < t.len() ==> #[trigger] t[i] != 13u8 && t[i] != 10u8
}

/// A value whose encoding decodes back to it: line texts hold no CR or LF,
/// and every length fits the signed 64-bit header.
pub open spec fn encodable(v: RespValue) -> bool
    decreases v,
{
    match v {
        RespValue::SimpleString(t) => line_text(t),
        RespValue::Error(t) => line_text(t),
        RespValue::Integer(_) => true,
        RespValue::BulkString(None) => true,
        RespValue::BulkString(Some(b)) => b.len() <= i64::MAX,
        RespValue::Array(None) => true,
        RespValue::Array(Some(items)) => items.len() <= i64::MAX && forall|i: int|
            0 <= i < items.len() ==> encodable(#[trigger] items[i]),
    }
}

proof fn lemma_find_crlf_at(s: Seq<u8>, from: int, e: int)
    requires
        0 <= from <= e,
        crlf_at(s, e),
        forall|j: int| from <= j < e ==> #[trigger] s[j] != 13u8,
    ensures
        find_crlf(s, from) == Some(e),
    decreases e - from,
{
    if from < e {
        lemma_find_crlf_at(s, from + 1, e);
    }
}

/// A line `tag text CRLF` at `pos`, where `text` holds no CR, ends where its CRLF stands.
proof fn lemma_line(s: Seq<u8>, pos: int, tag: u8, text: Seq<u8>)
    requires
        0 <= pos,
        pos + text.len() + 3 <= s.len(),
        s.subrange(pos, pos + text.len() + 3) == seq![tag] + text + seq![13u8, 10u8],
        forall|i: int| 0 <= i < text.len() ==> #[trigger] text[i] != 13u8,
    ensures
        s[pos] == tag,
        find_crlf(s, pos + 1) == Some(pos + 1 + text.len()),
        s.subrange(pos + 1, pos + 1 + text.len()) == text,
{
    let line = seq![tag] + text + seq![13u8, 10u8];
    let e = pos + 1 + text.len();
    assert(s[pos] == line[0]);
    assert(s[e] == line[text.len() + 1int]);
    assert(s[e + 1] == line[text.len() + 2int]);
    assert forall|j: int| pos + 1 <= j < e implies #[trigger] s[j] != 13u8 by {
        assert(s[j] == line[j - pos]);
        assert(line[j - pos] == text[j - pos - 1]);
    }
    lemma_find_crlf_at(s, pos + 1, e);
    assert forall|k: int| 0 <= k < text.len() implies #[trigger] s.subrange(pos + 1, e)[k] == text[k] by {
        assert(s[pos + 1 + k] == line[1 + k]);
    }
    assert(s.subrange(pos + 1, e) =~= text);
}

proof fn lemma_digits_no_cr(n: nat)
    ensures
        forall|i: int| 0 <= i < digits_of(n).len() ==> #[trigger] digits_of(n)[i] != 13u8,
        parse_int(digits_of(n)) == (if n <= i64::MAX { Some(n as i64) } else { None::<i64> }),
{
    lemma_digits_of(n);
    assert forall|i: int| 0 <= i < digits_of(n).len() implies #[trigger] digits_of(n)[i] != 13u8 by {
        assert(is_digit(digits_of(n)[i]));
    }
    if n <= i64::MAX {
        lemma_parse_int_text(n as i64);
    } else {
        assert(is_digit(digits_of(n)[0]));
    }
}

proof fn lemma_minus_one()
    ensures
        parse_int(seq![45u8, 49u8]) == Some(-1i64),
{
    let t = seq![45u8, 49u8];
    let body = t.skip(1);
    assert(body =~= seq![49u8]);
    assert(body.drop_last() =~= Seq::<u8>::empty());
    assert(digits_value(Seq::<u8>::empty()) == 0);
    assert(body.last() == 49u8);
    assert(digits_value(body) == 1);
    assert(all_digits(body));
}

/// Where `whole` stands at `pos` in `s`, each piece of it stands there too.
proof fn lemma_piece(s: Seq<u8>, pos: int, whole: Seq<u8>, off: int, piece: Seq<u8>)
    requires
        0 <= pos,
        pos + whole.len() <= s.len(),
        s.subrange(pos, pos + whole.len()) == whole,
        0 <= off,
        off + piece.len() <= whole.len(),
        whole.subrange(off, off + piece.len()) == piece,
    ensures
        s.subrange(pos + off, pos + off + piece.len()) == piece,
{
    assert forall|k: int| 0 <= k < piece.len() implies #[trigger] s.subrange(
        pos + off,
        pos + off + piece.len(),
    )[k] == piece[k] by {
        assert(s.subrange(pos, pos + whole.len())[off + k] == whole[off + k]);
        assert(whole.subrange(off, off + piece.len())[k] == piece[k]);
    }
    assert(s.subrange(pos + off, pos + off + piece.len()) =~= piece);
}

/// A header line `tag digits(n) CRLF` at `pos` reads back as `n`.
proof fn lemma_header(s: Seq<u8>, pos: int, whole: Seq<u8>, tag: u8, n: nat)
    requires
        0 <= pos,
        pos + whole.len() <= s.len(),
        s.subrange(pos, pos + whole.len()) == whole,
        digits_of(n).len() + 3 <= whole.len(),
        whole.subrange(0, digits_of(n).len() + 3int) == seq![tag] + digits_of(n) + seq![13u8, 10u8],
        n <= i64::MAX,
    ensures
        s[pos] == tag,
        find_crlf(s, pos + 1) == Some(pos + 1 + digits_of(n).len()),
        parse_int(s.subrange(pos + 1, pos + 1 + digits_of(n).len())) == Some(n as i64),
{
    let h = digits_of(n);
    lemma_piece(s, pos, whole, 0, seq![tag] + h + seq![13u8, 10u8]);
    lemma_digits_no_cr(n);
    lemma_line(s, pos, tag, h);
}

proof fn lemma_decode_bulk(s: Seq<u8>, pos: int, depth: nat, b: Seq<u8>)
    requires
        b.len() <= i64::MAX,
        0 <= pos,
        pos + encode_value(RespValue::BulkString(Some(b))).len() <= s.len(),
        s.subrange(pos, pos + encode_value(RespValue::BulkString(Some(b))).len())
            == encode_value(RespValue::BulkString(Some(b))),
        depth >= s.len() - pos,
    ensures
        decode_value(s, pos, depth) == Ok::<(RespValue, int), DecodeError>(
            (RespValue::BulkString(Some(b)), pos + encode_value(RespValue::BulkString(Some(b))).len()),
        ),
{
    let enc = encode_value(RespValue::BulkString(Some(b)));
    let h = digits_of(b.len());
    let head = seq![36u8] + h + seq![13u8, 10u8];
    let p = pos + h.len() + 3;
    let n = b.len() as int;
    assert(enc =~= head + (b + seq![13u8, 10u8]));
    assert(enc.subrange(0, h.len() + 3int) =~= head);
    lemma_header(s, pos, enc, 36u8, b.len());
    assert(enc.subrange(h.len() + 3int, h.len() + 3int + n) =~= b);
    lemma_piece(s, pos, enc, h.len() + 3int, b);
    assert(enc.subrange(h.len() + 3int + n, h.len() + 3int + n + 2) =~= seq![13u8, 10u8]);
    lemma_piece(s, pos, enc, h.len() + 3int + n, seq![13u8, 10u8]);
    assert(s.subrange(p + n, p + n + 2)[0] == s[p + n]);
    assert(s.subrange(p + n, p + n + 2)[1] == s[p + n + 1]);
}

proof fn lemma_decode_encoded(s: Seq<u8>, pos: int, depth: nat, v: RespValue)
    requires
        encodable(v),
        0 <= pos,
        pos + encode_value(v).len() <= s.len(),
        s.subrange(pos, pos + encode_value(v).len()) == encode_value(v),
        depth >= s.len() - pos,
    ensures
        decode_value(s, pos, depth) == Ok::<(RespValue, int), DecodeError>((v, pos + encode_value(v).len())),
    decreases v, 1nat,
{
    let enc = encode_value(v);
    match v {
        RespValue::SimpleString(t) => {
            assert(enc =~= seq![43u8] + t + seq![13u8, 10u8]);
            lemma_line(s, pos, 43u8, t);
        },
        RespValue::Error(t) => {
            assert(enc =~= seq![45u8] + t + seq![13u8, 10u8]);
            lemma_line(s, pos, 45u8, t);
        },
        RespValue::Integer(n) => {
            let t = int_text(n);
            assert(enc =~= seq![58u8] + t + seq![13u8, 10u8]);
            if n < 0 {
                lemma_digits_no_cr((-n) as nat);
                assert forall|i: int| 0 <= i < t.len() implies #[trigger] t[i] != 13u8 by {
                    if i > 0 {
                        assert(t[i] == digits_of((-n) as nat)[i - 1]);
                    }
                }
            } else {
                lemma_digits_no_cr(n as nat);
            }
            lemma_parse_int_text(n);
            lemma_line(s, pos, 58u8, t);
        },
        RespValue::BulkString(None) => {
            assert(enc =~= seq![36u8] + seq![45u8, 49u8] + seq![13u8, 10u8]);
            lemma_minus_one();
            lemma_line(s, pos, 36u8, seq![45u8, 49u8]);
        },
        RespValue::Array(None) => {
            assert(enc =~= seq![42u8] + seq![45u8, 49u8] + seq![13u8, 10u8]);
            lemma_minus_one();
            lemma_line(s, pos, 42u8, seq![45u8, 49u8]);
        },
        RespValue::BulkString(Some(b)) => {
            lemma_decode_bulk(s, pos, depth, b);
        },
        RespValue::Array(Some(items)) => {
            let h = digits_of(items.len());
            let head = seq![42u8] + h + seq![13u8, 10u8];
            let body = encode_items(items);
            assert(enc =~= head + body);
            assert(enc.subrange(0, h.len() + 3int) =~= head);
            lemma_header(s, pos, enc, 42u8, items.len());
            assert(enc.subrange(h.len() + 3int, h.len() + 3int + body.len()) =~= body);
            lemma_piece(s, pos, enc, h.len() + 3int, body);
            assert(decreases_to!(v => v->Array_0));
            assert(decreases_to!(v->Array_0 => v->Array_0->0));
            lemma_decode_encoded_items(s, pos + h.len() + 3int, (depth - 1) as nat, items);
        },
    }
}

proof fn lemma_decode_encoded_items(s: Seq<u8>, pos: int, depth: nat, items: Seq<RespValue>)
    requires
        forall|i: int| 0 <= i < items.len() ==> encodable(#[trigger] items[i]),
        0 <= pos,
        pos + encode_items(items).len() <= s.len(),
        s.subrange(pos, pos + encode_items(items).len()) == encode_items(items),
        depth >= s.len() - pos,
    ensures
        decode_items(s, pos, items.len(), depth) == Ok::<(Seq<RespValue>, int), DecodeError>(
            (items, pos + encode_items(items).len()),
        ),
    decreases items, 0nat,
{
    if items.len() == 0 {
        assert(items =~= Seq::<RespValue>::empty());
    } else {
        let head = items[0];
        let tail = items.subrange(1, items.len() as int);
        let eh = encode_value(head);
        let et = encode_items(tail);
        let all = encode_items(items);
        assert(all == eh + et);
        assert(s.subrange(pos, pos + eh.len()) =~= eh) by {
            assert forall|k: int| 0 <= k < eh.len() implies s.subrange(pos, pos + eh.len())[k] == eh[k] by {
                assert(s[pos + k] == all[k]);
            }
        }
        assert(s.subrange(pos + eh.len(), pos + eh.len() + et.len()) =~= et) by {
            assert forall|k: int| 0 <= k < et.len() implies s.subrange(pos + eh.len(), pos + eh.len() + et.len())[k] == et[k] by {
                assert(s[pos + eh.len() + k] == all[eh.len() + k]);
            }
        }
        lemma_decode_encoded(s, pos, depth, head);
        assert forall|i: int| 0 <= i < tail.len() implies encodable(#[trigger] tail[i]) by {
            assert(tail[i] == items[i + 1]);
        }
        lemma_decode_encoded_items(s, pos + eh.len(), depth, tail);
        assert(seq![head] + tail =~= items);
    }
}

/// Decoding the encoding of an encodable value, with any bytes after it,
/// gives the value back and takes exactly the bytes of its encoding.
pub proof fn lemma_round_trip(v: RespValue, rest: Seq<u8>)
    requires
        encodable(v),
    ensures
        decode_spec(encode_value(v) + rest) == Ok::<(RespValue, int), DecodeError>((v, encode_value(v).len() as int)),
{
    let s = encode_value(v) + rest;
    assert(s.subrange(0, encode_value(v).len() as int) =~= encode_value(v));
    lemma_decode_encoded(s, 0, s.len(), v);
}

/// Two encodings sent back to back decode one at a time: the first value
/// from the whole buffer, then the second from what is left, which it takes
/// to the end.
pub proof fn lemma_pipelined(v1: RespValue, v2: RespValue)
    requires
        encodable(v1),
        encodable(v2),
    ensures
        ({
            let s = encode_value(v1) + encode_value(v2);
            let n1 = encode_value(v1).len() as int;
            &&& decode_spec(s) == Ok::<(RespValue, int), DecodeError>((v1, n1))
            &&& decode_spec(s.subrange(n1, s.len() as int)) == Ok::<(RespValue, int), DecodeError>(
                (v2, s.len() - n1),
            )
        }),
{
    let e1 = encode_value(v1);
    let e2 = encode_value(v2);
    let s = e1 + e2;
    lemma_round_trip(v1, e2);
    assert(s.subrange(e1.len() as int, s.len() as int) =~= e2 + Seq::<u8>::empty());
    lemma_round_trip(v2, Seq::<u8>::empty());
}

/// After SET of a key, GET of that key replies with the value that was set.
pub proof fn lemma_get_after_set(m: Map<Seq<u8>, Seq<u8>>, k: Seq<u8>, v: Seq<u8>)
    ensures
        reply_of(Request::Get(k), store_after(Request::SetKey(k, v), m)) == RespValue::BulkString(Some(v)),
{
}

/// GET of a key that is not in the store replies with the null bulk string.
pub proof fn lemma_get_missing(m: Map<Seq<u8>, Seq<u8>>, k: Seq<u8>)
    requires
        !m.contains_key(k),
    ensures
        reply_of(Request::Get(k), m) == RespValue::BulkString(None),
{
}

/// SET of one key leaves what GET replies for every other key as it was.
pub proof fn lemma_set_other_key(m: Map<Seq<u8>, Seq<u8>>, k: Seq<u8>, v: Seq<u8>, other: Seq<u8>)
    requires
        k != other,
    ensures
        reply_of(Request::Get(other), store_after(Request::SetKey(k, v), m)) == reply_of(
            Request::Get(other),
            m,
        ),
{
}

} // verus!
