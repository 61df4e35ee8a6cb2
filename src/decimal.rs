//! Decimal text of integers, as RESP writes lengths, counts and integers.
use vstd::prelude::*;

verus! {

/// An ASCII decimal digit.
pub open spec fn is_digit(b: u8) -> bool {
    48 <= b <= 57
}

/// Every byte of `t` is a decimal digit.
pub open spec fn all_digits(t: Seq<u8>) -> bool {
    forall|i: int| 0 <= i < t.len() ==> is_digit(#[trigger] t[i])
}

/// The number that a run of decimal digits spells, most significant first.
pub open spec fn digits_value(t: Seq<u8>) -> nat
    decreases t.len(),
{
    if t.len() == 0 {
        0
    } else {
        digits_value(t.drop_last()) * 10 + (t.last() - 48) as nat
    }
}

/// The shortest decimal digits of `n`.
pub open spec fn digits_of(n: nat) -> Seq<u8>
    decreases n,
{
    if n < 10 {
        seq![(48 + n) as u8]
    } else {
        digits_of(n / 10).push((48 + n % 10) as u8)
    }
}

/// The decimal text of `n`: its digits, after a `-` when it is negative.
pub open spec fn int_text(n: i64) -> Seq<u8> {
    if n < 0 {
        seq![45u8] + digits_of((-n) as nat)
    } else {
        digits_of(n as nat)
    }
}

/// Reads `t` as a base-10 signed 64-bit integer: an optional `+` or `-`,
/// then one or more digits, with a value in range.
pub open spec fn parse_int(t: Seq<u8>) -> Option<i64> {
    let neg = t.len() > 0 && t[0] == 45u8;
    let signed = t.len() > 0 && (t[0] == 45u8 || t[0] == 43u8);
    let body = if signed { t.skip(1) } else { t };
    let v: int = if neg { -digits_value(body) } else { digits_value(body) as int };
    if body.len() == 0 || !all_digits(body) || v < i64::MIN || v > i64::MAX {
        None
    } else {
        Some(v as i64)
    }
}

/// The digits of `n` are digits, at least one, and spell `n`.
pub proof fn lemma_digits_of(n: nat)
    ensures
        digits_of(n).len() >= 1,
        all_digits(digits_of(n)),
        digits_value(digits_of(n)) == n,
    decreases n,
{
    if n >= 10 {
        lemma_digits_of(n / 10);
        assert(digits_of(n).drop_last() =~= digits_of(n / 10));
        assert(digits_of(n).last() == (48 + n % 10) as u8);
        assert(((48 + n % 10) as u8) - 48 == n % 10);
    } else {
        assert(digits_of(n).drop_last() =~= Seq::<u8>::empty());
        assert(((48 + n) as u8) - 48 == n);
        assert(digits_of(n).last() == (48 + n) as u8);
        assert(digits_value(digits_of(n)) == digits_value(Seq::<u8>::empty()) * 10 + n);
    }
}

/// A prefix of a run of digits never spells more than the whole run.
proof fn lemma_prefix_value_le(t: Seq<u8>, k: int)
    requires
        0 <= k <= t.len(),
    ensures
        digits_value(t.subrange(0, k)) <= digits_value(t),
    decreases t.len(),
{
    if k < t.len() {
        lemma_prefix_value_le(t.drop_last(), k);
        assert(t.drop_last().subrange(0, k) =~= t.subrange(0, k));
    } else {
        assert(t.subrange(0, k) =~= t);
    }
}

/// The decimal text of an integer reads back as that integer.
pub proof fn lemma_parse_int_text(n: i64)
    ensures
        parse_int(int_text(n)) == Some(n),
{
    if n < 0 {
        lemma_digits_of((-n) as nat);
        assert(int_text(n).skip(1) =~= digits_of((-n) as nat));
    } else {
        lemma_digits_of(n as nat);
        let d = digits_of(n as nat);
        assert(is_digit(d[0]));
    }
}

/// Appends the decimal digits of `n`.
pub fn write_digits(n: u64, out: &mut Vec<u8>)
    ensures
        final(out)@ == old(out)@ + digits_of(n as nat),
    decreases n,
{
    if n >= 10 {
        write_digits(n / 10, out);
    }
    out.push((48 + n % 10) as u8);
    proof {
        if n < 10 {
            assert(n % 10 == n);
        }
        assert(final(out)@ =~= old(out)@ + digits_of(n as nat));
    }
}

/// Appends the decimal text of `n`.
pub fn write_int(n: i64, out: &mut Vec<u8>)
    ensures
        final(out)@ == old(out)@ + int_text(n),
{
    if n < 0 {
        out.push(45u8);
        let magnitude: u64 = (0i128 - n as i128) as u64;
        write_digits(magnitude, out);
        assert(final(out)@ =~= old(out)@ + int_text(n));
    } else {
        write_digits(n as u64, out);
    }
}

/// Reads `buf[start..end]` as a base-10 signed 64-bit integer.
pub fn parse_decimal(buf: &[u8], start: usize, end: usize) -> (r: Option<i64>)
    requires
        start <= end <= buf@.len(),
    ensures
        r == parse_int(buf@.subrange(start as int, end as int)),
{
    let ghost t = buf@.subrange(start as int, end as int);
    assert(start < end ==> t[0] == buf@[start as int]);
    let neg = start < end && buf[start] == 45u8;
    let signed = start < end && (buf[start] == 45u8 || buf[start] == 43u8);
    let body_start: usize = if signed { start + 1 } else { start };
    let ghost body = buf@.subrange(body_start as int, end as int);
    assert(body =~= if signed { t.skip(1) } else { t });
    if body_start == end {
        return None;
    }
    let mut acc: u64 = 0;
    let mut i: usize = body_start;
    while i < end
        invariant
            body_start <= i <= end <= buf@.len(),
            body == buf@.subrange(body_start as int, end as int),
            t == buf@.subrange(start as int, end as int),
            signed == (t.len() > 0 && (t[0] == 45u8 || t[0] == 43u8)),
            neg == (t.len() > 0 && t[0] == 45u8),
            body == (if signed { t.skip(1) } else { t }),
            all_digits(buf@.subrange(body_start as int, i as int)),
            acc == digits_value(buf@.subrange(body_start as int, i as int)),
            acc <= 9223372036854775808u64,
        decreases end - i,
    {
        let b = buf[i];
        if b < 48 || b > 57 {
            assert(!is_digit(body[i - body_start]));
            return None;
        }
        let ghost prev = buf@.subrange(body_start as int, i as int);
        let ghost next = buf@.subrange(body_start as int, i + 1);
        assert(next.drop_last() =~= prev);
        if acc > 922337203685477580u64 {
            proof {
                if all_digits(body) {
                    assert(body.subrange(0, i + 1 - body_start) =~= next);
                    lemma_prefix_value_le(body, i + 1 - body_start);
                }
            }
            return None;
        }
        acc = acc * 10 + (b - 48) as u64;
        if acc > 9223372036854775808u64 {
            proof {
                if all_digits(body) {
                    assert(body.subrange(0, i + 1 - body_start) =~= next);
                    lemma_prefix_value_le(body, i + 1 - body_start);
                }
            }
            return None;
        }
        i = i + 1;
    }
    assert(buf@.subrange(body_start as int, i as int) =~= body);
    if neg {
        if acc == 9223372036854775808u64 {
            Some(i64::MIN)
        } else {
            Some(0i64 - acc as i64)
        }
    } else if acc > 9223372036854775807u64 {
        None
    } else {
        Some(acc as i64)
    }
}

} // verus!
