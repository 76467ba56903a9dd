//! The decoder: a recursive-descent parser from bytes to value trees, with a
//! mathematical model of exactly which inputs it accepts and what it returns.

use vstd::prelude::*;
use crate::digits::{digits_value, is_ascii_digit, lemma_digits_value_mono,
    lemma_digits_value_nonneg};
use crate::value::{dict_insert, dict_insert_model, lemma_view_seq_push, view_of,
    view_of_entries, view_of_seq, Bencode, ValueModel};

verus! {

/// The ways an input can be rejected.
#[derive(Debug, Clone, Copy, PartialEq, Eq, Structural)]
pub enum ErrorKind {
    /// The buffer ended before the construct was complete.
    UnexpectedEndOfInput,
    /// A string length prefix was not followed by a colon, or declared more
    /// bytes than remain.
    MalformedLength,
    /// Integer text that is empty, has a leading zero, is a bare minus or
    /// `-0`, hits a byte other than the terminator, or overflows 64 bits.
    MalformedInteger,
    /// A dictionary key position did not hold a string value.
    UnexpectedKeyType,
    /// A leading byte that matches no production, or bytes after the value.
    MalformedInput,
}

/// A decode failure: the kind of fault and the byte offset it was found at.
#[derive(Debug, Clone, Copy, PartialEq, Eq, Structural)]
pub struct DecodeError {
    pub kind: ErrorKind,
    pub offset: usize,
}

/// The first position at or after `i` that does not hold an ASCII digit.
pub open spec fn digit_run_end(s: Seq<u8>, i: int) -> int
    decreases s.len() - i
        when 0 <= i <= s.len()
{
    if i == s.len() || !is_ascii_digit(s[i]) {
        i
    } else {
        digit_run_end(s, i + 1)
    }
}

pub proof fn lemma_digit_run_end(s: Seq<u8>, i: int)
    requires
        0 <= i <= s.len(),
    ensures
        i <= digit_run_end(s, i) <= s.len(),
        forall|t: int| i <= t < digit_run_end(s, i) ==> is_ascii_digit(#[trigger] s[t]),
        digit_run_end(s, i) == s.len() || !is_ascii_digit(s[digit_run_end(s, i)]),
    decreases s.len() - i,
{
    if i < s.len() && is_ascii_digit(s[i]) {
        lemma_digit_run_end(s, i + 1);
    }
}

/// A maximal digit run determines where the scan stops.
pub proof fn lemma_digit_run_end_is(s: Seq<u8>, i: int, j: int)
    requires
        0 <= i <= j <= s.len(),
        forall|t: int| i <= t < j ==> is_ascii_digit(#[trigger] s[t]),
        j == s.len() || !is_ascii_digit(s[j]),
    ensures
        digit_run_end(s, i) == j,
    decreases j - i,
{
    if i < j {
        lemma_digit_run_end_is(s, i + 1, j);
    }
}

/// Decoding of a string at `i`: the digit run names the length, a colon
/// follows, then exactly that many raw bytes.
pub open spec fn spec_decode_string(s: Seq<u8>, i: int) -> Result<
    (ValueModel, int),
    (ErrorKind, int),
> {
    let j = digit_run_end(s, i);
    if j == s.len() {
        Err((ErrorKind::UnexpectedEndOfInput, s.len() as int))
    } else if s[j] != 58 {
        Err((ErrorKind::MalformedLength, i))
    } else if digits_value(s, i, j) > s.len() - (j + 1) {
        Err((ErrorKind::MalformedLength, i))
    } else {
        Ok(
            (
                ValueModel::StringValue(s.subrange(j + 1, j + 1 + digits_value(s, i, j))),
                j + 1 + digits_value(s, i, j),
            ),
        )
    }
}

/// Decoding of an integer at `i`: `i`, an optional minus, a canonical digit
/// run, then `e`. Leading zeros, `-0`, empty digit text and values outside
/// the signed 64-bit range are rejected.
pub open spec fn spec_decode_integer(s: Seq<u8>, i: int) -> Result<
    (ValueModel, int),
    (ErrorKind, int),
> {
    let neg = i + 1 < s.len() && s[i + 1] == 45;
    let d = if neg {
        i + 2
    } else {
        i + 1
    };
    if d >= s.len() {
        Err((ErrorKind::UnexpectedEndOfInput, s.len() as int))
    } else {
        let j = digit_run_end(s, d);
        if j == d {
            Err((ErrorKind::MalformedInteger, i))
        } else if j == s.len() {
            Err((ErrorKind::UnexpectedEndOfInput, s.len() as int))
        } else if s[j] != 101 {
            Err((ErrorKind::MalformedInteger, i))
        } else if s[d] == 48 && j - d > 1 {
            Err((ErrorKind::MalformedInteger, i))
        } else if neg && s[d] == 48 {
            Err((ErrorKind::MalformedInteger, i))
        } else {
            let m = digits_value(s, d, j);
            if neg {
                if m > (i64::MAX as int) + 1 {
                    Err((ErrorKind::MalformedInteger, i))
                } else {
                    Ok((ValueModel::IntegerValue(-m), j + 1))
                }
            } else {
                if m > i64::MAX as int {
                    Err((ErrorKind::MalformedInteger, i))
                } else {
                    Ok((ValueModel::IntegerValue(m), j + 1))
                }
            }
        }
    }
}

/// Decoding of one value at position `i`, dispatched on the leading byte.
/// Returns the value's model and the position just past it.
pub open spec fn spec_decode_at(s: Seq<u8>, i: int) -> Result<(ValueModel, int), (ErrorKind, int)>
    decreases s.len() - i, 0int
        when 0 <= i <= s.len()
{
    if i == s.len() {
        Err((ErrorKind::UnexpectedEndOfInput, s.len() as int))
    } else if is_ascii_digit(s[i]) {
        spec_decode_string(s, i)
    } else if s[i] == 105 {
        spec_decode_integer(s, i)
    } else if s[i] == 108 {
        match spec_decode_items(s, i + 1, Seq::empty()) {
            Ok((items, j)) => Ok((ValueModel::ListValue(items), j)),
            Err(e) => Err(e),
        }
    } else if s[i] == 100 {
        match spec_decode_pairs(s, i + 1, Seq::empty()) {
            Ok((entries, j)) => Ok((ValueModel::DictionaryValue(entries), j)),
            Err(e) => Err(e),
        }
    } else {
        Err((ErrorKind::MalformedInput, i))
    }
}

/// Decoding of list elements from `i` until the terminator, appending to the
/// elements decoded so far.
pub open spec fn spec_decode_items(s: Seq<u8>, i: int, acc: Seq<ValueModel>) -> Result<
    (Seq<ValueModel>, int),
    (ErrorKind, int),
>
    decreases s.len() - i, 1int
        when 0 <= i <= s.len()
{
    if i == s.len() {
        Err((ErrorKind::UnexpectedEndOfInput, s.len() as int))
    } else if s[i] == 101 {
        Ok((acc, i + 1))
    } else {
        match spec_decode_at(s, i) {
            Err(e) => Err(e),
            // The bound on `j` holds of every successful decode (see
            // `lemma_decode_at_canonical`); the guard discharges termination.
            Ok((v, j)) => if i < j <= s.len() {
                spec_decode_items(s, j, acc.push(v))
            } else {
                Err((ErrorKind::MalformedInput, i))
            },
        }
    }
}

/// Decoding of dictionary pairs from `i` until the terminator: a string key,
/// then a value, inserted in key order with a later equal key overwriting.
pub open spec fn spec_decode_pairs(
    s: Seq<u8>,
    i: int,
    acc: Seq<(Seq<u8>, ValueModel)>,
) -> Result<(Seq<(Seq<u8>, ValueModel)>, int), (ErrorKind, int)>
    decreases s.len() - i, 1int
        when 0 <= i <= s.len()
{
    if i == s.len() {
        Err((ErrorKind::UnexpectedEndOfInput, s.len() as int))
    } else if s[i] == 101 {
        Ok((acc, i + 1))
    } else {
        match spec_decode_at(s, i) {
            Err(e) => Err(e),
            // As in `spec_decode_items`, the position guards hold of every
            // successful decode and only discharge termination.
            Ok((k, j)) => match k {
                ValueModel::StringValue(kb) => if i < j <= s.len() {
                    match spec_decode_at(s, j) {
                        Err(e) => Err(e),
                        Ok((v, j2)) => if j < j2 <= s.len() {
                            spec_decode_pairs(s, j2, dict_insert_model(acc, kb, v))
                        } else {
                            Err((ErrorKind::MalformedInput, j))
                        },
                    }
                } else {
                    Err((ErrorKind::MalformedInput, i))
                },
                _ => Err((ErrorKind::UnexpectedKeyType, i)),
            },
        }
    }
}

/// Decoding of a whole buffer: exactly one value with no bytes after it.
pub open spec fn spec_decode_all(s: Seq<u8>) -> Result<ValueModel, (ErrorKind, int)> {
    match spec_decode_at(s, 0) {
        Err(e) => Err(e),
        Ok((v, j)) => if j == s.len() {
            Ok(v)
        } else {
            Err((ErrorKind::MalformedInput, j))
        },
    }
}

/// Decodes the first value of `input` and returns it with the offset just
/// past its final byte, so a caller can keep decoding from there.
pub fn decode_bencoded_value(input: &Vec<u8>) -> (r: Result<(Bencode, usize), DecodeError>)
    ensures
        (match r {
            Ok((v, end)) => 0 < end <= input@.len() && spec_decode_at(input@, 0) == Ok::<
                (ValueModel, int),
                (ErrorKind, int),
            >((view_of(v), end as int)),
            Err(e) => spec_decode_at(input@, 0) == Err::<(ValueModel, int), (ErrorKind, int)>(
                (e.kind, e.offset as int),
            ),
        }),
{
    decode_value(input, 0)
}

/// Decodes `input` to completion; trailing bytes after the first value are
/// an error at the offset where they begin.
pub fn decode_all(input: &Vec<u8>) -> (r: Result<Bencode, DecodeError>)
    ensures
        (match r {
            Ok(v) => spec_decode_all(input@) == Ok::<ValueModel, (ErrorKind, int)>(view_of(v)),
            Err(e) => spec_decode_all(input@) == Err::<ValueModel, (ErrorKind, int)>(
                (e.kind, e.offset as int),
            ),
        }),
{
    match decode_value(input, 0) {
        Err(e) => Err(e),
        Ok((v, end)) => if end == input.len() {
            Ok(v)
        } else {
            Err(DecodeError { kind: ErrorKind::MalformedInput, offset: end })
        },
    }
}

/// Decodes one value at `pos`, returning it together with the position just
/// past its final byte. The result and the position are exactly what the
/// model `spec_decode_at` states, errors too.
pub fn decode_value(input: &Vec<u8>, pos: usize) -> (r: Result<(Bencode, usize), DecodeError>)
    requires
        pos <= input@.len(),
    ensures
        (match r {
            Ok((v, end)) => pos < end <= input@.len() && spec_decode_at(input@, pos as int)
                == Ok::<(ValueModel, int), (ErrorKind, int)>((view_of(v), end as int)),
            Err(e) => spec_decode_at(input@, pos as int) == Err::<
                (ValueModel, int),
                (ErrorKind, int),
            >((e.kind, e.offset as int)),
        }),
    decreases input@.len() - pos,
{
    let ghost s = input@;
    if pos == input.len() {
        return Err(DecodeError { kind: ErrorKind::UnexpectedEndOfInput, offset: input.len() });
    }
    let b = input[pos];
    if b >= 48 && b <= 57 {
        decode_string(input, pos)
    } else if b == 105 {
        decode_integer(input, pos)
    } else if b == 108 {
        let mut items: Vec<Bencode> = Vec::new();
        let mut cur = pos + 1;
        loop
            invariant
                pos < cur <= s.len(),
                s == input@,
                pos < s.len(),
                s[pos as int] == 108,
                spec_decode_items(s, pos as int + 1, Seq::empty()) == spec_decode_items(
                    s,
                    cur as int,
                    view_of_seq(items@),
                ),
            decreases s.len() - cur,
        {
            if cur == input.len() {
                return Err(
                    DecodeError { kind: ErrorKind::UnexpectedEndOfInput, offset: input.len() },
                );
            }
            if input[cur] == 101 {
                return Ok((Bencode::ListValue(items), cur + 1));
            }
            match decode_value(input, cur) {
                Err(e) => {
                    return Err(e);
                },
                Ok((v, end)) => {
                    proof {
                        lemma_view_seq_push(items@, v);
                    }
                    items.push(v);
                    cur = end;
                },
            }
        }
    } else if b == 100 {
        let mut dict: Vec<(Vec<u8>, Bencode)> = Vec::new();
        let mut cur = pos + 1;
        loop
            invariant
                pos < cur <= s.len(),
                s == input@,
                pos < s.len(),
                s[pos as int] == 100,
                spec_decode_pairs(s, pos as int + 1, Seq::empty()) == spec_decode_pairs(
                    s,
                    cur as int,
                    view_of_entries(dict@),
                ),
            decreases s.len() - cur,
        {
            if cur == input.len() {
                return Err(
                    DecodeError { kind: ErrorKind::UnexpectedEndOfInput, offset: input.len() },
                );
            }
            if input[cur] == 101 {
                return Ok((Bencode::DictionaryValue(dict), cur + 1));
            }
            match decode_value(input, cur) {
                Err(e) => {
                    return Err(e);
                },
                Ok((kv, kend)) => match kv {
                    Bencode::StringValue(kb) => {
                        match decode_value(input, kend) {
                            Err(e) => {
                                return Err(e);
                            },
                            Ok((v, vend)) => {
                                dict_insert(&mut dict, kb, v);
                                cur = vend;
                            },
                        }
                    },
                    _ => {
                        return Err(DecodeError { kind: ErrorKind::UnexpectedKeyType, offset: cur });
                    },
                },
            }
        }
    } else {
        Err(DecodeError { kind: ErrorKind::MalformedInput, offset: pos })
    }
}

/// Decodes a string at `pos`: length prefix, colon, then that many bytes.
fn decode_string(input: &Vec<u8>, pos: usize) -> (r: Result<(Bencode, usize), DecodeError>)
    requires
        pos < input@.len(),
        is_ascii_digit(input@[pos as int]),
    ensures
        (match r {
            Ok((v, end)) => pos < end <= input@.len() && spec_decode_string(input@, pos as int)
                == Ok::<(ValueModel, int), (ErrorKind, int)>((view_of(v), end as int)),
            Err(e) => spec_decode_string(input@, pos as int) == Err::<
                (ValueModel, int),
                (ErrorKind, int),
            >((e.kind, e.offset as int)),
        }),
{
    let n = input.len();
    let mut j = pos;
    while j < n && input[j] >= 48 && input[j] <= 57
        invariant
            pos <= j <= n,
            n == input@.len(),
            forall|t: int| pos <= t < j ==> is_ascii_digit(#[trigger] input@[t]),
        decreases n - j,
    {
        j = j + 1;
    }
    proof {
        lemma_digit_run_end_is(input@, pos as int, j as int);
    }
    if j == n {
        return Err(DecodeError { kind: ErrorKind::UnexpectedEndOfInput, offset: n });
    }
    if input[j] != 58 {
        return Err(DecodeError { kind: ErrorKind::MalformedLength, offset: pos });
    }
    let remaining = n - j - 1;
    let mut acc: u128 = 0;
    let mut t = pos;
    proof {
        lemma_digits_value_nonneg(input@, pos as int, pos as int);
    }
    while t < j
        invariant
            pos <= t <= j <= n,
            j < n,
            n == input@.len(),
            remaining == n - j - 1,
            digit_run_end(input@, pos as int) == j as int,
            input@[j as int] == 58,
            forall|k: int| pos <= k < j ==> is_ascii_digit(#[trigger] input@[k]),
            acc == digits_value(input@, pos as int, t as int),
            acc <= remaining,
        decreases j - t,
    {
        let d = input[t];
        acc = acc * 10 + ((d - 48) as u128);
        t = t + 1;
        if acc > remaining as u128 {
            proof {
                lemma_digits_value_mono(input@, pos as int, t as int, j as int);
            }
            return Err(DecodeError { kind: ErrorKind::MalformedLength, offset: pos });
        }
    }
    let len = acc as usize;
    let start = j + 1;
    let mut bs: Vec<u8> = Vec::new();
    let mut c: usize = 0;
    while c < len
        invariant
            0 <= c <= len,
            start + len <= n,
            n == input@.len(),
            bs@.len() == c,
            forall|k: int| 0 <= k < c ==> bs@[k] == input@[start + k],
        decreases len - c,
    {
        bs.push(input[start + c]);
        c = c + 1;
    }
    proof {
        assert(bs@ =~= input@.subrange(start as int, (start + len) as int));
    }
    Ok((Bencode::StringValue(bs), start + len))
}

/// Decodes an integer at `pos`: `i`, optional minus, canonical digits, `e`.
fn decode_integer(input: &Vec<u8>, pos: usize) -> (r: Result<(Bencode, usize), DecodeError>)
    requires
        pos < input@.len(),
        input@[pos as int] == 105,
    ensures
        (match r {
            Ok((v, end)) => pos < end <= input@.len() && spec_decode_integer(input@, pos as int)
                == Ok::<(ValueModel, int), (ErrorKind, int)>((view_of(v), end as int)),
            Err(e) => spec_decode_integer(input@, pos as int) == Err::<
                (ValueModel, int),
                (ErrorKind, int),
            >((e.kind, e.offset as int)),
        }),
{
    let n = input.len();
    let neg = pos + 1 < n && input[pos + 1] == 45;
    let d = if neg {
        pos + 2
    } else {
        pos + 1
    };
    if d >= n {
        return Err(DecodeError { kind: ErrorKind::UnexpectedEndOfInput, offset: n });
    }
    let mut j = d;
    while j < n && input[j] >= 48 && input[j] <= 57
        invariant
            d <= j <= n,
            n == input@.len(),
            forall|t: int| d <= t < j ==> is_ascii_digit(#[trigger] input@[t]),
        decreases n - j,
    {
        j = j + 1;
    }
    proof {
        lemma_digit_run_end_is(input@, d as int, j as int);
    }
    if j == d {
        return Err(DecodeError { kind: ErrorKind::MalformedInteger, offset: pos });
    }
    if j == n {
        return Err(DecodeError { kind: ErrorKind::UnexpectedEndOfInput, offset: n });
    }
    if input[j] != 101 {
        return Err(DecodeError { kind: ErrorKind::MalformedInteger, offset: pos });
    }
    if input[d] == 48 && j - d > 1 {
        return Err(DecodeError { kind: ErrorKind::MalformedInteger, offset: pos });
    }
    if neg && input[d] == 48 {
        return Err(DecodeError { kind: ErrorKind::MalformedInteger, offset: pos });
    }
    let bound: u128 = (i64::MAX as u128) + 1;
    let mut acc: u128 = 0;
    let mut t = d;
    proof {
        lemma_digits_value_nonneg(input@, d as int, d as int);
    }
    while t < j
        invariant
            pos < d <= t <= j <= n,
            j < n,
            d < j,
            n == input@.len(),
            input@[pos as int] == 105,
            neg == (pos + 1 < n && input@[pos as int + 1] == 45),
            d == if neg { pos + 2 } else { pos + 1 },
            digit_run_end(input@, d as int) == j as int,
            input@[j as int] == 101,
            input@[d as int] == 48 ==> j - d == 1,
            neg ==> input@[d as int] != 48,
            bound == (i64::MAX as u128) + 1,
            forall|k: int| d <= k < j ==> is_ascii_digit(#[trigger] input@[k]),
            acc == digits_value(input@, d as int, t as int),
            acc <= bound,
        decreases j - t,
    {
        let g = input[t];
        acc = acc * 10 + ((g - 48) as u128);
        t = t + 1;
        if acc > bound {
            proof {
                lemma_digits_value_mono(input@, d as int, t as int, j as int);
            }
            return Err(DecodeError { kind: ErrorKind::MalformedInteger, offset: pos });
        }
    }
    if neg {
        let v: i64 = if acc == bound {
            i64::MIN
        } else {
            -(acc as i64)
        };
        Ok((Bencode::IntegerValue(v), j + 1))
    } else {
        if acc == bound {
            return Err(DecodeError { kind: ErrorKind::MalformedInteger, offset: pos });
        }
        Ok((Bencode::IntegerValue(acc as i64), j + 1))
    }
}

} // verus!
