//! The laws of the codec: every decoded tree is canonical, and decoding the
//! canonical encoding of a canonical tree gives that tree back.

use vstd::prelude::*;
use crate::digits::{dec_digits, digits_value, is_ascii_digit, lemma_dec_digits,
    lemma_digits_value_nonneg, lemma_digits_value_of_dec_digits};
use crate::decode::{digit_run_end, lemma_digit_run_end, lemma_digit_run_end_is, spec_decode_all,
    spec_decode_at, spec_decode_integer, spec_decode_items, spec_decode_pairs, spec_decode_string,
    ErrorKind};
use crate::encode::{encode_bytes, encode_entries, encode_items, spec_encode, spec_encode_int};
use crate::value::{all_canonical, canonical, dict_insert_model, entries_canonical, keys_sorted,
    lemma_all_canonical, lemma_dict_insert_append, lemma_dict_insert_sorted,
    lemma_entries_canonical, lex_lt, ValueModel};

verus! {

/// A successfully decoded value is canonical and ends past where it began.
pub proof fn lemma_decode_at_canonical(s: Seq<u8>, i: int)
    requires
        0 <= i <= s.len(),
    ensures
        (match spec_decode_at(s, i) {
            Ok((v, j)) => canonical(v) && i < j <= s.len(),
            Err(_) => true,
        }),
    decreases s.len() - i, 0int,
{
    if i == s.len() {
    } else if is_ascii_digit(s[i]) {
        lemma_digit_run_end(s, i);
        lemma_digits_value_nonneg(s, i, digit_run_end(s, i));
    } else if s[i] == 105 {
        let neg = i + 1 < s.len() && s[i + 1] == 45;
        let d = if neg {
            i + 2
        } else {
            i + 1
        };
        if d < s.len() {
            lemma_digit_run_end(s, d);
            lemma_digits_value_nonneg(s, d, digit_run_end(s, d));
        }
    } else if s[i] == 108 {
        lemma_decode_items_canonical(s, i + 1, Seq::empty());
    } else if s[i] == 100 {
        lemma_decode_pairs_canonical(s, i + 1, Seq::empty());
    }
}

proof fn lemma_decode_items_canonical(s: Seq<u8>, i: int, acc: Seq<ValueModel>)
    requires
        0 <= i <= s.len(),
        all_canonical(acc),
    ensures
        (match spec_decode_items(s, i, acc) {
            Ok((items, j)) => all_canonical(items) && i < j <= s.len(),
            Err(_) => true,
        }),
    decreases s.len() - i, 1int,
{
    if i == s.len() {
    } else if s[i] == 101 {
    } else {
        lemma_decode_at_canonical(s, i);
        match spec_decode_at(s, i) {
            Err(_) => {},
            Ok((v, j)) => {
                lemma_all_canonical(acc);
                lemma_all_canonical(acc.push(v));
                assert forall|t: int| 0 <= t < acc.push(v).len() implies canonical(
                    #[trigger] acc.push(v)[t],
                ) by {
                    if t < acc.len() {
                        assert(acc.push(v)[t] == acc[t]);
                    }
                }
                lemma_decode_items_canonical(s, j, acc.push(v));
            },
        }
    }
}

proof fn lemma_decode_pairs_canonical(s: Seq<u8>, i: int, acc: Seq<(Seq<u8>, ValueModel)>)
    requires
        0 <= i <= s.len(),
        entries_canonical(acc),
        keys_sorted(acc),
    ensures
        (match spec_decode_pairs(s, i, acc) {
            Ok((entries, j)) => entries_canonical(entries) && keys_sorted(entries) && i < j
                <= s.len(),
            Err(_) => true,
        }),
    decreases s.len() - i, 1int,
{
    if i == s.len() {
    } else if s[i] == 101 {
    } else {
        lemma_decode_at_canonical(s, i);
        match spec_decode_at(s, i) {
            Err(_) => {},
            Ok((k, j)) => match k {
                ValueModel::StringValue(kb) => {
                    lemma_decode_at_canonical(s, j);
                    match spec_decode_at(s, j) {
                        Err(_) => {},
                        Ok((v, j2)) => {
                            lemma_dict_insert_sorted(acc, kb, v);
                            lemma_decode_pairs_canonical(s, j2, dict_insert_model(acc, kb, v));
                        },
                    }
                },
                _ => {},
            },
        }
    }
}

/// Every tree `decode_all` accepts is canonical: dictionaries come out with
/// sorted, unique keys whatever order the wire had.
pub proof fn lemma_decoded_canonical(s: Seq<u8>, v: ValueModel)
    requires
        spec_decode_all(s) == Ok::<ValueModel, (ErrorKind, int)>(v),
    ensures
        canonical(v),
{
    lemma_decode_at_canonical(s, 0);
}

/// Every encoding is nonempty and begins with a recognized leading byte.
pub proof fn lemma_spec_encode_first(v: ValueModel)
    ensures
        spec_encode(v).len() >= 1,
        is_ascii_digit(spec_encode(v)[0]) || spec_encode(v)[0] == 105 || spec_encode(v)[0] == 108
            || spec_encode(v)[0] == 100,
{
    match v {
        ValueModel::StringValue(bs) => {
            lemma_dec_digits(bs.len());
            assert(spec_encode(v)[0] == dec_digits(bs.len())[0]);
        },
        ValueModel::IntegerValue(_) => {
            assert(spec_encode(v)[0] == 105);
        },
        ValueModel::ListValue(_) => {
            assert(spec_encode(v)[0] == 108);
        },
        ValueModel::DictionaryValue(_) => {
            assert(spec_encode(v)[0] == 100);
        },
    }
}

/// A buffer carrying the wire form of a byte string at `i` decodes to that
/// string, ending right after it.
proof fn lemma_decode_encoded_string(bs: Seq<u8>, s: Seq<u8>, i: int)
    requires
        0 <= i,
        i + encode_bytes(bs).len() <= s.len(),
        s.subrange(i, i + encode_bytes(bs).len() as int) == encode_bytes(bs),
    ensures
        spec_decode_at(s, i) == Ok::<(ValueModel, int), (ErrorKind, int)>(
            (ValueModel::StringValue(bs), i + encode_bytes(bs).len() as int),
        ),
{
    let l = dec_digits(bs.len());
    let enc = encode_bytes(bs);
    let ll = l.len() as int;
    let el = enc.len() as int;
    lemma_dec_digits(bs.len());
    assert forall|t: int| 0 <= t < el implies s[i + t] == enc[t] by {
        assert(s.subrange(i, i + el)[t] == s[i + t]);
    }
    assert forall|t: int| 0 <= t < ll implies enc[t] == l[t] by {
        assert((l + seq![58u8])[t] == l[t]);
    }
    assert(enc[ll] == (l + seq![58u8])[ll]);
    assert(enc[ll] == 58);
    assert forall|t: int| 0 <= t < bs.len() implies enc[ll + 1 + t] == bs[t] by {}
    assert forall|t: int| i <= t < i + ll implies is_ascii_digit(s[t]) by {
        assert(s[t] == enc[t - i]);
        assert(enc[t - i] == l[t - i]);
    }
    assert(s[i + ll] == 58);
    lemma_digit_run_end_is(s, i, i + ll);
    assert(s[i] == l[0]);
    assert(is_ascii_digit(s[i]));
    assert(s.subrange(i, i + ll) =~= l);
    lemma_digits_value_of_dec_digits(bs.len(), s, i);
    let j = i + ll;
    assert(digits_value(s, i, j) == bs.len());
    assert(j < s.len());
    assert(bs.len() <= s.len() - (j + 1));
    assert(s.subrange(j + 1, j + 1 + bs.len() as int) =~= bs);
    assert(spec_decode_at(s, i) == spec_decode_string(s, i));
}

/// A buffer carrying the wire form of an integer at `i` decodes to it.
proof fn lemma_decode_encoded_integer(n: int, s: Seq<u8>, i: int)
    requires
        i64::MIN <= n <= i64::MAX,
        0 <= i,
        i + spec_encode(ValueModel::IntegerValue(n)).len() <= s.len(),
        s.subrange(i, i + spec_encode(ValueModel::IntegerValue(n)).len() as int) == spec_encode(
            ValueModel::IntegerValue(n),
        ),
    ensures
        spec_decode_at(s, i) == Ok::<(ValueModel, int), (ErrorKind, int)>(
            (ValueModel::IntegerValue(n), i + spec_encode(ValueModel::IntegerValue(n)).len() as int),
        ),
{
    let body = spec_encode_int(n);
    let enc = spec_encode(ValueModel::IntegerValue(n));
    assert(enc == seq![105u8] + body + seq![101u8]);
    let el = enc.len() as int;
    let bl = body.len() as int;
    assert forall|t: int| 0 <= t < el implies s[i + t] == enc[t] by {
        assert(s.subrange(i, i + el)[t] == s[i + t]);
    }
    assert(enc[0] == (seq![105u8] + body)[0]);
    assert(enc[0] == 105);
    assert(enc[el - 1] == 101);
    assert forall|t: int| 0 <= t < bl implies enc[1 + t] == body[t] by {
        assert((seq![105u8] + body)[1 + t] == body[t]);
    }
    let mag = if n < 0 {
        (-n) as nat
    } else {
        n as nat
    };
    let dg = dec_digits(mag);
    let dl = dg.len() as int;
    lemma_dec_digits(mag);
    let d = if n < 0 {
        i + 2
    } else {
        i + 1
    };
    if n < 0 {
        assert(body == seq![45u8] + dg);
        assert(body[0] == 45);
        assert(s[i + 1] == 45);
        assert forall|t: int| 0 <= t < dl implies body[1 + t] == dg[t] by {}
        assert forall|t: int| d <= t < d + dl implies is_ascii_digit(s[t]) by {
            assert(s[t] == enc[t - i]);
            assert(enc[t - i] == body[t - i - 1]);
            assert(body[t - i - 1] == dg[t - d]);
        }
    } else {
        assert(body == dg);
        assert forall|t: int| d <= t < d + dl implies is_ascii_digit(s[t]) by {
            assert(s[t] == enc[t - i]);
            assert(enc[t - i] == body[t - i - 1]);
        }
        assert(s[i + 1] == body[0]);
        assert(is_ascii_digit(s[i + 1]));
        assert(s[i + 1] != 45);
    }
    let j = d + dl;
    assert(j == i + el - 1);
    assert(s[j] == enc[el - 1]);
    assert(s[j] == 101);
    lemma_digit_run_end_is(s, d, j);
    assert(s[d] == dg[0]);
    if mag > 0 {
        assert(s[d] != 48);
    } else {
        assert(dl == 1);
    }
    assert(s.subrange(d, d + dl) =~= dg);
    lemma_digits_value_of_dec_digits(mag, s, d);
    assert(digits_value(s, d, j) == mag);
    if n < 0 {
        assert(mag <= (i64::MAX as int) + 1);
        assert(spec_decode_integer(s, i) == Ok::<(ValueModel, int), (ErrorKind, int)>(
            (ValueModel::IntegerValue(n), j + 1),
        ));
    } else {
        assert(mag <= i64::MAX as int);
        assert(spec_decode_integer(s, i) == Ok::<(ValueModel, int), (ErrorKind, int)>(
            (ValueModel::IntegerValue(n), j + 1),
        ));
    }
    assert(!is_ascii_digit(105u8));
    assert(spec_decode_at(s, i) == spec_decode_integer(s, i));
}

/// Decoding at the canonical encoding of a canonical tree yields that tree.
pub proof fn lemma_decode_encoded_value(v: ValueModel, s: Seq<u8>, i: int)
    requires
        canonical(v),
        0 <= i,
        i + spec_encode(v).len() <= s.len(),
        s.subrange(i, i + spec_encode(v).len() as int) == spec_encode(v),
    ensures
        spec_decode_at(s, i) == Ok::<(ValueModel, int), (ErrorKind, int)>(
            (v, i + spec_encode(v).len() as int),
        ),
    decreases v, 2int,
{
    match v {
        ValueModel::StringValue(bs) => {
            lemma_decode_encoded_string(bs, s, i);
        },
        ValueModel::IntegerValue(n) => {
            lemma_decode_encoded_integer(n, s, i);
        },
        ValueModel::ListValue(items) => {
            let inner = encode_items(items);
            let enc = spec_encode(v);
            assert(enc == seq![108u8] + inner + seq![101u8]);
            let el = enc.len() as int;
            let il = inner.len() as int;
            assert forall|t: int| 0 <= t < el implies s[i + t] == enc[t] by {
                assert(s.subrange(i, i + el)[t] == s[i + t]);
            }
            assert(enc[0] == (seq![108u8] + inner)[0]);
            assert(s[i] == 108);
            assert forall|t: int| 0 <= t < il implies enc[1 + t] == inner[t] by {
                assert((seq![108u8] + inner)[1 + t] == inner[t]);
            }
            assert(s.subrange(i + 1, i + 1 + il) =~= inner);
            assert(s[i + 1 + il] == enc[el - 1]);
            assert(s[i + 1 + il] == 101);
            lemma_decode_encoded_items(items, s, i + 1, Seq::empty());
            assert(Seq::<ValueModel>::empty() + items =~= items);
            assert(!is_ascii_digit(108u8));
        },
        ValueModel::DictionaryValue(entries) => {
            let inner = encode_entries(entries);
            let enc = spec_encode(v);
            assert(enc == seq![100u8] + inner + seq![101u8]);
            let el = enc.len() as int;
            let il = inner.len() as int;
            assert forall|t: int| 0 <= t < el implies s[i + t] == enc[t] by {
                assert(s.subrange(i, i + el)[t] == s[i + t]);
            }
            assert(enc[0] == (seq![100u8] + inner)[0]);
            assert(s[i] == 100);
            assert forall|t: int| 0 <= t < il implies enc[1 + t] == inner[t] by {
                assert((seq![100u8] + inner)[1 + t] == inner[t]);
            }
            assert(s.subrange(i + 1, i + 1 + il) =~= inner);
            assert(s[i + 1 + il] == enc[el - 1]);
            assert(s[i + 1 + il] == 101);
            assert(Seq::<(Seq<u8>, ValueModel)>::empty() + entries =~= entries);
            lemma_decode_encoded_pairs(entries, s, i + 1, Seq::empty());
            assert(!is_ascii_digit(100u8));
        },
    }
}

proof fn lemma_decode_encoded_items(items: Seq<ValueModel>, s: Seq<u8>, i: int, acc: Seq<
    ValueModel,
>)
    requires
        all_canonical(items),
        0 <= i,
        i + encode_items(items).len() + 1 <= s.len(),
        s.subrange(i, i + encode_items(items).len() as int) == encode_items(items),
        s[i + encode_items(items).len()] == 101,
    ensures
        spec_decode_items(s, i, acc) == Ok::<(Seq<ValueModel>, int), (ErrorKind, int)>(
            (acc + items, i + encode_items(items).len() + 1),
        ),
    decreases items, 1int,
{
    if items.len() == 0 {
        assert(encode_items(items).len() == 0);
        assert(s[i] == 101);
        assert(acc + items =~= acc);
    } else {
        let e0 = spec_encode(items[0]);
        let rest = encode_items(items.drop_first());
        assert(encode_items(items) == e0 + rest);
        let whole = encode_items(items);
        let wl = whole.len() as int;
        assert forall|t: int| 0 <= t < wl implies s[i + t] == whole[t] by {
            assert(s.subrange(i, i + wl)[t] == s[i + t]);
        }
        lemma_all_canonical(items);
        lemma_spec_encode_first(items[0]);
        assert(s[i] == whole[0]);
        assert(whole[0] == e0[0]);
        assert(s[i] != 101);
        assert(i < s.len());
        assert(s.subrange(i, i + e0.len() as int) =~= e0);
        lemma_decode_encoded_value(items[0], s, i);
        let j = i + e0.len() as int;
        assert forall|t: int| 0 <= t < rest.len() implies s[j + t] == rest[t] by {
            assert(whole[e0.len() + t] == rest[t]);
        }
        assert(s.subrange(j, j + rest.len() as int) =~= rest);
        assert(j + rest.len() == i + wl);
        assert(s[j + rest.len()] == 101);
        lemma_decode_encoded_items(items.drop_first(), s, j, acc.push(items[0]));
        assert(acc.push(items[0]) + items.drop_first() =~= acc + items);
    }
}

proof fn lemma_decode_encoded_pairs(
    entries: Seq<(Seq<u8>, ValueModel)>,
    s: Seq<u8>,
    i: int,
    acc: Seq<(Seq<u8>, ValueModel)>,
)
    requires
        entries_canonical(entries),
        keys_sorted(acc + entries),
        0 <= i,
        i + encode_entries(entries).len() + 1 <= s.len(),
        s.subrange(i, i + encode_entries(entries).len() as int) == encode_entries(entries),
        s[i + encode_entries(entries).len()] == 101,
    ensures
        spec_decode_pairs(s, i, acc) == Ok::<(Seq<(Seq<u8>, ValueModel)>, int), (ErrorKind, int)>(
            (acc + entries, i + encode_entries(entries).len() + 1),
        ),
    decreases entries, 1int,
{
    if entries.len() == 0 {
        assert(encode_entries(entries).len() == 0);
        assert(s[i] == 101);
        assert(acc + entries =~= acc);
    } else {
        let kb = entries[0].0;
        let v0 = entries[0].1;
        let ek = encode_bytes(kb);
        let ev = spec_encode(v0);
        let rest = encode_entries(entries.drop_first());
        assert(encode_entries(entries) == ek + ev + rest);
        let whole = encode_entries(entries);
        let wl = whole.len() as int;
        assert forall|t: int| 0 <= t < wl implies s[i + t] == whole[t] by {
            assert(s.subrange(i, i + wl)[t] == s[i + t]);
        }
        lemma_dec_digits(kb.len());
        assert forall|t: int| 0 <= t < ek.len() implies whole[t] == ek[t] by {
            assert((ek + ev)[t] == ek[t]);
            assert(((ek + ev) + rest)[t] == (ek + ev)[t]);
        }
        assert(ek[0] == (dec_digits(kb.len()) + seq![58u8])[0]);
        assert(ek[0] == dec_digits(kb.len())[0]);
        assert(s[i] == ek[0]);
        assert(is_ascii_digit(s[i]));
        assert(s[i] != 101);
        assert(i < s.len());
        assert(s.subrange(i, i + ek.len() as int) =~= ek);
        lemma_decode_encoded_string(kb, s, i);
        let j = i + ek.len() as int;
        assert forall|t: int| 0 <= t < ev.len() implies whole[ek.len() + t] == ev[t] by {
            assert((ek + ev)[ek.len() + t] == ev[t]);
            assert(((ek + ev) + rest)[ek.len() + t] == (ek + ev)[ek.len() + t]);
        }
        assert(s.subrange(j, j + ev.len() as int) =~= ev);
        lemma_entries_canonical(entries);
        assert(decreases_to!(entries => entries[0]));
        assert(decreases_to!(entries[0] => entries[0].1));
        lemma_decode_encoded_value(v0, s, j);
        lemma_spec_encode_first(v0);
        let j2 = j + ev.len() as int;
        assert forall|t: int| 0 <= t < acc.len() implies lex_lt(#[trigger] acc[t].0, kb) by {
            assert((acc + entries)[t] == acc[t]);
            assert((acc + entries)[acc.len() as int] == entries[0]);
            assert(lex_lt((acc + entries)[t].0, (acc + entries)[acc.len() as int].0));
        }
        lemma_dict_insert_append(acc, kb, v0);
        assert((kb, v0) == entries[0]);
        assert(dict_insert_model(acc, kb, v0) == acc.push(entries[0]));
        assert forall|t: int| 0 <= t < rest.len() implies s[j2 + t] == rest[t] by {
            assert(whole[ek.len() + ev.len() + t] == rest[t]);
        }
        assert(s.subrange(j2, j2 + rest.len() as int) =~= rest);
        assert(j2 + rest.len() == i + wl);
        assert(s[j2 + rest.len()] == 101);
        assert(acc.push(entries[0]) + entries.drop_first() =~= acc + entries);
        lemma_decode_encoded_pairs(entries.drop_first(), s, j2, acc.push(entries[0]));
    }
}

/// Round trip: decoding the canonical encoding of a canonical tree yields
/// exactly that tree, with no bytes left over.
pub proof fn lemma_round_trip(v: ValueModel)
    requires
        canonical(v),
    ensures
        spec_decode_all(spec_encode(v)) == Ok::<ValueModel, (ErrorKind, int)>(v),
{
    let s = spec_encode(v);
    assert(s.subrange(0, s.len() as int) =~= s);
    lemma_decode_encoded_value(v, s, 0);
}

/// Idempotent re-encoding: a buffer that is the canonical encoding of some
/// canonical tree decodes and re-encodes to the very same bytes.
pub proof fn lemma_reencode_identity(s: Seq<u8>, w: ValueModel, v: ValueModel)
    requires
        canonical(w),
        s == spec_encode(w),
        spec_decode_all(s) == Ok::<ValueModel, (ErrorKind, int)>(v),
    ensures
        spec_encode(v) == s,
        canonical(v),
{
    lemma_round_trip(w);
    lemma_decoded_canonical(s, v);
}

} // verus!
