//! The encoder: the canonical byte form of a value tree, the structural
//! inverse of decoding.

use vstd::prelude::*;
use crate::digits::dec_digits;
use crate::value::{lemma_view_of_entries, lemma_view_of_seq, view_of, view_of_entries,
    view_of_seq, Bencode, ValueModel};

verus! {

/// Wire form of a byte string: decimal length, colon, raw bytes.
pub open spec fn encode_bytes(bs: Seq<u8>) -> Seq<u8> {
    dec_digits(bs.len()) + seq![58u8] + bs
}

/// Minimal decimal text of a signed integer: a minus only for negatives.
pub open spec fn spec_encode_int(n: int) -> Seq<u8> {
    if n < 0 {
        seq![45u8] + dec_digits((-n) as nat)
    } else {
        dec_digits(n as nat)
    }
}

/// Canonical wire bytes of a value tree.
pub open spec fn spec_encode(v: ValueModel) -> Seq<u8>
    decreases v, 2int,
{
    match v {
        ValueModel::StringValue(bs) => encode_bytes(bs),
        ValueModel::IntegerValue(n) => seq![105u8] + spec_encode_int(n) + seq![101u8],
        ValueModel::ListValue(items) => seq![108u8] + encode_items(items) + seq![101u8],
        ValueModel::DictionaryValue(entries) => seq![100u8] + encode_entries(entries) + seq![
            101u8,
        ],
    }
}

pub open spec fn encode_items(items: Seq<ValueModel>) -> Seq<u8>
    decreases items, 1int,
{
    if items.len() == 0 {
        Seq::empty()
    } else {
        spec_encode(items[0]) + encode_items(items.drop_first())
    }
}

pub open spec fn encode_entries(entries: Seq<(Seq<u8>, ValueModel)>) -> Seq<u8>
    decreases entries, 1int,
{
    if entries.len() == 0 {
        Seq::empty()
    } else {
        encode_bytes(entries[0].0) + spec_encode(entries[0].1) + encode_entries(
            entries.drop_first(),
        )
    }
}

pub proof fn lemma_encode_items_push(s: Seq<ValueModel>, x: ValueModel)
    ensures
        encode_items(s.push(x)) == encode_items(s) + spec_encode(x),
    decreases s.len(),
{
    if s.len() == 0 {
        reveal_with_fuel(encode_items, 2);
        assert(s.push(x)[0] == x);
        assert(s.push(x).drop_first() =~= Seq::<ValueModel>::empty());
        assert(encode_items(s.push(x)) == spec_encode(x) + encode_items(
            Seq::<ValueModel>::empty(),
        ));
        assert(spec_encode(x) + Seq::<u8>::empty() =~= spec_encode(x));
        assert(Seq::<u8>::empty() + spec_encode(x) =~= spec_encode(x));
    } else {
        assert(s.push(x).drop_first() =~= s.drop_first().push(x));
        lemma_encode_items_push(s.drop_first(), x);
        assert(s.push(x)[0] == s[0]);
        assert(encode_items(s.push(x)) == spec_encode(s[0]) + (encode_items(s.drop_first())
            + spec_encode(x)));
        assert(spec_encode(s[0]) + (encode_items(s.drop_first()) + spec_encode(x)) =~= (
        spec_encode(s[0]) + encode_items(s.drop_first())) + spec_encode(x));
    }
}

pub proof fn lemma_encode_entries_push(s: Seq<(Seq<u8>, ValueModel)>, p: (Seq<u8>, ValueModel))
    ensures
        encode_entries(s.push(p)) == encode_entries(s) + encode_bytes(p.0) + spec_encode(p.1),
    decreases s.len(),
{
    if s.len() == 0 {
        reveal_with_fuel(encode_entries, 2);
        assert(s.push(p)[0] == p);
        assert(s.push(p).drop_first() =~= Seq::<(Seq<u8>, ValueModel)>::empty());
        assert(encode_entries(s.push(p)) == encode_bytes(p.0) + spec_encode(p.1) + encode_entries(
            Seq::<(Seq<u8>, ValueModel)>::empty(),
        ));
        assert(encode_bytes(p.0) + spec_encode(p.1) + Seq::<u8>::empty() =~= encode_bytes(p.0)
            + spec_encode(p.1));
        assert(Seq::<u8>::empty() + encode_bytes(p.0) + spec_encode(p.1) =~= encode_bytes(p.0)
            + spec_encode(p.1));
    } else {
        assert(s.push(p).drop_first() =~= s.drop_first().push(p));
        lemma_encode_entries_push(s.drop_first(), p);
        assert(s.push(p)[0] == s[0]);
        assert(encode_entries(s.push(p)) == encode_bytes(s[0].0) + spec_encode(s[0].1) + (
        encode_entries(s.drop_first()) + encode_bytes(p.0) + spec_encode(p.1)));
        assert(encode_bytes(s[0].0) + spec_encode(s[0].1) + (encode_entries(s.drop_first())
            + encode_bytes(p.0) + spec_encode(p.1)) =~= (encode_bytes(s[0].0) + spec_encode(
            s[0].1,
        ) + encode_entries(s.drop_first())) + encode_bytes(p.0) + spec_encode(p.1));
    }
}

/// Appends the minimal decimal digits of `n`.
pub(crate) fn push_digits(out: &mut Vec<u8>, n: u64)
    ensures
        final(out)@ == old(out)@ + dec_digits(n as nat),
    decreases n,
{
    if n < 10 {
        out.push((48 + n) as u8);
        proof {
            assert(final(out)@ =~= old(out)@ + dec_digits(n as nat));
        }
    } else {
        push_digits(out, n / 10);
        out.push((48 + n % 10) as u8);
        proof {
            assert(dec_digits(n as nat) == dec_digits((n as nat) / 10).push(
                (48 + (n as nat) % 10) as u8,
            ));
            assert((n / 10) as nat == (n as nat) / 10);
            assert(final(out)@ =~= old(out)@ + dec_digits(n as nat));
        }
    }
}

/// Appends the minimal decimal text of a signed integer.
pub(crate) fn push_int(out: &mut Vec<u8>, n: i64)
    ensures
        final(out)@ == old(out)@ + spec_encode_int(n as int),
{
    if n < 0 {
        out.push(45);
        let mag: u64 = (-(n as i128)) as u64;
        proof {
            assert(mag as nat == -(n as int));
        }
        push_digits(out, mag);
        proof {
            assert(final(out)@ =~= old(out)@ + (seq![45u8] + dec_digits(mag as nat)));
        }
    } else {
        push_digits(out, n as u64);
        proof {
            assert((n as u64) as nat == n as int);
        }
    }
}

/// Appends all bytes of `bs`.
pub(crate) fn push_bytes(out: &mut Vec<u8>, bs: &Vec<u8>)
    ensures
        final(out)@ == old(out)@ + bs@,
{
    let mut i: usize = 0;
    while i < bs.len()
        invariant
            0 <= i <= bs@.len(),
            out@ == old(out)@ + bs@.take(i as int),
        decreases bs@.len() - i,
    {
        out.push(bs[i]);
        proof {
            assert(bs@.take(i as int + 1) =~= bs@.take(i as int).push(bs@[i as int]));
            assert(old(out)@ + bs@.take(i as int + 1) =~= (old(out)@ + bs@.take(i as int)).push(
                bs@[i as int],
            ));
        }
        i = i + 1;
    }
    proof {
        assert(bs@.take(bs@.len() as int) =~= bs@);
    }
}

/// Encodes a value tree to its canonical wire bytes. Total: every tree has
/// an encoding.
pub fn encode(v: &Bencode) -> (r: Vec<u8>)
    ensures
        r@ == spec_encode(view_of(*v)),
    decreases *v,
{
    match v {
        Bencode::StringValue(bs) => {
            let mut out: Vec<u8> = Vec::new();
            push_digits(&mut out, bs.len() as u64);
            out.push(58);
            push_bytes(&mut out, bs);
            proof {
                assert((bs.len() as u64) as nat == bs@.len());
                assert(out@ =~= encode_bytes(bs@));
            }
            out
        },
        Bencode::IntegerValue(n) => {
            let mut out: Vec<u8> = Vec::new();
            out.push(105);
            push_int(&mut out, *n);
            out.push(101);
            proof {
                assert(out@ =~= seq![105u8] + spec_encode_int(*n as int) + seq![101u8]);
            }
            out
        },
        Bencode::ListValue(items) => {
            let ghost m = view_of_seq(items@);
            proof {
                lemma_view_of_seq(items@);
            }
            let mut out: Vec<u8> = Vec::new();
            out.push(108);
            let mut i: usize = 0;
            while i < items.len()
                invariant
                    0 <= i <= items@.len(),
                    m == view_of_seq(items@),
                    m.len() == items@.len(),
                    forall|j: int|
                        #![trigger m[j]]
                        0 <= j < m.len() ==> m[j] == view_of(items@[j]),
                    *v == Bencode::ListValue(*items),
                    out@ == seq![108u8] + encode_items(m.take(i as int)),
                decreases items@.len() - i,
            {
                proof {
                    assert(decreases_to!((*v) => (*v)->ListValue_0));
                    assert((*v)->ListValue_0 == *items);
                    assert(decreases_to!(*items => items@[i as int]));
                }
                let mut e = encode(&items[i]);
                out.append(&mut e);
                proof {
                    lemma_encode_items_push(m.take(i as int), m[i as int]);
                    assert(m.take(i as int + 1) =~= m.take(i as int).push(m[i as int]));
                    assert((seq![108u8] + encode_items(m.take(i as int))) + spec_encode(
                        m[i as int],
                    ) =~= seq![108u8] + encode_items(m.take(i as int + 1)));
                }
                i = i + 1;
            }
            out.push(101);
            proof {
                assert(m.take(m.len() as int) =~= m);
                assert(out@ =~= seq![108u8] + encode_items(m) + seq![101u8]);
            }
            out
        },
        Bencode::DictionaryValue(entries) => {
            let ghost m = view_of_entries(entries@);
            proof {
                lemma_view_of_entries(entries@);
            }
            let mut out: Vec<u8> = Vec::new();
            out.push(100);
            let mut i: usize = 0;
            while i < entries.len()
                invariant
                    0 <= i <= entries@.len(),
                    m == view_of_entries(entries@),
                    m.len() == entries@.len(),
                    forall|j: int|
                        #![trigger m[j]]
                        0 <= j < m.len() ==> m[j] == (entries@[j].0@, view_of(entries@[j].1)),
                    *v == Bencode::DictionaryValue(*entries),
                    out@ == seq![100u8] + encode_entries(m.take(i as int)),
                decreases entries@.len() - i,
            {
                proof {
                    assert(decreases_to!((*v) => (*v)->DictionaryValue_0));
                    assert((*v)->DictionaryValue_0 == *entries);
                    assert(decreases_to!(*entries => entries@[i as int]));
                    assert(decreases_to!(entries@[i as int] => entries@[i as int].1));
                }
                let key = &entries[i].0;
                push_digits(&mut out, key.len() as u64);
                out.push(58);
                push_bytes(&mut out, key);
                let mut e = encode(&entries[i].1);
                out.append(&mut e);
                proof {
                    lemma_encode_entries_push(m.take(i as int), m[i as int]);
                    assert(m.take(i as int + 1) =~= m.take(i as int).push(m[i as int]));
                    assert((key.len() as u64) as nat == key@.len());
                    assert(out@ =~= seq![100u8] + encode_entries(m.take(i as int + 1)));
                }
                i = i + 1;
            }
            out.push(101);
            proof {
                assert(m.take(m.len() as int) =~= m);
                assert(out@ =~= seq![100u8] + encode_entries(m) + seq![101u8]);
            }
            out
        },
    }
}

} // verus!
