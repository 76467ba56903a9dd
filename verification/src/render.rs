//! Human-readable rendering of a value tree for diagnostic output: strings
//! quoted, integers bare, lists bracketed, dictionaries braced, elements
//! separated by a comma and a space. This is not the wire format.

use vstd::prelude::*;
use crate::encode::{push_bytes, push_int, spec_encode_int};
use crate::value::{lemma_view_of_entries, lemma_view_of_seq, view_of, view_of_entries,
    view_of_seq, Bencode, ValueModel};

verus! {

/// The rendered text of a value tree, as bytes.
pub open spec fn spec_render(v: ValueModel) -> Seq<u8>
    decreases v, 2int,
{
    match v {
        ValueModel::StringValue(bs) => seq![34u8] + bs + seq![34u8],
        ValueModel::IntegerValue(n) => spec_encode_int(n),
        ValueModel::ListValue(items) => seq![91u8] + render_items(items) + seq![93u8],
        ValueModel::DictionaryValue(entries) => seq![123u8] + render_entries(entries) + seq![
            125u8,
        ],
    }
}

pub open spec fn render_items(items: Seq<ValueModel>) -> Seq<u8>
    decreases items, 1int,
{
    if items.len() == 0 {
        Seq::empty()
    } else {
        spec_render(items[0]) + render_items_rest(items.drop_first())
    }
}

pub open spec fn render_items_rest(items: Seq<ValueModel>) -> Seq<u8>
    decreases items, 1int,
{
    if items.len() == 0 {
        Seq::empty()
    } else {
        seq![44u8, 32u8] + spec_render(items[0]) + render_items_rest(items.drop_first())
    }
}

/// One dictionary entry: the key quoted, a colon and a space, the value.
pub open spec fn render_entry(kb: Seq<u8>, v: ValueModel) -> Seq<u8>
    decreases v,
{
    seq![34u8] + kb + seq![34u8, 58u8, 32u8] + spec_render(v)
}

pub open spec fn render_entries(entries: Seq<(Seq<u8>, ValueModel)>) -> Seq<u8>
    decreases entries, 1int,
{
    if entries.len() == 0 {
        Seq::empty()
    } else {
        render_entry(entries[0].0, entries[0].1) + render_entries_rest(entries.drop_first())
    }
}

pub open spec fn render_entries_rest(entries: Seq<(Seq<u8>, ValueModel)>) -> Seq<u8>
    decreases entries, 1int,
{
    if entries.len() == 0 {
        Seq::empty()
    } else {
        seq![44u8, 32u8] + render_entry(entries[0].0, entries[0].1) + render_entries_rest(
            entries.drop_first(),
        )
    }
}

proof fn lemma_render_items_rest_push(s: Seq<ValueModel>, x: ValueModel)
    ensures
        render_items_rest(s.push(x)) == render_items_rest(s) + (seq![44u8, 32u8] + spec_render(x)),
    decreases s.len(),
{
    if s.len() == 0 {
        reveal_with_fuel(render_items_rest, 2);
        assert(s.push(x)[0] == x);
        assert(s.push(x).drop_first() =~= Seq::<ValueModel>::empty());
        assert(seq![44u8, 32u8] + spec_render(x) + Seq::<u8>::empty() =~= seq![44u8, 32u8]
            + spec_render(x));
        assert(Seq::<u8>::empty() + (seq![44u8, 32u8] + spec_render(x)) =~= seq![44u8, 32u8]
            + spec_render(x));
    } else {
        assert(s.push(x).drop_first() =~= s.drop_first().push(x));
        lemma_render_items_rest_push(s.drop_first(), x);
        assert(s.push(x)[0] == s[0]);
        assert(render_items_rest(s.push(x)) == seq![44u8, 32u8] + spec_render(s[0]) + (
        render_items_rest(s.drop_first()) + (seq![44u8, 32u8] + spec_render(x))));
        assert(seq![44u8, 32u8] + spec_render(s[0]) + (render_items_rest(s.drop_first()) + (seq![
            44u8,
            32u8,
        ] + spec_render(x))) =~= (seq![44u8, 32u8] + spec_render(s[0]) + render_items_rest(
            s.drop_first(),
        )) + (seq![44u8, 32u8] + spec_render(x)));
    }
}

proof fn lemma_render_items_push(s: Seq<ValueModel>, x: ValueModel)
    ensures
        s.len() == 0 ==> render_items(s.push(x)) == spec_render(x),
        s.len() > 0 ==> render_items(s.push(x)) == render_items(s) + (seq![44u8, 32u8]
            + spec_render(x)),
{
    if s.len() == 0 {
        reveal_with_fuel(render_items_rest, 1);
        assert(s.push(x)[0] == x);
        assert(s.push(x).drop_first() =~= Seq::<ValueModel>::empty());
        assert(spec_render(x) + Seq::<u8>::empty() =~= spec_render(x));
    } else {
        assert(s.push(x)[0] == s[0]);
        assert(s.push(x).drop_first() =~= s.drop_first().push(x));
        lemma_render_items_rest_push(s.drop_first(), x);
        assert(render_items(s.push(x)) == spec_render(s[0]) + (render_items_rest(s.drop_first())
            + (seq![44u8, 32u8] + spec_render(x))));
        assert(spec_render(s[0]) + (render_items_rest(s.drop_first()) + (seq![44u8, 32u8]
            + spec_render(x))) =~= (spec_render(s[0]) + render_items_rest(s.drop_first())) + (seq![
            44u8,
            32u8,
        ] + spec_render(x)));
    }
}

proof fn lemma_render_entries_rest_push(s: Seq<(Seq<u8>, ValueModel)>, p: (Seq<u8>, ValueModel))
    ensures
        render_entries_rest(s.push(p)) == render_entries_rest(s) + (seq![44u8, 32u8]
            + render_entry(p.0, p.1)),
    decreases s.len(),
{
    if s.len() == 0 {
        reveal_with_fuel(render_entries_rest, 2);
        assert(s.push(p)[0] == p);
        assert(s.push(p).drop_first() =~= Seq::<(Seq<u8>, ValueModel)>::empty());
        assert(seq![44u8, 32u8] + render_entry(p.0, p.1) + Seq::<u8>::empty() =~= seq![44u8, 32u8]
            + render_entry(p.0, p.1));
        assert(Seq::<u8>::empty() + (seq![44u8, 32u8] + render_entry(p.0, p.1)) =~= seq![
            44u8,
            32u8,
        ] + render_entry(p.0, p.1));
    } else {
        assert(s.push(p).drop_first() =~= s.drop_first().push(p));
        lemma_render_entries_rest_push(s.drop_first(), p);
        assert(s.push(p)[0] == s[0]);
        assert(render_entries_rest(s.push(p)) == seq![44u8, 32u8] + render_entry(s[0].0, s[0].1)
            + (render_entries_rest(s.drop_first()) + (seq![44u8, 32u8] + render_entry(p.0, p.1))));
        assert(seq![44u8, 32u8] + render_entry(s[0].0, s[0].1) + (render_entries_rest(
            s.drop_first(),
        ) + (seq![44u8, 32u8] + render_entry(p.0, p.1))) =~= (seq![44u8, 32u8] + render_entry(
            s[0].0,
            s[0].1,
        ) + render_entries_rest(s.drop_first())) + (seq![44u8, 32u8] + render_entry(p.0, p.1)));
    }
}

proof fn lemma_render_entries_push(s: Seq<(Seq<u8>, ValueModel)>, p: (Seq<u8>, ValueModel))
    ensures
        s.len() == 0 ==> render_entries(s.push(p)) == render_entry(p.0, p.1),
        s.len() > 0 ==> render_entries(s.push(p)) == render_entries(s) + (seq![44u8, 32u8]
            + render_entry(p.0, p.1)),
{
    if s.len() == 0 {
        reveal_with_fuel(render_entries_rest, 1);
        assert(s.push(p)[0] == p);
        assert(s.push(p).drop_first() =~= Seq::<(Seq<u8>, ValueModel)>::empty());
        assert(render_entry(p.0, p.1) + Seq::<u8>::empty() =~= render_entry(p.0, p.1));
    } else {
        assert(s.push(p)[0] == s[0]);
        assert(s.push(p).drop_first() =~= s.drop_first().push(p));
        lemma_render_entries_rest_push(s.drop_first(), p);
        assert(render_entries(s.push(p)) == render_entry(s[0].0, s[0].1) + (render_entries_rest(
            s.drop_first(),
        ) + (seq![44u8, 32u8] + render_entry(p.0, p.1))));
        assert(render_entry(s[0].0, s[0].1) + (render_entries_rest(s.drop_first()) + (seq![
            44u8,
            32u8,
        ] + render_entry(p.0, p.1))) =~= (render_entry(s[0].0, s[0].1) + render_entries_rest(
            s.drop_first(),
        )) + (seq![44u8, 32u8] + render_entry(p.0, p.1)));
    }
}

/// Renders a value tree to its diagnostic text, as bytes.
pub fn render(v: &Bencode) -> (r: Vec<u8>)
    ensures
        r@ == spec_render(view_of(*v)),
    decreases *v,
{
    match v {
        Bencode::StringValue(bs) => {
            let mut out: Vec<u8> = Vec::new();
            out.push(34);
            push_bytes(&mut out, bs);
            out.push(34);
            proof {
                assert(out@ =~= seq![34u8] + bs@ + seq![34u8]);
            }
            out
        },
        Bencode::IntegerValue(n) => {
            let mut out: Vec<u8> = Vec::new();
            push_int(&mut out, *n);
            proof {
                assert(out@ =~= spec_encode_int(*n as int));
            }
            out
        },
        Bencode::ListValue(items) => {
            let ghost m = view_of_seq(items@);
            proof {
                lemma_view_of_seq(items@);
            }
            let mut out: Vec<u8> = Vec::new();
            out.push(91);
            let mut i: usize = 0;
            while i < items.len()
                invariant
                    0 <= i <= items@.len(),
                    m == view_of_seq(items@),
                    m.len() == items@.len(),
                    forall|j: int|
                        #![trigger m[j]]
                        0 <= j < m.len() ==> m[j] == view_of(items@[j]),
                    *v == Bencode::ListValue(*items),
                    out@ == seq![91u8] + render_items(m.take(i as int)),
                decreases items@.len() - i,
            {
                proof {
                    assert(decreases_to!((*v) => (*v)->ListValue_0));
                    assert((*v)->ListValue_0 == *items);
                    assert(decreases_to!(*items => items@[i as int]));
                }
                if i > 0 {
                    out.push(44);
                    out.push(32);
                }
                let mut e = render(&items[i]);
                out.append(&mut e);
                proof {
                    lemma_render_items_push(m.take(i as int), m[i as int]);
                    assert(m.take(i as int + 1) =~= m.take(i as int).push(m[i as int]));
                    if i == 0 {
                        assert(m.take(0) =~= Seq::<ValueModel>::empty());
                        assert(render_items(m.take(0)) == Seq::<u8>::empty());
                        assert(seq![91u8] + Seq::<u8>::empty() =~= seq![91u8]);
                        assert(out@ =~= seq![91u8] + render_items(m.take(1)));
                    } else {
                        assert(out@ =~= seq![91u8] + render_items(m.take(i as int + 1)));
                    }
                }
                i = i + 1;
            }
            out.push(93);
            proof {
                assert(m.take(m.len() as int) =~= m);
                assert(out@ =~= seq![91u8] + render_items(m) + seq![93u8]);
            }
            out
        },
        Bencode::DictionaryValue(entries) => {
            let ghost m = view_of_entries(entries@);
            proof {
                lemma_view_of_entries(entries@);
            }
            let mut out: Vec<u8> = Vec::new();
            out.push(123);
            let mut i: usize = 0;
            while i < entries.len()
                invariant
                    0 <= i <= entries@.len(),
                    m == view_of_entries(entries@),
                    m.len() == entries@.len(),
                    forall|j: int|
                        #![trigger m[j]]
                        0 <= j < m.len() ==> m[j] == (entries@[j].0@, view_of(entries@[j].1)),
                    *v == Bencode::DictionaryValue(*entries),
                    out@ == seq![123u8] + render_entries(m.take(i as int)),
                decreases entries@.len() - i,
            {
                proof {
                    assert(decreases_to!((*v) => (*v)->DictionaryValue_0));
                    assert((*v)->DictionaryValue_0 == *entries);
                    assert(decreases_to!(*entries => entries@[i as int]));
                    assert(decreases_to!(entries@[i as int] => entries@[i as int].1));
                }
                if i > 0 {
                    out.push(44);
                    out.push(32);
                }
                out.push(34);
                push_bytes(&mut out, &entries[i].0);
                out.push(34);
                out.push(58);
                out.push(32);
                let mut e = render(&entries[i].1);
                out.append(&mut e);
                proof {
                    lemma_render_entries_push(m.take(i as int), m[i as int]);
                    assert(m.take(i as int + 1) =~= m.take(i as int).push(m[i as int]));
                    if i == 0 {
                        assert(m.take(0) =~= Seq::<(Seq<u8>, ValueModel)>::empty());
                        assert(render_entries(m.take(0)) == Seq::<u8>::empty());
                        assert(seq![123u8] + Seq::<u8>::empty() =~= seq![123u8]);
                        assert(out@ =~= seq![123u8] + render_entries(m.take(1)));
                    } else {
                        assert(out@ =~= seq![123u8] + render_entries(m.take(i as int + 1)));
                    }
                }
                i = i + 1;
            }
            out.push(125);
            proof {
                assert(m.take(m.len() as int) =~= m);
                assert(out@ =~= seq![123u8] + render_entries(m) + seq![125u8]);
            }
            out
        },
    }
}

} // verus!
