//! The value model: the four Bencode value kinds, their mathematical model,
//! and the ordering of dictionary keys.

use vstd::prelude::*;

verus! {

use vstd::pervasive::VecAdditionalExecFns;

/// Mathematical model of a value tree. Strings are byte sequences, integers
/// are unbounded here (canonical trees keep them within the signed 64-bit
/// range), lists are ordered, and dictionaries are ordered key/value pair
/// sequences.
pub enum ValueModel {
    StringValue(Seq<u8>),
    IntegerValue(int),
    ListValue(Seq<ValueModel>),
    DictionaryValue(Seq<(Seq<u8>, ValueModel)>),
}

/// A decoded value tree. Dictionary entries are kept sorted by key in
/// ascending lexicographic byte order, with no duplicate keys.
#[derive(Debug, PartialEq, Eq)]
pub enum Bencode {
    StringValue(Vec<u8>),
    IntegerValue(i64),
    ListValue(Vec<Bencode>),
    DictionaryValue(Vec<(Vec<u8>, Bencode)>),
}

/// The model of a value tree: each byte vector becomes a byte sequence.
pub open spec fn view_of(b: Bencode) -> ValueModel
    decreases b, 2int,
{
    match b {
        Bencode::StringValue(bs) => ValueModel::StringValue(bs@),
        Bencode::IntegerValue(n) => ValueModel::IntegerValue(n as int),
        Bencode::ListValue(items) => ValueModel::ListValue(view_of_seq(items@)),
        Bencode::DictionaryValue(entries) => ValueModel::DictionaryValue(view_of_entries(entries@)),
    }
}

pub open spec fn view_of_seq(s: Seq<Bencode>) -> Seq<ValueModel>
    decreases s, 1int,
{
    if s.len() == 0 {
        Seq::empty()
    } else {
        seq![view_of(s[0])] + view_of_seq(s.drop_first())
    }
}

pub open spec fn view_of_entries(s: Seq<(Vec<u8>, Bencode)>) -> Seq<(Seq<u8>, ValueModel)>
    decreases s, 1int,
{
    if s.len() == 0 {
        Seq::empty()
    } else {
        seq![(s[0].0@, view_of(s[0].1))] + view_of_entries(s.drop_first())
    }
}

impl View for Bencode {
    type V = ValueModel;

    open spec fn view(&self) -> ValueModel {
        view_of(*self)
    }
}

pub proof fn lemma_view_of_seq(s: Seq<Bencode>)
    ensures
        view_of_seq(s).len() == s.len(),
        forall|i: int|
            #![trigger view_of_seq(s)[i]]
            0 <= i < s.len() ==> view_of_seq(s)[i] == view_of(s[i]),
    decreases s.len(),
{
    if s.len() > 0 {
        lemma_view_of_seq(s.drop_first());
        assert forall|i: int| 0 <= i < s.len() implies #[trigger] view_of_seq(s)[i] == view_of(
            s[i],
        ) by {
            if i > 0 {
                assert(view_of_seq(s)[i] == view_of_seq(s.drop_first())[i - 1]);
                assert(s.drop_first()[i - 1] == s[i]);
            }
        }
    }
}

pub proof fn lemma_view_of_entries(s: Seq<(Vec<u8>, Bencode)>)
    ensures
        view_of_entries(s).len() == s.len(),
        forall|i: int|
            #![trigger view_of_entries(s)[i]]
            0 <= i < s.len() ==> view_of_entries(s)[i] == (s[i].0@, view_of(s[i].1)),
    decreases s.len(),
{
    if s.len() > 0 {
        lemma_view_of_entries(s.drop_first());
        assert forall|i: int| 0 <= i < s.len() implies #[trigger] view_of_entries(s)[i] == (
        s[i].0@, view_of(s[i].1)) by {
            if i > 0 {
                assert(view_of_entries(s)[i] == view_of_entries(s.drop_first())[i - 1]);
                assert(s.drop_first()[i - 1] == s[i]);
            }
        }
    }
}

/// Strict lexicographic order on byte sequences: a proper prefix comes first,
/// otherwise the first differing byte decides.
pub open spec fn lex_lt(a: Seq<u8>, b: Seq<u8>) -> bool
    decreases a.len(),
{
    if b.len() == 0 {
        false
    } else if a.len() == 0 {
        true
    } else if a[0] != b[0] {
        a[0] < b[0]
    } else {
        lex_lt(a.drop_first(), b.drop_first())
    }
}

pub proof fn lemma_lex_trichotomy(a: Seq<u8>, b: Seq<u8>)
    ensures
        lex_lt(a, b) || lex_lt(b, a) || a == b,
        !(lex_lt(a, b) && lex_lt(b, a)),
        lex_lt(a, b) ==> a != b,
    decreases a.len(),
{
    if a.len() > 0 && b.len() > 0 && a[0] == b[0] {
        lemma_lex_trichotomy(a.drop_first(), b.drop_first());
        if a.drop_first() == b.drop_first() {
            assert forall|i: int| 0 <= i < a.len() implies a[i] == b[i] by {
                if i > 0 {
                    assert(a.drop_first()[i - 1] == b.drop_first()[i - 1]);
                }
            }
            assert(a =~= b);
        }
        if a == b {
            assert(a.drop_first() =~= b.drop_first());
        }
    }
}

pub proof fn lemma_lex_transitive(a: Seq<u8>, b: Seq<u8>, c: Seq<u8>)
    requires
        lex_lt(a, b),
        lex_lt(b, c),
    ensures
        lex_lt(a, c),
    decreases a.len(),
{
    if a.len() > 0 && b.len() > 0 && c.len() > 0 {
        if a[0] == b[0] && b[0] == c[0] {
            lemma_lex_transitive(a.drop_first(), b.drop_first(), c.drop_first());
        }
    }
}

/// Skipping a common prefix does not change how two byte sequences compare.
pub proof fn lemma_lex_skip_common(a: Seq<u8>, b: Seq<u8>, i: int)
    requires
        0 <= i <= a.len(),
        i <= b.len(),
        forall|j: int| 0 <= j < i ==> a[j] == b[j],
    ensures
        lex_lt(a, b) == lex_lt(a.skip(i), b.skip(i)),
    decreases i,
{
    if i == 0 {
        assert(a.skip(0) =~= a);
        assert(b.skip(0) =~= b);
    } else {
        assert(a[0] == b[0]);
        assert(a.drop_first().skip(i - 1) =~= a.skip(i));
        assert(b.drop_first().skip(i - 1) =~= b.skip(i));
        lemma_lex_skip_common(a.drop_first(), b.drop_first(), i - 1);
    }
}

/// How two byte vectors compare as dictionary keys.
#[derive(Debug, Clone, Copy, PartialEq, Eq, Structural)]
pub enum KeyOrder {
    Less,
    Equal,
    Greater,
}

/// Three-way comparison of byte vectors under the lexicographic key order.
pub fn compare_bytes(a: &Vec<u8>, b: &Vec<u8>) -> (r: KeyOrder)
    ensures
        r == KeyOrder::Less ==> lex_lt(a@, b@),
        r == KeyOrder::Equal ==> a@ == b@,
        r == KeyOrder::Greater ==> lex_lt(b@, a@),
{
    let mut i: usize = 0;
    while i < a.len() && i < b.len()
        invariant
            0 <= i <= a@.len(),
            i <= b@.len(),
            forall|j: int| 0 <= j < i ==> a@[j] == b@[j],
        decreases a@.len() - i,
    {
        let x = a[i];
        let y = b[i];
        if x != y {
            proof {
                lemma_lex_skip_common(a@, b@, i as int);
                lemma_lex_skip_common(b@, a@, i as int);
                assert(a@.skip(i as int)[0] == a@[i as int]);
                assert(b@.skip(i as int)[0] == b@[i as int]);
                assert(lex_lt(a@.skip(i as int), b@.skip(i as int)) == (a@[i as int] < b@[i as int]));
                assert(lex_lt(b@.skip(i as int), a@.skip(i as int)) == (b@[i as int] < a@[i as int]));
            }
            if x < y {
                return KeyOrder::Less;
            } else {
                return KeyOrder::Greater;
            }
        }
        i = i + 1;
    }
    proof {
        lemma_lex_skip_common(a@, b@, i as int);
        lemma_lex_skip_common(b@, a@, i as int);
    }
    if a.len() < b.len() {
        proof {
            assert(a@.skip(i as int).len() == 0);
            assert(b@.skip(i as int).len() > 0);
        }
        KeyOrder::Less
    } else if b.len() < a.len() {
        proof {
            assert(b@.skip(i as int).len() == 0);
            assert(a@.skip(i as int).len() > 0);
        }
        KeyOrder::Greater
    } else {
        proof {
            assert(a@ =~= b@);
        }
        KeyOrder::Equal
    }
}

/// The dictionary entry invariant: keys strictly ascending in lexicographic
/// order, which also rules out duplicates.
pub open spec fn keys_sorted(entries: Seq<(Seq<u8>, ValueModel)>) -> bool {
    forall|i: int, j: int|
        0 <= i < j < entries.len() ==> #[trigger] lex_lt(entries[i].0, entries[j].0)
}

/// A canonical value tree: integers within the signed 64-bit range and every
/// dictionary sorted with unique keys. Every tree the decoder builds is
/// canonical, and the encoder maps canonical trees to canonical bytes.
pub open spec fn canonical(v: ValueModel) -> bool
    decreases v, 2int,
{
    match v {
        ValueModel::StringValue(_) => true,
        ValueModel::IntegerValue(n) => i64::MIN <= n <= i64::MAX,
        ValueModel::ListValue(items) => all_canonical(items),
        ValueModel::DictionaryValue(entries) => entries_canonical(entries) && keys_sorted(
            entries,
        ),
    }
}

pub open spec fn all_canonical(items: Seq<ValueModel>) -> bool
    decreases items, 1int,
{
    if items.len() == 0 {
        true
    } else {
        canonical(items[0]) && all_canonical(items.drop_first())
    }
}

pub open spec fn entries_canonical(entries: Seq<(Seq<u8>, ValueModel)>) -> bool
    decreases entries, 1int,
{
    if entries.len() == 0 {
        true
    } else {
        canonical(entries[0].1) && entries_canonical(entries.drop_first())
    }
}

pub proof fn lemma_all_canonical(items: Seq<ValueModel>)
    ensures
        all_canonical(items) <==> (forall|i: int|
            0 <= i < items.len() ==> canonical(#[trigger] items[i])),
    decreases items.len(),
{
    if items.len() > 0 {
        lemma_all_canonical(items.drop_first());
        assert forall|i: int| 0 <= i < items.len() && all_canonical(items) implies canonical(
            #[trigger] items[i],
        ) by {
            if i > 0 {
                assert(items.drop_first()[i - 1] == items[i]);
            }
        }
        if forall|i: int| 0 <= i < items.len() ==> canonical(#[trigger] items[i]) {
            assert forall|i: int| 0 <= i < items.drop_first().len() implies canonical(
                #[trigger] items.drop_first()[i],
            ) by {
                assert(items.drop_first()[i] == items[i + 1]);
            }
        }
    }
}

pub proof fn lemma_entries_canonical(entries: Seq<(Seq<u8>, ValueModel)>)
    ensures
        entries_canonical(entries) <==> (forall|i: int|
            0 <= i < entries.len() ==> canonical(#[trigger] entries[i].1)),
    decreases entries.len(),
{
    if entries.len() > 0 {
        lemma_entries_canonical(entries.drop_first());
        assert forall|i: int|
            0 <= i < entries.len() && entries_canonical(entries) implies canonical(
            #[trigger] entries[i].1,
        ) by {
            if i > 0 {
                assert(entries.drop_first()[i - 1] == entries[i]);
            }
        }
        if forall|i: int| 0 <= i < entries.len() ==> canonical(#[trigger] entries[i].1) {
            assert forall|i: int| 0 <= i < entries.drop_first().len() implies canonical(
                #[trigger] entries.drop_first()[i].1,
            ) by {
                assert(entries.drop_first()[i] == entries[i + 1]);
            }
        }
    }
}

/// Insertion into an entry sequence sorted by key: an equal key is
/// overwritten in place, otherwise the new pair lands at its sorted position.
pub open spec fn dict_insert_model(
    entries: Seq<(Seq<u8>, ValueModel)>,
    k: Seq<u8>,
    v: ValueModel,
) -> Seq<(Seq<u8>, ValueModel)>
    decreases entries.len(),
{
    if entries.len() == 0 {
        seq![(k, v)]
    } else if lex_lt(k, entries[0].0) {
        seq![(k, v)] + entries
    } else if k == entries[0].0 {
        seq![(k, v)] + entries.drop_first()
    } else {
        seq![entries[0]] + dict_insert_model(entries.drop_first(), k, v)
    }
}

/// Every key below both `k` and all keys of `entries` stays below every key
/// after the insertion.
pub proof fn lemma_dict_insert_lower(
    entries: Seq<(Seq<u8>, ValueModel)>,
    k: Seq<u8>,
    v: ValueModel,
    lb: Seq<u8>,
)
    requires
        lex_lt(lb, k),
        forall|i: int| 0 <= i < entries.len() ==> lex_lt(lb, #[trigger] entries[i].0),
    ensures
        forall|i: int|
            0 <= i < dict_insert_model(entries, k, v).len() ==> lex_lt(
                lb,
                #[trigger] dict_insert_model(entries, k, v)[i].0,
            ),
    decreases entries.len(),
{
    let r = dict_insert_model(entries, k, v);
    if entries.len() == 0 {
        assert(r[0].0 == k);
    } else if lex_lt(k, entries[0].0) {
        assert forall|i: int| 0 <= i < r.len() implies lex_lt(lb, #[trigger] r[i].0) by {
            if i > 0 {
                assert(r[i] == entries[i - 1]);
            }
        }
    } else if k == entries[0].0 {
        assert forall|i: int| 0 <= i < r.len() implies lex_lt(lb, #[trigger] r[i].0) by {
            if i > 0 {
                assert(r[i] == entries.drop_first()[i - 1]);
                assert(entries.drop_first()[i - 1] == entries[i]);
            }
        }
    } else {
        assert forall|i: int| 0 <= i < entries.drop_first().len() implies lex_lt(
            lb,
            #[trigger] entries.drop_first()[i].0,
        ) by {
            assert(entries.drop_first()[i] == entries[i + 1]);
        }
        lemma_dict_insert_lower(entries.drop_first(), k, v, lb);
        let rec = dict_insert_model(entries.drop_first(), k, v);
        assert forall|i: int| 0 <= i < r.len() implies lex_lt(lb, #[trigger] r[i].0) by {
            if i > 0 {
                assert(r[i] == rec[i - 1]);
            }
        }
    }
}

/// Sorted insertion keeps the entries sorted with unique keys, and keeps
/// every entry value canonical when the inserted value is.
pub proof fn lemma_dict_insert_sorted(entries: Seq<(Seq<u8>, ValueModel)>, k: Seq<u8>, v: ValueModel)
    requires
        keys_sorted(entries),
    ensures
        keys_sorted(dict_insert_model(entries, k, v)),
        entries_canonical(entries) && canonical(v) ==> entries_canonical(
            dict_insert_model(entries, k, v),
        ),
        entries.len() <= dict_insert_model(entries, k, v).len() <= entries.len() + 1,
    decreases entries.len(),
{
    let r = dict_insert_model(entries, k, v);
    lemma_entries_canonical(entries);
    lemma_entries_canonical(r);
    if entries.len() == 0 {
    } else if lex_lt(k, entries[0].0) {
        assert forall|i: int, j: int| 0 <= i < j < r.len() implies #[trigger] lex_lt(
            r[i].0,
            r[j].0,
        ) by {
            assert(r[j] == entries[j - 1]);
            if i == 0 {
                if j > 1 {
                    lemma_lex_transitive(k, entries[0].0, entries[j - 1].0);
                }
            } else {
                assert(r[i] == entries[i - 1]);
            }
        }
    } else if k == entries[0].0 {
        assert forall|i: int, j: int| 0 <= i < j < r.len() implies #[trigger] lex_lt(
            r[i].0,
            r[j].0,
        ) by {
            assert(r[j] == entries.drop_first()[j - 1]);
            assert(entries.drop_first()[j - 1] == entries[j]);
            if i > 0 {
                assert(r[i] == entries.drop_first()[i - 1]);
                assert(entries.drop_first()[i - 1] == entries[i]);
            }
        }
    } else {
        lemma_lex_trichotomy(k, entries[0].0);
        assert(lex_lt(entries[0].0, k));
        assert forall|i: int, j: int| 0 <= i < j < entries.drop_first().len() implies #[trigger] lex_lt(
            entries.drop_first()[i].0,
            entries.drop_first()[j].0,
        ) by {
            assert(entries.drop_first()[i] == entries[i + 1]);
            assert(entries.drop_first()[j] == entries[j + 1]);
        }
        assert forall|i: int| 0 <= i < entries.drop_first().len() implies lex_lt(
            entries[0].0,
            #[trigger] entries.drop_first()[i].0,
        ) by {
            assert(entries.drop_first()[i] == entries[i + 1]);
        }
        lemma_dict_insert_sorted(entries.drop_first(), k, v);
        lemma_dict_insert_lower(entries.drop_first(), k, v, entries[0].0);
        let rec = dict_insert_model(entries.drop_first(), k, v);
        lemma_entries_canonical(entries.drop_first());
        lemma_entries_canonical(rec);
        assert forall|i: int, j: int| 0 <= i < j < r.len() implies #[trigger] lex_lt(
            r[i].0,
            r[j].0,
        ) by {
            assert(r[j] == rec[j - 1]);
            if i > 0 {
                assert(r[i] == rec[i - 1]);
            }
        }
    }
}

/// Inserting a key greater than every present key appends the pair.
pub proof fn lemma_dict_insert_append(entries: Seq<(Seq<u8>, ValueModel)>, k: Seq<u8>, v: ValueModel)
    requires
        forall|i: int| 0 <= i < entries.len() ==> lex_lt(#[trigger] entries[i].0, k),
    ensures
        dict_insert_model(entries, k, v) == entries.push((k, v)),
    decreases entries.len(),
{
    if entries.len() == 0 {
        assert(dict_insert_model(entries, k, v) =~= entries.push((k, v)));
    } else {
        lemma_lex_trichotomy(k, entries[0].0);
        assert forall|i: int| 0 <= i < entries.drop_first().len() implies lex_lt(
            #[trigger] entries.drop_first()[i].0,
            k,
        ) by {
            assert(entries.drop_first()[i] == entries[i + 1]);
        }
        lemma_dict_insert_append(entries.drop_first(), k, v);
        assert(dict_insert_model(entries, k, v) =~= entries.push((k, v)));
    }
}

pub proof fn lemma_view_seq_push(s: Seq<Bencode>, b: Bencode)
    ensures
        view_of_seq(s.push(b)) == view_of_seq(s).push(view_of(b)),
{
    lemma_view_of_seq(s);
    lemma_view_of_seq(s.push(b));
    let l = view_of_seq(s.push(b));
    let r = view_of_seq(s).push(view_of(b));
    assert forall|j: int| 0 <= j < l.len() implies l[j] == r[j] by {
        if j < s.len() {
            assert(s.push(b)[j] == s[j]);
        } else {
            assert(s.push(b)[j] == b);
        }
    }
    assert(l =~= r);
}

pub proof fn lemma_view_entries_push(s: Seq<(Vec<u8>, Bencode)>, p: (Vec<u8>, Bencode))
    ensures
        view_of_entries(s.push(p)) == view_of_entries(s).push((p.0@, view_of(p.1))),
{
    lemma_view_of_entries(s);
    lemma_view_of_entries(s.push(p));
    let l = view_of_entries(s.push(p));
    let r = view_of_entries(s).push((p.0@, view_of(p.1)));
    assert forall|j: int| 0 <= j < l.len() implies l[j] == r[j] by {
        if j < s.len() {
            assert(s.push(p)[j] == s[j]);
        } else {
            assert(s.push(p)[j] == p);
        }
    }
    assert(l =~= r);
}

pub proof fn lemma_view_entries_update(s: Seq<(Vec<u8>, Bencode)>, i: int, p: (Vec<u8>, Bencode))
    requires
        0 <= i < s.len(),
    ensures
        view_of_entries(s.update(i, p)) == view_of_entries(s).update(i, (p.0@, view_of(p.1))),
{
    lemma_view_of_entries(s);
    lemma_view_of_entries(s.update(i, p));
    let l = view_of_entries(s.update(i, p));
    let r = view_of_entries(s).update(i, (p.0@, view_of(p.1)));
    assert forall|j: int| 0 <= j < l.len() implies l[j] == r[j] by {
        if j == i {
            assert(s.update(i, p)[j] == p);
        } else {
            assert(s.update(i, p)[j] == s[j]);
        }
    }
    assert(l =~= r);
}

pub proof fn lemma_view_entries_insert(s: Seq<(Vec<u8>, Bencode)>, i: int, p: (Vec<u8>, Bencode))
    requires
        0 <= i <= s.len(),
    ensures
        view_of_entries(s.insert(i, p)) == view_of_entries(s).insert(i, (p.0@, view_of(p.1))),
{
    lemma_view_of_entries(s);
    lemma_view_of_entries(s.insert(i, p));
    s.insert_ensures(i, p);
    view_of_entries(s).insert_ensures(i, (p.0@, view_of(p.1)));
    let l = view_of_entries(s.insert(i, p));
    let r = view_of_entries(s).insert(i, (p.0@, view_of(p.1)));
    assert forall|j: int| 0 <= j < l.len() implies l[j] == r[j] by {
        if j < i {
            assert(s.insert(i, p)[j] == s[j]);
        } else if j == i {
            assert(s.insert(i, p)[j] == p);
        } else {
            assert(s.insert(i, p)[j] == s[j - 1]);
        }
    }
    assert(l =~= r);
}

/// Where the scan for the insertion point stops, `dict_insert_model` either
/// overwrites in place or inserts at that position.
proof fn lemma_dict_insert_position(m: Seq<(Seq<u8>, ValueModel)>, k: Seq<u8>, v: ValueModel, i: int)
    requires
        0 <= i < m.len(),
        forall|j: int| 0 <= j < i ==> lex_lt(#[trigger] m[j].0, k),
    ensures
        m[i].0 == k ==> dict_insert_model(m, k, v) == m.update(i, (k, v)),
        lex_lt(k, m[i].0) ==> dict_insert_model(m, k, v) == m.insert(i, (k, v)),
    decreases i,
{
    lemma_lex_trichotomy(k, m[i].0);
    if i == 0 {
        if m[0].0 == k {
            lemma_lex_trichotomy(k, m[0].0);
            assert(dict_insert_model(m, k, v) =~= m.update(0, (k, v)));
        } else if lex_lt(k, m[0].0) {
            m.insert_ensures(0, (k, v));
            assert(dict_insert_model(m, k, v) =~= m.insert(0, (k, v)));
        }
    } else {
        lemma_lex_trichotomy(k, m[0].0);
        assert(lex_lt(m[0].0, k));
        let t = m.drop_first();
        assert forall|j: int| 0 <= j < i - 1 implies lex_lt(#[trigger] t[j].0, k) by {
            assert(t[j] == m[j + 1]);
        }
        assert(t[i - 1] == m[i]);
        lemma_dict_insert_position(t, k, v, i - 1);
        if m[i].0 == k {
            assert(dict_insert_model(m, k, v) =~= m.update(i, (k, v)));
        } else if lex_lt(k, m[i].0) {
            t.insert_ensures(i - 1, (k, v));
            m.insert_ensures(i, (k, v));
            assert(dict_insert_model(m, k, v) =~= m.insert(i, (k, v)));
        }
    }
}

/// Sorted insertion of one key/value pair into a dictionary's entry vector.
pub fn dict_insert(entries: &mut Vec<(Vec<u8>, Bencode)>, key: Vec<u8>, val: Bencode)
    ensures
        view_of_entries(final(entries)@) == dict_insert_model(
            view_of_entries(old(entries)@),
            key@,
            view_of(val),
        ),
{
    let ghost m = view_of_entries(old(entries)@);
    proof {
        lemma_view_of_entries(old(entries)@);
    }
    let mut i: usize = 0;
    while i < entries.len()
        invariant
            0 <= i <= entries@.len(),
            entries@ == old(entries)@,
            m == view_of_entries(entries@),
            m.len() == entries@.len(),
            forall|j: int| 0 <= j < m.len() ==> #[trigger] m[j] == (entries@[j].0@, view_of(entries@[j].1)),
            forall|j: int| 0 <= j < i ==> lex_lt(#[trigger] m[j].0, key@),
        decreases entries@.len() - i,
    {
        let ord = compare_bytes(&key, &entries[i].0);
        match ord {
            KeyOrder::Greater => {
                i = i + 1;
            },
            KeyOrder::Equal => {
                proof {
                    lemma_dict_insert_position(m, key@, view_of(val), i as int);
                    lemma_view_entries_update(entries@, i as int, (key, val));
                }
                entries.set(i, (key, val));
                return ;
            },
            KeyOrder::Less => {
                proof {
                    lemma_dict_insert_position(m, key@, view_of(val), i as int);
                    lemma_view_entries_insert(entries@, i as int, (key, val));
                }
                entries.insert(i, (key, val));
                return ;
            },
        }
    }
    proof {
        lemma_dict_insert_append(m, key@, view_of(val));
        lemma_view_entries_push(entries@, (key, val));
    }
    entries.push((key, val));
}

} // verus!
