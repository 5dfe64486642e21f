//! Bencoding, the serialisation format of torrent files, tracker replies and
//! extension messages: byte strings, integers, lists and dictionaries whose
//! keys are text and come in sorted order.
use vstd::prelude::*;
use vstd::utf8::{decode_utf8, encode_utf8, valid_utf8};
use crate::text::{
    all_digits, decimal, digits_value, is_digit, lemma_decimal, lemma_parse_decimal,
    lemma_signed_decimal, parse_i64, parse_signed, parse_unsigned, parse_usize, push_decimal,
    push_bytes, push_signed_decimal, signed_decimal, copy_range, str_from_utf8, ascii_chars,
    push_ascii, push_char, push_chars, chars_of,
};
use crate::bittorent::{hex_encode, hex_text};

verus! {

broadcast use vstd::utf8::group_utf8_lib;

/// A bencoded value.
#[derive(Debug, PartialEq)]
pub enum Bencoding {
    Raw(Vec<u8>),
    Integer(i64),
    List(Vec<Bencoding>),
    Dictionary(Dict),
}

/// The entries of a bencoded dictionary, kept in increasing order of the
/// bytes of their keys, each key once (the order a `BTreeMap<String, _>`
/// keeps).
#[derive(Debug, PartialEq)]
pub struct Dict {
    entries: Vec<(String, Bencoding)>,
}

/// The mathematical value of a bencoded value.
pub enum BValue {
    Raw(Seq<u8>),
    Integer(i64),
    List(Seq<BValue>),
    Dictionary(Seq<(Seq<char>, BValue)>),
}

/// Why bytes do not decode.
#[derive(Debug, Clone, Copy, PartialEq, Eq)]
pub enum DecodeError {
    /// The input ends before the value does.
    UnexpectedEnd,
    /// The text between `i` and `e` is not an `i64`.
    InvalidInteger,
    /// The text before `:` is not a length.
    InvalidLength,
    /// A dictionary key is not a byte string.
    KeyNotString,
    /// A dictionary key is not UTF-8.
    InvalidKey,
}

impl Bencoding {
    pub open spec fn model(self) -> BValue
        decreases self,
    {
        match self {
            Bencoding::Raw(b) => BValue::Raw(b@),
            Bencoding::Integer(i) => BValue::Integer(i),
            Bencoding::List(l) => BValue::List(items_model(l@)),
            Bencoding::Dictionary(d) => BValue::Dictionary(d.model()),
        }
    }
}

impl Dict {
    pub closed spec fn model(self) -> Seq<(Seq<char>, BValue)>
        decreases self,
    {
        entries_model(self.entries@)
    }

    /// Keys in strictly increasing order, each once.
    #[verifier::type_invariant]
    pub open spec fn wf(self) -> bool {
        keys_sorted(self.model())
    }
}

impl View for Bencoding {
    type V = BValue;

    open spec fn view(&self) -> BValue {
        self.model()
    }
}

impl View for Dict {
    type V = Seq<(Seq<char>, BValue)>;

    open spec fn view(&self) -> Seq<(Seq<char>, BValue)> {
        self.model()
    }
}

pub open spec fn items_model(l: Seq<Bencoding>) -> Seq<BValue>
    decreases l,
{
    if l.len() == 0 {
        Seq::empty()
    } else {
        items_model(l.subrange(0, l.len() - 1)).push(l[l.len() - 1].model())
    }
}

pub open spec fn entries_model(l: Seq<(String, Bencoding)>) -> Seq<(Seq<char>, BValue)>
    decreases l,
{
    if l.len() == 0 {
        Seq::empty()
    } else {
        entries_model(l.subrange(0, l.len() - 1)).push(
            (l[l.len() - 1].0@, l[l.len() - 1].1.model()),
        )
    }
}

pub proof fn lemma_items_model(l: Seq<Bencoding>)
    ensures
        items_model(l).len() == l.len(),
        forall|i: int| 0 <= i < l.len() ==> #[trigger] items_model(l)[i] == l[i].model(),
    decreases l.len(),
{
    if l.len() > 0 {
        lemma_items_model(l.subrange(0, l.len() - 1));
    }
}

pub proof fn lemma_entries_model(l: Seq<(String, Bencoding)>)
    ensures
        entries_model(l).len() == l.len(),
        forall|i: int|
            0 <= i < l.len() ==> #[trigger] entries_model(l)[i] == (l[i].0@, l[i].1.model()),
    decreases l.len(),
{
    if l.len() > 0 {
        lemma_entries_model(l.subrange(0, l.len() - 1));
    }
}

// ---------------------------------------------------------------------------
// The order of dictionary keys
// ---------------------------------------------------------------------------

/// Lexicographic order on byte strings, the order of `str` and `String`.
pub open spec fn bytes_lt(a: Seq<u8>, b: Seq<u8>) -> bool
    decreases a.len(),
{
    if b.len() == 0 {
        false
    } else if a.len() == 0 {
        true
    } else if a[0] != b[0] {
        a[0] < b[0]
    } else {
        bytes_lt(a.drop_first(), b.drop_first())
    }
}

/// The order of dictionary keys: that of their UTF-8 bytes.
pub open spec fn key_lt(a: Seq<char>, b: Seq<char>) -> bool {
    bytes_lt(encode_utf8(a), encode_utf8(b))
}

pub open spec fn keys_sorted(d: Seq<(Seq<char>, BValue)>) -> bool {
    forall|i: int, j: int| 0 <= i < j < d.len() ==> key_lt(#[trigger] d[i].0, #[trigger] d[j].0)
}

pub proof fn lemma_bytes_lt_irreflexive(a: Seq<u8>)
    ensures
        !bytes_lt(a, a),
    decreases a.len(),
{
    if a.len() > 0 {
        lemma_bytes_lt_irreflexive(a.drop_first());
    }
}

pub proof fn lemma_bytes_lt_transitive(a: Seq<u8>, b: Seq<u8>, c: Seq<u8>)
    requires
        bytes_lt(a, b),
        bytes_lt(b, c),
    ensures
        bytes_lt(a, c),
    decreases a.len(),
{
    if a.len() > 0 && b.len() > 0 && c.len() > 0 && a[0] == b[0] && b[0] == c[0] {
        lemma_bytes_lt_transitive(a.drop_first(), b.drop_first(), c.drop_first());
    }
}

pub proof fn lemma_bytes_lt_total(a: Seq<u8>, b: Seq<u8>)
    ensures
        a == b || bytes_lt(a, b) || bytes_lt(b, a),
        !(bytes_lt(a, b) && bytes_lt(b, a)),
    decreases a.len(),
{
    if a.len() > 0 && b.len() > 0 && a[0] == b[0] {
        lemma_bytes_lt_total(a.drop_first(), b.drop_first());
        if a.drop_first() == b.drop_first() {
            assert(a =~= seq![a[0]] + a.drop_first());
            assert(b =~= seq![b[0]] + b.drop_first());
        }
    } else if a.len() == 0 && b.len() == 0 {
        assert(a =~= b);
    }
}

/// Two byte strings that agree on their first `i` bytes compare as what follows.
pub proof fn lemma_bytes_lt_skip(a: Seq<u8>, b: Seq<u8>, i: int)
    requires
        0 <= i <= a.len(),
        i <= b.len(),
        a.take(i) == b.take(i),
    ensures
        bytes_lt(a, b) == bytes_lt(a.skip(i), b.skip(i)),
    decreases i,
{
    if i > 0 {
        assert(a[0] == a.take(i)[0]);
        assert(b[0] == b.take(i)[0]);
        assert(a.drop_first().take(i - 1) =~= a.take(i).drop_first());
        assert(b.drop_first().take(i - 1) =~= b.take(i).drop_first());
        lemma_bytes_lt_skip(a.drop_first(), b.drop_first(), i - 1);
        assert(a.drop_first().skip(i - 1) =~= a.skip(i));
        assert(b.drop_first().skip(i - 1) =~= b.skip(i));
    } else {
        assert(a.skip(0) =~= a);
        assert(b.skip(0) =~= b);
    }
}

pub proof fn lemma_key_lt_total(a: Seq<char>, b: Seq<char>)
    ensures
        a == b || key_lt(a, b) || key_lt(b, a),
        !(key_lt(a, b) && key_lt(b, a)),
        !key_lt(a, a),
{
    lemma_bytes_lt_total(encode_utf8(a), encode_utf8(b));
    lemma_bytes_lt_irreflexive(encode_utf8(a));
    if encode_utf8(a) == encode_utf8(b) {
        assert(decode_utf8(encode_utf8(a)) == a);
        assert(decode_utf8(encode_utf8(b)) == b);
    }
}

pub proof fn lemma_key_lt_transitive(a: Seq<char>, b: Seq<char>, c: Seq<char>)
    requires
        key_lt(a, b),
        key_lt(b, c),
    ensures
        key_lt(a, c),
{
    lemma_bytes_lt_transitive(encode_utf8(a), encode_utf8(b), encode_utf8(c));
}

/// How two keys compare.
pub enum KeyOrder {
    Less,
    Equal,
    Greater,
}

/// Compares two byte strings in lexicographic order.
pub fn compare_bytes(a: &[u8], b: &[u8]) -> (r: KeyOrder)
    ensures
        (r is Less) == bytes_lt(a@, b@),
        (r is Equal) == (a@ == b@),
        (r is Greater) == bytes_lt(b@, a@),
{
    proof {
        lemma_bytes_lt_total(a@, b@);
    }
    let mut i: usize = 0;
    while i < a.len() && i < b.len()
        invariant
            i <= a@.len(),
            i <= b@.len(),
            a@.take(i as int) == b@.take(i as int),
        decreases a@.len() - i,
    {
        if a[i] != b[i] {
            proof {
                lemma_bytes_lt_skip(a@, b@, i as int);
                lemma_bytes_lt_skip(b@, a@, i as int);
                assert(a@.skip(i as int)[0] == a@[i as int]);
                assert(b@.skip(i as int)[0] == b@[i as int]);
                assert(a@[i as int] != b@[i as int]);
            }
            if a[i] < b[i] {
                return KeyOrder::Less;
            } else {
                return KeyOrder::Greater;
            }
        }
        assert(a@.take(i + 1) =~= a@.take(i as int).push(a@[i as int]));
        assert(b@.take(i + 1) =~= b@.take(i as int).push(b@[i as int]));
        i = i + 1;
    }
    proof {
        lemma_bytes_lt_skip(a@, b@, i as int);
        lemma_bytes_lt_skip(b@, a@, i as int);
        if a@.len() == b@.len() {
            assert(a@ =~= a@.take(i as int));
            assert(b@ =~= b@.take(i as int));
        }
    }
    if a.len() < b.len() {
        KeyOrder::Less
    } else if a.len() > b.len() {
        KeyOrder::Greater
    } else {
        KeyOrder::Equal
    }
}

/// Compares two keys by their UTF-8 bytes.
pub fn compare_keys(a: &str, b: &str) -> (r: KeyOrder)
    ensures
        (r is Less) == key_lt(a@, b@),
        (r is Equal) == (a@ == b@),
        (r is Greater) == key_lt(b@, a@),
{
    let r = compare_bytes(a.as_bytes(), b.as_bytes());
    proof {
        if encode_utf8(a@) == encode_utf8(b@) {
            assert(decode_utf8(encode_utf8(a@)) == a@);
            assert(decode_utf8(encode_utf8(b@)) == b@);
        }
    }
    r
}

// ---------------------------------------------------------------------------
// Dictionaries
// ---------------------------------------------------------------------------

/// What `BTreeMap::insert` does: the entry for `k` is replaced, or a new one
/// stands where its key belongs in the order.
pub open spec fn dict_insert(d: Seq<(Seq<char>, BValue)>, k: Seq<char>, v: BValue) -> Seq<
    (Seq<char>, BValue),
>
    decreases d.len(),
{
    if d.len() == 0 {
        seq![(k, v)]
    } else if key_lt(k, d[0].0) {
        seq![(k, v)] + d
    } else if k == d[0].0 {
        seq![(k, v)] + d.drop_first()
    } else {
        seq![d[0]] + dict_insert(d.drop_first(), k, v)
    }
}

/// The value of the first entry whose key is `k`.
pub open spec fn dict_get(d: Seq<(Seq<char>, BValue)>, k: Seq<char>) -> Option<BValue>
    decreases d.len(),
{
    if d.len() == 0 {
        None
    } else if d[0].0 == k {
        Some(d[0].1)
    } else {
        dict_get(d.drop_first(), k)
    }
}

/// The entries without the first whose key is `k`.
pub open spec fn dict_remove(d: Seq<(Seq<char>, BValue)>, k: Seq<char>) -> Seq<
    (Seq<char>, BValue),
>
    decreases d.len(),
{
    if d.len() == 0 {
        d
    } else if d[0].0 == k {
        d.drop_first()
    } else {
        seq![d[0]] + dict_remove(d.drop_first(), k)
    }
}

/// Inserting into a dictionary leaves its first `i` entries in place when
/// their keys are all smaller than the new key.
pub proof fn lemma_dict_insert_skip(d: Seq<(Seq<char>, BValue)>, k: Seq<char>, v: BValue, i: int)
    requires
        0 <= i <= d.len(),
        forall|j: int| 0 <= j < i ==> key_lt(#[trigger] d[j].0, k),
    ensures
        dict_insert(d, k, v) == d.take(i) + dict_insert(d.skip(i), k, v),
    decreases i,
{
    if i == 0 {
        assert(d.skip(0) =~= d);
        assert(d.take(0) + dict_insert(d, k, v) =~= dict_insert(d, k, v));
    } else {
        lemma_key_lt_total(d[0].0, k);
        lemma_dict_insert_skip(d.drop_first(), k, v, i - 1);
        assert(d.drop_first().skip(i - 1) =~= d.skip(i));
        assert(seq![d[0]] + d.drop_first().take(i - 1) =~= d.take(i));
        assert(seq![d[0]] + (d.drop_first().take(i - 1) + dict_insert(d.skip(i), k, v)) =~= d.take(
            i,
        ) + dict_insert(d.skip(i), k, v));
    }
}

/// The first `i` entries of a dictionary do not hold `k`.
pub proof fn lemma_dict_skip_absent(d: Seq<(Seq<char>, BValue)>, k: Seq<char>, i: int)
    requires
        0 <= i <= d.len(),
        forall|j: int| 0 <= j < i ==> #[trigger] d[j].0 != k,
    ensures
        dict_get(d, k) == dict_get(d.skip(i), k),
        dict_remove(d, k) == d.take(i) + dict_remove(d.skip(i), k),
    decreases i,
{
    if i == 0 {
        assert(d.skip(0) =~= d);
        assert(d.take(0) + dict_remove(d, k) =~= dict_remove(d, k));
    } else {
        lemma_dict_skip_absent(d.drop_first(), k, i - 1);
        assert(d.drop_first().skip(i - 1) =~= d.skip(i));
        assert(seq![d[0]] + (d.drop_first().take(i - 1) + dict_remove(d.skip(i), k)) =~= d.take(i)
            + dict_remove(d.skip(i), k));
    }
}

/// What a dictionary holds after an insertion: the new value under its key,
/// and under every other key what it held before.
pub proof fn law_dict_get_insert(d: Seq<(Seq<char>, BValue)>, k: Seq<char>, v: BValue, k2: Seq<char>)
    ensures
        dict_get(dict_insert(d, k, v), k) == Some(v),
        k2 != k ==> dict_get(dict_insert(d, k, v), k2) == dict_get(d, k2),
    decreases d.len(),
{
    if d.len() == 0 {
        assert(seq![(k, v)].drop_first() =~= d);
    } else if key_lt(k, d[0].0) {
        assert((seq![(k, v)] + d).drop_first() =~= d);
    } else if k == d[0].0 {
        assert((seq![(k, v)] + d.drop_first()).drop_first() =~= d.drop_first());
    } else {
        law_dict_get_insert(d.drop_first(), k, v, k2);
        assert((seq![d[0]] + dict_insert(d.drop_first(), k, v)).drop_first() =~= dict_insert(
            d.drop_first(),
            k,
            v,
        ));
    }
}

/// What a dictionary holds after a removal: nothing under the key, when its
/// keys are in order (each once), and under every other key what it held
/// before.
pub proof fn law_dict_get_remove(d: Seq<(Seq<char>, BValue)>, k: Seq<char>, k2: Seq<char>)
    ensures
        keys_sorted(d) ==> dict_get(dict_remove(d, k), k) is None,
        k2 != k ==> dict_get(dict_remove(d, k), k2) == dict_get(d, k2),
    decreases d.len(),
{
    if d.len() > 0 {
        let rest = d.drop_first();
        law_dict_get_remove(rest, k, k2);
        if d[0].0 == k {
            if keys_sorted(d) {
                assert forall|j: int| 0 <= j < rest.len() implies #[trigger] rest[j].0 != k by {
                    assert(rest[j] == d[j + 1]);
                    assert(key_lt(d[0].0, d[j + 1].0));
                    lemma_key_lt_total(k, k);
                }
                lemma_dict_skip_absent(rest, k, rest.len() as int);
                assert(rest.skip(rest.len() as int) =~= Seq::<(Seq<char>, BValue)>::empty());
            }
        } else {
            assert((seq![d[0]] + dict_remove(rest, k)).drop_first() =~= dict_remove(rest, k));
            if keys_sorted(d) {
                assert forall|i: int, j: int| 0 <= i < j < rest.len() implies key_lt(
                    #[trigger] rest[i].0,
                    #[trigger] rest[j].0,
                ) by {
                    assert(rest[i] == d[i + 1] && rest[j] == d[j + 1]);
                }
            }
        }
    }
}

/// Inserting a key larger than every key of a sorted dictionary appends it,
/// and the dictionary stays sorted.
pub proof fn lemma_dict_insert_sorted(d: Seq<(Seq<char>, BValue)>, k: Seq<char>, v: BValue)
    requires
        keys_sorted(d),
    ensures
        keys_sorted(dict_insert(d, k, v)),
        (forall|j: int| 0 <= j < d.len() ==> key_lt(#[trigger] d[j].0, k)) ==> dict_insert(d, k, v)
            == d.push((k, v)),
    decreases d.len(),
{
    if d.len() == 0 {
    } else {
        let t = d.drop_first();
        assert(keys_sorted(t)) by {
            assert forall|i: int, j: int| 0 <= i < j < t.len() implies key_lt(
                #[trigger] t[i].0,
                #[trigger] t[j].0,
            ) by {
                assert(t[i] == d[i + 1]);
                assert(t[j] == d[j + 1]);
            }
        }
        lemma_dict_insert_sorted(t, k, v);
        lemma_key_lt_total(k, d[0].0);
        let r = dict_insert(d, k, v);
        if key_lt(k, d[0].0) {
            assert forall|i: int, j: int| 0 <= i < j < r.len() implies key_lt(
                #[trigger] r[i].0,
                #[trigger] r[j].0,
            ) by {
                if i == 0 {
                    if j > 1 {
                        lemma_key_lt_transitive(k, d[0].0, d[j - 1].0);
                    }
                } else {
                    assert(r[i] == d[i - 1]);
                    assert(r[j] == d[j - 1]);
                }
            }
        } else if k == d[0].0 {
            assert forall|i: int, j: int| 0 <= i < j < r.len() implies key_lt(
                #[trigger] r[i].0,
                #[trigger] r[j].0,
            ) by {
                if i == 0 {
                    assert(r[j] == d[j]);
                } else {
                    assert(r[i] == d[i]);
                    assert(r[j] == d[j]);
                }
            }
        } else {
            let s = dict_insert(t, k, v);
            assert(r == seq![d[0]] + s);
            assert forall|i: int, j: int| 0 <= i < j < r.len() implies key_lt(
                #[trigger] r[i].0,
                #[trigger] r[j].0,
            ) by {
                if i == 0 {
                    assert(r[j] == s[j - 1]);
                    lemma_dict_insert_members(t, k, v, j - 1);
                    if s[j - 1] == (k, v) {
                    } else {
                        let m = choose|m: int| 0 <= m < t.len() && t[m] == s[j - 1];
                        assert(t[m] == d[m + 1]);
                    }
                } else {
                    assert(r[i] == s[i - 1]);
                    assert(r[j] == s[j - 1]);
                }
            }
            if forall|j: int| 0 <= j < d.len() ==> key_lt(#[trigger] d[j].0, k) {
                assert forall|j: int| 0 <= j < t.len() implies key_lt(#[trigger] t[j].0, k) by {
                    assert(t[j] == d[j + 1]);
                }
                assert(r =~= d.push((k, v)));
            }
        }
    }
}

/// Every entry of a dictionary after an insertion is the new entry or an old one.
pub proof fn lemma_dict_insert_members(d: Seq<(Seq<char>, BValue)>, k: Seq<char>, v: BValue, i: int)
    requires
        0 <= i < dict_insert(d, k, v).len(),
    ensures
        dict_insert(d, k, v)[i] == (k, v) || exists|m: int|
            0 <= m < d.len() && d[m] == #[trigger] dict_insert(d, k, v)[i],
    decreases d.len(),
{
    if d.len() == 0 {
    } else if key_lt(k, d[0].0) {
        if i > 0 {
            assert(dict_insert(d, k, v)[i] == d[i - 1]);
        }
    } else if k == d[0].0 {
        if i > 0 {
            assert(dict_insert(d, k, v)[i] == d[i]);
        }
    } else {
        if i == 0 {
            assert(d[0] == dict_insert(d, k, v)[0]);
        } else {
            let t = d.drop_first();
            lemma_dict_insert_members(t, k, v, i - 1);
            assert(dict_insert(d, k, v)[i] == dict_insert(t, k, v)[i - 1]);
            if dict_insert(t, k, v)[i - 1] != (k, v) {
                let m = choose|m: int| 0 <= m < t.len() && t[m] == dict_insert(t, k, v)[i - 1];
                assert(d[m + 1] == t[m]);
            }
        }
    }
}

impl Dict {
    /// An empty dictionary.
    pub fn new() -> (d: Dict)
        ensures
            d@ == Seq::<(Seq<char>, BValue)>::empty(),
    {
        let d = Dict { entries: Vec::new() };
        assert(d@ =~= Seq::<(Seq<char>, BValue)>::empty());
        d
    }

    /// The number of entries.
    pub fn len(&self) -> (n: usize)
        ensures
            n == self@.len(),
    {
        proof {
            lemma_entries_model(self.entries@);
        }
        self.entries.len()
    }

    /// Inserts an entry, replacing the one with the same key, as
    /// `BTreeMap::insert` does.
    pub fn insert(&mut self, key: String, value: Bencoding)
        ensures
            final(self)@ == dict_insert(old(self)@, key@, value@),
    {
        proof {
            use_type_invariant(&*self);
            lemma_dict_insert_sorted(self@, key@, value@);
        }
        let mut entries: Vec<(String, Bencoding)> = Vec::new();
        std::mem::swap(&mut entries, &mut self.entries);
        Self::insert_entry(&mut entries, key, value);
        self.entries = entries;
    }

    /// Inserts an entry into entries in key order, replacing the one with
    /// the same key.
    fn insert_entry(entries: &mut Vec<(String, Bencoding)>, key: String, value: Bencoding)
        ensures
            entries_model(final(entries)@) == dict_insert(entries_model(old(entries)@), key@, value@),
    {
        proof {
            lemma_entries_model(entries@);
        }
        let ghost d = entries_model(entries@);
        let mut i: usize = 0;
        while i < entries.len()
            invariant
                i <= entries@.len(),
                entries@ == old(entries)@,
                d == entries_model(entries@),
                d == entries_model(old(entries)@),
                d.len() == entries@.len(),
                forall|j: int|
                    0 <= j < entries@.len() ==> #[trigger] d[j] == (
                        entries@[j].0@,
                        entries@[j].1.model(),
                    ),
                forall|j: int| 0 <= j < i ==> key_lt(#[trigger] d[j].0, key@),
            decreases entries@.len() - i,
        {
            let ord = compare_keys(entries[i].0.as_str(), key.as_str());
            assert(d[i as int] == (entries@[i as int].0@, entries@[i as int].1.model()));
            match ord {
                KeyOrder::Less => {
                    i = i + 1;
                },
                KeyOrder::Equal => {
                    proof {
                        lemma_dict_insert_skip(d, key@, value@, i as int);
                        assert(d.skip(i as int)[0] == d[i as int]);
                        lemma_key_lt_total(key@, key@);
                    }
                    let ghost old_entries = entries@;
                    entries.set(i, (key, value));
                    proof {
                        lemma_entries_model(entries@);
                        let ds = d.skip(i as int);
                        assert(dict_insert(ds, key@, value@) == seq![(key@, value@)] + ds.drop_first());
                        assert(entries_model(entries@) =~= d.take(i as int) + dict_insert(ds, key@, value@));
                    }
                    return;
                },
                KeyOrder::Greater => {
                    proof {
                        lemma_dict_insert_skip(d, key@, value@, i as int);
                        assert(d.skip(i as int)[0] == d[i as int]);
                    }
                    entries.insert(i, (key, value));
                    proof {
                        lemma_entries_model(entries@);
                        let ds = d.skip(i as int);
                        assert(dict_insert(ds, key@, value@) == seq![(key@, value@)] + ds);
                        assert(entries_model(entries@) =~= d.take(i as int) + dict_insert(ds, key@, value@));
                    }
                    return;
                },
            }
        }
        proof {
            lemma_dict_insert_skip(d, key@, value@, i as int);
            assert(d.skip(i as int) =~= Seq::<(Seq<char>, BValue)>::empty());
            assert(d.take(i as int) =~= d);
        }
        entries.push((key, value));
        proof {
            lemma_entries_model(entries@);
            assert(entries_model(entries@) =~= d.push((key@, value@)));
        }
    }

    /// The position of the entry whose key is `key`.
    fn find(&self, key: &str) -> (r: Option<usize>)
        ensures
            match r {
                Some(i) => i < self@.len() && self@[i as int].0 == key@ && forall|j: int|
                    0 <= j < i ==> #[trigger] self@[j].0 != key@,
                None => forall|j: int| 0 <= j < self@.len() ==> #[trigger] self@[j].0 != key@,
            },
    {
        proof {
            lemma_entries_model(self.entries@);
        }
        let mut i: usize = 0;
        while i < self.entries.len()
            invariant
                i <= self.entries@.len(),
                self@.len() == self.entries@.len(),
                forall|j: int|
                    0 <= j < self.entries@.len() ==> #[trigger] self@[j] == (
                        self.entries@[j].0@,
                        self.entries@[j].1.model(),
                    ),
                forall|j: int| 0 <= j < i ==> #[trigger] self@[j].0 != key@,
            decreases self.entries@.len() - i,
        {
            let ord = compare_keys(self.entries[i].0.as_str(), key);
            assert(self@[i as int].0 == self.entries@[i as int].0@);
            if let KeyOrder::Equal = ord {
                return Some(i);
            }
            i = i + 1;
        }
        None
    }

    /// The value stored under `key`.
    pub fn get(&self, key: &str) -> (r: Option<&Bencoding>)
        ensures
            match r {
                Some(b) => dict_get(self@, key@) == Some(b@),
                None => dict_get(self@, key@) is None,
            },
    {
        proof {
            lemma_entries_model(self.entries@);
        }
        match self.find(key) {
            Some(i) => {
                proof {
                    lemma_dict_skip_absent(self@, key@, i as int);
                    assert(self@.skip(i as int)[0] == self@[i as int]);
                }
                Some(&self.entries[i].1)
            },
            None => {
                proof {
                    lemma_dict_skip_absent(self@, key@, self@.len() as int);
                }
                None
            },
        }
    }

    /// Takes out the entry stored under `key` and returns its value.
    pub fn remove(&mut self, key: &str) -> (r: Option<Bencoding>)
        ensures
            match r {
                Some(b) => dict_get(old(self)@, key@) == Some(b@),
                None => dict_get(old(self)@, key@) is None,
            },
            final(self)@ == dict_remove(old(self)@, key@),
    {
        proof {
            use_type_invariant(&*self);
            lemma_entries_model(self.entries@);
        }
        let ghost d = self@;
        match self.find(key) {
            Some(i) => {
                proof {
                    lemma_dict_skip_absent(d, key@, i as int);
                    assert(d.skip(i as int)[0] == d[i as int]);
                }
                let mut entries: Vec<(String, Bencoding)> = Vec::new();
                std::mem::swap(&mut entries, &mut self.entries);
                let (_, value) = entries.remove(i);
                proof {
                    lemma_entries_model(entries@);
                    let m = entries_model(entries@);
                    assert(d.skip(i as int).drop_first() =~= d.skip(i + 1));
                    assert(m =~= d.take(i as int) + d.skip(i + 1));
                    {
                        assert forall|a: int, b: int| 0 <= a < b < m.len() implies key_lt(
                            #[trigger] m[a].0,
                            #[trigger] m[b].0,
                        ) by {
                            let a2 = if a < i {
                                a
                            } else {
                                a + 1
                            };
                            let b2 = if b < i {
                                b
                            } else {
                                b + 1
                            };
                            assert(m[a] == d[a2]);
                            assert(m[b] == d[b2]);
                        }
                    }
                }
                self.entries = entries;
                Some(value)
            },
            None => {
                proof {
                    lemma_dict_skip_absent(d, key@, d.len() as int);
                    assert(d.skip(d.len() as int) =~= Seq::<(Seq<char>, BValue)>::empty());
                    assert(d.take(d.len() as int) =~= d);
                }
                None
            },
        }
    }

    /// A dictionary of the given entries, inserted in their order, as
    /// `BTreeMap::from` builds one: a later entry replaces an earlier one with
    /// the same key.
    pub fn from_entries(entries: Vec<(String, Bencoding)>) -> (d: Dict)
        ensures
            d@ == dict_from_entries(entries_model(entries@)),
    {
        let mut d = Dict::new();
        let ghost all = entries_model(entries@);
        proof {
            lemma_entries_model(entries@);
        }
        let mut rest = entries;
        let ghost mut k: int = 0;
        assert(all.take(0) =~= Seq::<(Seq<char>, BValue)>::empty());
        assert(all.skip(0) =~= all);
        while rest.len() > 0
            invariant
                0 <= k <= all.len(),
                d@ == dict_from_entries(all.take(k)),
                entries_model(rest@) == all.skip(k),
                rest@.len() + k == all.len(),
            decreases rest@.len(),
        {
            proof {
                lemma_entries_model(rest@);
            }
            let ghost old_rest = rest@;
            let (key, value) = rest.remove(0);
            proof {
                assert(all[k] == all.skip(k)[0]);
                assert(entries_model(old_rest)[0] == (key@, value@));
                assert(all.take(k + 1).drop_last() =~= all.take(k));
                lemma_entries_model(rest@);
                assert forall|j: int| 0 <= j < rest@.len() implies #[trigger] entries_model(rest@)[j]
                    == all.skip(k + 1)[j] by {
                    assert(rest@[j] == old_rest[j + 1]);
                    assert(entries_model(old_rest)[j + 1] == all.skip(k)[j + 1]);
                }
                assert(entries_model(rest@) =~= all.skip(k + 1));
            }
            d.insert(key, value);
            proof {
                k = k + 1;
            }
        }
        assert(all.take(k) =~= all);
        d
    }
}

// ---------------------------------------------------------------------------
// Encoding
// ---------------------------------------------------------------------------

/// The bencoding of a byte string: its length in decimal, `:`, the bytes.
pub open spec fn encode_bytes(b: Seq<u8>) -> Seq<u8> {
    decimal(b.len()) + seq![58u8] + b
}

/// The bencoding of a value.
pub open spec fn encode_value(v: BValue) -> Seq<u8>
    decreases v,
{
    match v {
        BValue::Raw(b) => encode_bytes(b),
        BValue::Integer(i) => seq![105u8] + signed_decimal(i as int) + seq![101u8],
        BValue::List(l) => seq![108u8] + encode_items(l) + seq![101u8],
        BValue::Dictionary(d) => seq![100u8] + encode_entries(d) + seq![101u8],
    }
}

/// The bencodings of the items of a list, one after the other.
pub open spec fn encode_items(l: Seq<BValue>) -> Seq<u8>
    decreases l,
{
    if l.len() == 0 {
        Seq::empty()
    } else {
        encode_items(l.subrange(0, l.len() - 1)) + encode_value(l[l.len() - 1])
    }
}

/// The bencodings of the entries of a dictionary: each key as a byte string
/// of its UTF-8 bytes, then its value.
pub open spec fn encode_entries(d: Seq<(Seq<char>, BValue)>) -> Seq<u8>
    decreases d,
{
    if d.len() == 0 {
        Seq::empty()
    } else {
        encode_entries(d.subrange(0, d.len() - 1)) + encode_bytes(encode_utf8(d[d.len() - 1].0))
            + encode_value(d[d.len() - 1].1)
    }
}

/// Appends the bencoding of a byte string.
fn push_encoded_bytes(out: &mut Vec<u8>, s: &[u8])
    ensures
        final(out)@ == old(out)@ + encode_bytes(s@),
        s@.len() <= usize::MAX,
{
    push_decimal(out, s.len() as u64);
    out.push(58);
    push_bytes(out, s);
    assert(out@ =~= old(out)@ + encode_bytes(s@));
}

impl Bencoding {
    /// The bencoding of this value; decoding it gives the value back.
    pub fn encode(&self) -> (r: Vec<u8>)
        ensures
            r@ == encode_value(self@),
            well_formed(self@),
            decode_value(r@) == Ok::<BValue, DecodeError>(self@),
    {
        let mut out: Vec<u8> = Vec::new();
        self.encode_into(&mut out);
        assert(out@ =~= encode_value(self@));
        proof {
            law_decode_encode(self@);
        }
        out
    }

    /// Appends the bencoding of this value, which is well formed: the keys of
    /// each of its dictionaries are in increasing order.
    pub fn encode_into(&self, out: &mut Vec<u8>)
        ensures
            final(out)@ == old(out)@ + encode_value(self@),
            well_formed(self@),
        decreases self,
    {
        match self {
            Bencoding::Raw(s) => {
                push_encoded_bytes(out, s.as_slice());
            },
            Bencoding::Integer(i) => {
                out.push(105);
                push_signed_decimal(out, *i);
                out.push(101);
                assert(out@ =~= old(out)@ + encode_value(self@));
            },
            Bencoding::List(l) => {
                out.push(108);
                encode_items_into(l, out);
                out.push(101);
                assert(out@ =~= old(out)@ + encode_value(self@));
            },
            Bencoding::Dictionary(d) => {
                proof {
                    use_type_invariant(d);
                }
                out.push(100);
                d.encode_entries_into(out);
                out.push(101);
                assert(out@ =~= old(out)@ + encode_value(self@));
            },
        }
    }
}

/// Appends the bencodings of the items of a list, in order.
fn encode_items_into(l: &Vec<Bencoding>, out: &mut Vec<u8>)
    ensures
        final(out)@ == old(out)@ + encode_items(items_model(l@)),
        items_well_formed(items_model(l@)),
    decreases l,
{
    let ghost start = out@;
    let mut i: usize = 0;
    assert(l@.take(0) =~= Seq::<Bencoding>::empty());
    while i < l.len()
        invariant
            i <= l@.len(),
            out@ == start + encode_items(items_model(l@.take(i as int))),
            items_well_formed(items_model(l@.take(i as int))),
        decreases l@.len() - i,
    {
        l[i].encode_into(out);
        proof {
            let t = l@.take(i + 1);
            assert(t.subrange(0, t.len() - 1) =~= l@.take(i as int));
            lemma_items_model(t);
            assert(items_model(t).subrange(0, i as int) =~= items_model(l@.take(i as int)));
            assert(items_model(t)[i as int] == l@[i as int].model());
        }
        i = i + 1;
    }
    assert(l@.take(i as int) =~= l@);
}

impl Dict {
    /// Appends the bencodings of the entries, in order.
    fn encode_entries_into(&self, out: &mut Vec<u8>)
        ensures
            final(out)@ == old(out)@ + encode_entries(self@),
            entries_well_formed(self@),
        decreases self,
    {
        let ghost start = out@;
        let mut i: usize = 0;
        assert(self.entries@.take(0) =~= Seq::<(String, Bencoding)>::empty());
        while i < self.entries.len()
            invariant
                i <= self.entries@.len(),
                out@ == start + encode_entries(entries_model(self.entries@.take(i as int))),
                entries_well_formed(entries_model(self.entries@.take(i as int))),
            decreases self.entries@.len() - i,
        {
            let key = &self.entries[i].0;
            push_encoded_bytes(out, key.as_str().as_bytes());
            self.entries[i].1.encode_into(out);
            proof {
                let t = self.entries@.take(i + 1);
                assert(t.subrange(0, t.len() - 1) =~= self.entries@.take(i as int));
                lemma_entries_model(t);
                assert(entries_model(t).subrange(0, i as int) =~= entries_model(
                    self.entries@.take(i as int),
                ));
                assert(entries_model(t)[i as int] == (
                    self.entries@[i as int].0@,
                    self.entries@[i as int].1.model(),
                ));
            }
            i = i + 1;
        }
        assert(self.entries@.take(i as int) =~= self.entries@);
    }
}

// ---------------------------------------------------------------------------
// Decoding
// ---------------------------------------------------------------------------

/// The position of the first `delim` at or after `pos`, or the length of the
/// input when there is none.
pub open spec fn find_from(data: Seq<u8>, pos: int, delim: u8) -> int
    decreases data.len() - pos,
{
    if pos < 0 || pos >= data.len() {
        data.len() as int
    } else if data[pos] == delim {
        pos
    } else {
        find_from(data, pos + 1, delim)
    }
}

/// What reading up to a delimiter yields, the way `BufRead::read_until`
/// reads from `from` (the bytes from `start` on, then those up to and with the
/// delimiter, or up to the end), less its last byte.
pub open spec fn field_text(data: Seq<u8>, start: int, from: int, delim: u8) -> Seq<u8> {
    let k = find_from(data, from, delim);
    if k < data.len() {
        data.subrange(start, k)
    } else if start < data.len() {
        data.subrange(start, data.len() - 1)
    } else {
        Seq::empty()
    }
}

/// Where reading up to a delimiter from `from` stops: after the delimiter, or
/// at the end.
pub open spec fn field_end(data: Seq<u8>, from: int, delim: u8) -> int {
    let k = find_from(data, from, delim);
    if k < data.len() {
        k + 1
    } else {
        data.len() as int
    }
}

/// The value that starts at `pos`, and where it ends.
pub open spec fn decode_at(data: Seq<u8>, pos: int) -> Result<(BValue, int), DecodeError>
    decreases data.len() - pos, 2int,
{
    if 0 <= pos < data.len() {
        decode_body(data, pos + 1)
    } else {
        Err(DecodeError::UnexpectedEnd)
    }
}

/// The value whose first byte is `data[q - 1]`, and where it ends.
pub open spec fn decode_body(data: Seq<u8>, q: int) -> Result<(BValue, int), DecodeError>
    decreases data.len() - q, 1int,
{
    if q < 1 || q > data.len() {
        Err(DecodeError::UnexpectedEnd)
    } else {
        let c = data[q - 1];
        if c == 105 {
            match parse_signed(field_text(data, q, q, 101)) {
                Some(i) => Ok((BValue::Integer(i as i64), field_end(data, q, 101))),
                None => Err(DecodeError::InvalidInteger),
            }
        } else if c == 108 {
            match decode_list(data, q, Seq::empty()) {
                Ok((items, end)) => Ok((BValue::List(items), end)),
                Err(e) => Err(e),
            }
        } else if c == 100 {
            match decode_dict(data, q, Seq::empty()) {
                Ok((d, end)) => Ok((BValue::Dictionary(d), end)),
                Err(e) => Err(e),
            }
        } else {
            let after = field_end(data, q, 58);
            match parse_unsigned(field_text(data, q - 1, q, 58), usize::MAX as nat) {
                Some(n) => if after + n <= data.len() {
                    Ok((BValue::Raw(data.subrange(after, after + n)), after + n))
                } else {
                    Err(DecodeError::UnexpectedEnd)
                },
                None => Err(DecodeError::InvalidLength),
            }
        }
    }
}

/// The items of a list from `p` on, after those in `acc`, up to its `e`.
pub open spec fn decode_list(data: Seq<u8>, p: int, acc: Seq<BValue>) -> Result<
    (Seq<BValue>, int),
    DecodeError,
>
    decreases data.len() - p, 0int,
{
    if p < 0 || p >= data.len() {
        Err(DecodeError::UnexpectedEnd)
    } else if data[p] == 101 {
        Ok((acc, p + 1))
    } else {
        match decode_body(data, p + 1) {
            Err(e) => Err(e),
            Ok((v, p2)) => if p < p2 <= data.len() {
                decode_list(data, p2, acc.push(v))
            } else {
                Err(DecodeError::UnexpectedEnd)
            },
        }
    }
}

/// The entries of a dictionary from `p` on, inserted into `acc`, up to its `e`.
pub open spec fn decode_dict(data: Seq<u8>, p: int, acc: Seq<(Seq<char>, BValue)>) -> Result<
    (Seq<(Seq<char>, BValue)>, int),
    DecodeError,
>
    decreases data.len() - p, 0int,
{
    if p < 0 || p >= data.len() {
        Err(DecodeError::UnexpectedEnd)
    } else if data[p] == 101 {
        Ok((acc, p + 1))
    } else {
        match decode_body(data, p + 1) {
            Err(e) => Err(e),
            Ok((key, p2)) => match key {
                BValue::Raw(kb) => if !valid_utf8(kb) {
                    Err(DecodeError::InvalidKey)
                } else if !(p < p2 <= data.len()) {
                    Err(DecodeError::UnexpectedEnd)
                } else {
                    match decode_at(data, p2) {
                        Err(e) => Err(e),
                        Ok((val, p3)) => if p < p3 <= data.len() {
                            decode_dict(data, p3, dict_insert(acc, decode_utf8(kb), val))
                        } else {
                            Err(DecodeError::UnexpectedEnd)
                        },
                    }
                },
                _ => Err(DecodeError::KeyNotString),
            },
        }
    }
}

/// The value that bytes decode to; what follows it is ignored.
pub open spec fn decode_value(data: Seq<u8>) -> Result<BValue, DecodeError> {
    match decode_at(data, 0) {
        Ok((v, _)) => Ok(v),
        Err(e) => Err(e),
    }
}

pub proof fn lemma_find_from(data: Seq<u8>, pos: int, delim: u8)
    requires
        0 <= pos <= data.len(),
    ensures
        pos <= find_from(data, pos, delim) <= data.len(),
        find_from(data, pos, delim) < data.len() ==> data[find_from(data, pos, delim)] == delim,
        forall|j: int| pos <= j < find_from(data, pos, delim) ==> data[j] != delim,
    decreases data.len() - pos,
{
    if pos < data.len() && data[pos] != delim {
        lemma_find_from(data, pos + 1, delim);
    }
}

pub proof fn lemma_list_bounds(data: Seq<u8>, p: int, acc: Seq<BValue>)
    ensures
        decode_list(data, p, acc) matches Ok((_, e)) ==> p < e <= data.len(),
    decreases data.len() - p,
{
    if 0 <= p < data.len() && data[p] != 101 {
        if let Ok((v, p2)) = decode_body(data, p + 1) {
            if p < p2 <= data.len() {
                lemma_list_bounds(data, p2, acc.push(v));
            }
        }
    }
}

pub proof fn lemma_dict_bounds(data: Seq<u8>, p: int, acc: Seq<(Seq<char>, BValue)>)
    ensures
        decode_dict(data, p, acc) matches Ok((_, e)) ==> p < e <= data.len(),
    decreases data.len() - p,
{
    if 0 <= p < data.len() && data[p] != 101 {
        if let Ok((key, p2)) = decode_body(data, p + 1) {
            if let BValue::Raw(kb) = key {
                if valid_utf8(kb) && p < p2 <= data.len() {
                    if let Ok((val, p3)) = decode_at(data, p2) {
                        if p < p3 <= data.len() {
                            lemma_dict_bounds(data, p3, dict_insert(acc, decode_utf8(kb), val));
                        }
                    }
                }
            }
        }
    }
}

pub proof fn lemma_body_bounds(data: Seq<u8>, q: int)
    requires
        1 <= q <= data.len(),
    ensures
        decode_body(data, q) matches Ok((_, e)) ==> q <= e <= data.len(),
{
    lemma_find_from(data, q, 101);
    lemma_find_from(data, q, 58);
    lemma_list_bounds(data, q, Seq::empty());
    lemma_dict_bounds(data, q, Seq::empty());
}

/// The result of decoding, as the library's value and where it ends.
pub open spec fn same_outcome(s: Result<(BValue, int), DecodeError>, r: Result<(Bencoding, usize), DecodeError>) -> bool {
    match r {
        Ok((b, end)) => s == Ok::<(BValue, int), DecodeError>((b@, end as int)),
        Err(e) => s == Err::<(BValue, int), DecodeError>(e),
    }
}

/// The position of the first `delim` at or after `pos`, or the length.
fn find_byte(data: &[u8], pos: usize, delim: u8) -> (k: usize)
    requires
        pos <= data@.len(),
    ensures
        k == find_from(data@, pos as int, delim),
{
    let mut i = pos;
    while i < data.len()
        invariant
            pos <= i <= data@.len(),
            find_from(data@, pos as int, delim) == find_from(data@, i as int, delim),
        decreases data@.len() - i,
    {
        if data[i] == delim {
            return i;
        }
        i = i + 1;
    }
    i
}

/// The bytes that reading up to a delimiter at `k` yields, less the last.
fn field_bytes(data: &[u8], start: usize, k: usize) -> (r: Vec<u8>)
    requires
        start <= k <= data@.len(),
        start < data@.len() || k == data@.len(),
    ensures
        r@ == (if k < data@.len() {
            data@.subrange(start as int, k as int)
        } else if start < data@.len() {
            data@.subrange(start as int, data@.len() - 1)
        } else {
            Seq::empty()
        }),
{
    if k < data.len() {
        copy_range(data, start, k)
    } else if start < data.len() {
        copy_range(data, start, data.len() - 1)
    } else {
        Vec::new()
    }
}

impl Bencoding {
    /// Decodes the value at the start of `data`; what follows it is ignored.
    pub fn decode(data: Vec<u8>) -> (r: Result<Bencoding, DecodeError>)
        ensures
            match r {
                Ok(b) => decode_value(data@) == Ok::<BValue, DecodeError>(b@),
                Err(e) => decode_value(data@) == Err::<BValue, DecodeError>(e),
            },
    {
        match Self::decode_from_cursor(data.as_slice(), 0) {
            Ok((b, _)) => Ok(b),
            Err(e) => Err(e),
        }
    }

    /// Decodes the value that starts at `pos`, and says where it ends: what
    /// follows it is left unread.
    pub fn decode_from_cursor(data: &[u8], pos: usize) -> (r: Result<(Bencoding, usize), DecodeError>)
        requires
            pos <= data@.len(),
        ensures
            same_outcome(decode_at(data@, pos as int), r),
        decreases data@.len() - pos, 2int,
    {
        if pos >= data.len() {
            return Err(DecodeError::UnexpectedEnd);
        }
        Self::decode_body_at(data, pos + 1)
    }

    /// Decodes the value whose first byte is `data[q - 1]`.
    fn decode_body_at(data: &[u8], q: usize) -> (r: Result<(Bencoding, usize), DecodeError>)
        requires
            1 <= q <= data@.len(),
        ensures
            same_outcome(decode_body(data@, q as int), r),
        decreases data@.len() - q, 1int,
    {
        let c = data[q - 1];
        if c == 105 {
            let k = find_byte(data, q, 101);
            proof {
                lemma_find_from(data@, q as int, 101);
            }
            let text = field_bytes(data, q, k);
            let end = if k < data.len() {
                k + 1
            } else {
                data.len()
            };
            match parse_i64(text.as_slice()) {
                Some(i) => Ok((Bencoding::Integer(i), end)),
                None => Err(DecodeError::InvalidInteger),
            }
        } else if c == 108 {
            match Self::decode_list_at(data, q) {
                Ok((items, end)) => Ok((Bencoding::List(items), end)),
                Err(e) => Err(e),
            }
        } else if c == 100 {
            match Self::decode_dict_at(data, q) {
                Ok((d, end)) => Ok((Bencoding::Dictionary(d), end)),
                Err(e) => Err(e),
            }
        } else {
            let k = find_byte(data, q, 58);
            proof {
                lemma_find_from(data@, q as int, 58);
            }
            let text = field_bytes(data, q - 1, k);
            let after = if k < data.len() {
                k + 1
            } else {
                data.len()
            };
            match parse_usize(text.as_slice()) {
                Some(n) => {
                    if n <= data.len() - after {
                        let bytes = copy_range(data, after, after + n);
                        Ok((Bencoding::Raw(bytes), after + n))
                    } else {
                        Err(DecodeError::UnexpectedEnd)
                    }
                },
                None => Err(DecodeError::InvalidLength),
            }
        }
    }

    /// Decodes the items of a list from `p0` on, up to its `e`.
    fn decode_list_at(data: &[u8], p0: usize) -> (r: Result<(Vec<Bencoding>, usize), DecodeError>)
        requires
            p0 <= data@.len(),
        ensures
            match r {
                Ok((items, end)) => decode_list(data@, p0 as int, Seq::empty()) == Ok::<
                    (Seq<BValue>, int),
                    DecodeError,
                >((items_model(items@), end as int)),
                Err(e) => decode_list(data@, p0 as int, Seq::empty()) == Err::<
                    (Seq<BValue>, int),
                    DecodeError,
                >(e),
            },
        decreases data@.len() - p0, 0int,
    {
        let mut items: Vec<Bencoding> = Vec::new();
        let mut p = p0;
        assert(items_model(items@) =~= Seq::<BValue>::empty());
        loop
            invariant
                p0 <= p <= data@.len(),
                decode_list(data@, p0 as int, Seq::empty()) == decode_list(
                    data@,
                    p as int,
                    items_model(items@),
                ),
            decreases data@.len() - p,
        {
            if p >= data.len() {
                return Err(DecodeError::UnexpectedEnd);
            }
            if data[p] == 101 {
                return Ok((items, p + 1));
            }
            let ghost before = items@;
            match Self::decode_body_at(data, p + 1) {
                Err(e) => {
                    return Err(e);
                },
                Ok((v, p2)) => {
                    proof {
                        lemma_body_bounds(data@, p + 1);
                    }
                    items.push(v);
                    proof {
                        let t = items@;
                        assert(t.subrange(0, t.len() - 1) =~= before);
                    }
                    p = p2;
                },
            }
        }
    }

    /// Decodes the entries of a dictionary from `p0` on, up to its `e`.
    fn decode_dict_at(data: &[u8], p0: usize) -> (r: Result<(Dict, usize), DecodeError>)
        requires
            p0 <= data@.len(),
        ensures
            match r {
                Ok((d, end)) => decode_dict(data@, p0 as int, Seq::empty()) == Ok::<
                    (Seq<(Seq<char>, BValue)>, int),
                    DecodeError,
                >((d@, end as int)),
                Err(e) => decode_dict(data@, p0 as int, Seq::empty()) == Err::<
                    (Seq<(Seq<char>, BValue)>, int),
                    DecodeError,
                >(e),
            },
        decreases data@.len() - p0, 0int,
    {
        let mut d = Dict::new();
        let mut p = p0;
        loop
            invariant
                p0 <= p <= data@.len(),
                decode_dict(data@, p0 as int, Seq::empty()) == decode_dict(data@, p as int, d@),
            decreases data@.len() - p,
        {
            if p >= data.len() {
                return Err(DecodeError::UnexpectedEnd);
            }
            if data[p] == 101 {
                return Ok((d, p + 1));
            }
            match Self::decode_body_at(data, p + 1) {
                Err(e) => {
                    return Err(e);
                },
                Ok((key, p2)) => {
                    proof {
                        lemma_body_bounds(data@, p + 1);
                    }
                    match key {
                        Bencoding::Raw(kb) => {
                            let text = match str_from_utf8(kb.as_slice()) {
                                Ok(t) => t,
                                Err(_) => {
                                    return Err(DecodeError::InvalidKey);
                                },
                            };
                            let k = text.to_owned();
                            match Self::decode_from_cursor(data, p2) {
                                Err(e) => {
                                    return Err(e);
                                },
                                Ok((val, p3)) => {
                                    proof {
                                        lemma_body_bounds(data@, p2 + 1);
                                    }
                                    d.insert(k, val);
                                    p = p3;
                                },
                            }
                        },
                        _ => {
                            return Err(DecodeError::KeyNotString);
                        },
                    }
                },
            }
        }
    }
}

// ---------------------------------------------------------------------------
// Display
// ---------------------------------------------------------------------------

/// How a value is shown: byte strings in quotes, as text when they are UTF-8
/// and in hexadecimal otherwise, integers in decimal, lists in brackets and
/// dictionaries in braces, their parts separated by commas.
pub open spec fn display_text(v: BValue) -> Seq<char>
    decreases v,
{
    match v {
        BValue::Raw(b) => seq!['"'] + (if valid_utf8(b) {
            decode_utf8(b)
        } else {
            hex_text(b)
        }) + seq!['"'],
        BValue::Integer(i) => ascii_chars(signed_decimal(i as int)),
        BValue::List(l) => seq!['['] + display_items(l) + seq![']'],
        BValue::Dictionary(d) => seq!['{'] + display_entries(d) + seq!['}'],
    }
}

pub open spec fn display_items(l: Seq<BValue>) -> Seq<char>
    decreases l,
{
    if l.len() == 0 {
        Seq::empty()
    } else if l.len() == 1 {
        display_text(l[0])
    } else {
        display_items(l.subrange(0, l.len() - 1)) + seq![','] + display_text(l[l.len() - 1])
    }
}

/// The texts of a list's items are joined by exactly one comma each:
/// cutting the items anywhere, the text is that of the first part, one
/// comma, then that of the rest; in particular the last item comes after
/// one comma.
pub proof fn law_display_items_join(l: Seq<BValue>, k: int)
    requires
        0 < k < l.len(),
    ensures
        display_items(l) == display_items(l.take(k)) + seq![','] + display_items(l.skip(k)),
        display_items(l) == display_items(l.drop_last()) + seq![','] + display_text(l.last()),
    decreases l.len(),
{
    let n = l.len();
    let p = l.subrange(0, n - 1);
    assert(l.drop_last() =~= p);
    let last = l.skip(n - 1);
    assert(last.len() == 1 && last[0] == l[n - 1]);
    assert(display_items(last) == display_text(l[n - 1]));
    if k == n - 1 {
        assert(l.take(k) =~= p);
    } else {
        law_display_items_join(p, k);
        assert(p.take(k) =~= l.take(k));
        let r = l.skip(k);
        assert(r.len() >= 2);
        assert(r.subrange(0, r.len() - 1) =~= p.skip(k));
        assert(r[r.len() - 1] == l[n - 1]);
        assert(display_items(r) == display_items(p.skip(k)) + seq![','] + display_text(l[n - 1]));
        assert(display_items(l) =~= display_items(l.take(k)) + seq![','] + display_items(r));
    }
}

pub open spec fn display_entries(d: Seq<(Seq<char>, BValue)>) -> Seq<char>
    decreases d,
{
    if d.len() == 0 {
        Seq::empty()
    } else if d.len() == 1 {
        seq!['"'] + d[0].0 + seq!['"', ':'] + display_text(d[0].1)
    } else {
        display_entries(d.subrange(0, d.len() - 1)) + seq![','] + seq!['"'] + d[d.len() - 1].0
            + seq!['"', ':'] + display_text(d[d.len() - 1].1)
    }
}

/// How one entry of a dictionary shows.
pub open spec fn entry_text(e: (Seq<char>, BValue)) -> Seq<char> {
    seq!['"'] + e.0 + seq!['"', ':'] + display_text(e.1)
}

/// The texts of a dictionary's entries are joined by exactly one comma each:
/// cutting the entries anywhere, the text is that of the first part, one
/// comma, then that of the rest; a single entry shows as its key and value.
pub proof fn law_display_entries_join(d: Seq<(Seq<char>, BValue)>, k: int)
    requires
        0 < k < d.len(),
    ensures
        display_entries(d) == display_entries(d.take(k)) + seq![','] + display_entries(d.skip(k)),
        display_entries(d) == display_entries(d.drop_last()) + seq![','] + entry_text(d.last()),
        display_entries(d.take(1)) == entry_text(d[0]),
    decreases d.len(),
{
    let n = d.len();
    let p = d.subrange(0, n - 1);
    assert(d.drop_last() =~= p);
    let last = d.skip(n - 1);
    assert(last.len() == 1 && last[0] == d[n - 1]);
    assert(display_entries(last) =~= entry_text(d[n - 1]));
    assert(d.take(1).len() == 1 && d.take(1)[0] == d[0]);
    assert(display_entries(d.take(1)) =~= entry_text(d[0]));
    assert(display_entries(d) =~= display_entries(p) + seq![','] + entry_text(d[n - 1]));
    if k == n - 1 {
        assert(d.take(k) =~= p);
    } else {
        law_display_entries_join(p, k);
        assert(p.take(k) =~= d.take(k));
        let r = d.skip(k);
        assert(r.len() >= 2);
        assert(r.subrange(0, r.len() - 1) =~= p.skip(k));
        assert(r[r.len() - 1] == d[n - 1]);
        assert(display_entries(r) =~= display_entries(p.skip(k)) + seq![','] + entry_text(d[n - 1]));
        assert(display_entries(d) =~= display_entries(d.take(k)) + seq![','] + display_entries(r));
    }
}

impl Bencoding {
    /// The text that shows this value (what the type's `Display` writes).
    pub fn to_display_string(&self) -> (r: String)
        ensures
            r@ == display_text(self@),
    {
        let mut out = String::new();
        self.display_into(&mut out);
        assert(out@ =~= display_text(self@));
        out
    }

    /// Appends the text that shows this value.
    pub fn display_into(&self, out: &mut String)
        ensures
            final(out)@ == old(out)@ + display_text(self@),
        decreases self,
    {
        match self {
            Bencoding::Raw(s) => {
                push_char(out, '"');
                match str_from_utf8(s.as_slice()) {
                    Ok(t) => {
                        let cs = chars_of(t);
                        push_chars(out, cs.as_slice());
                    },
                    Err(_) => {
                        let h = hex_encode(s.as_slice());
                        let cs = chars_of(h.as_str());
                        push_chars(out, cs.as_slice());
                    },
                }
                push_char(out, '"');
                assert(out@ =~= old(out)@ + display_text(self@));
            },
            Bencoding::Integer(i) => {
                let mut digits: Vec<u8> = Vec::new();
                push_signed_decimal(&mut digits, *i);
                push_ascii(out, digits.as_slice());
                assert(digits@ =~= signed_decimal(*i as int));
            },
            Bencoding::List(l) => {
                push_char(out, '[');
                display_items_into(l, out);
                push_char(out, ']');
                assert(out@ =~= old(out)@ + display_text(self@));
            },
            Bencoding::Dictionary(d) => {
                push_char(out, '{');
                d.display_entries_into(out);
                push_char(out, '}');
                assert(out@ =~= old(out)@ + display_text(self@));
            },
        }
    }
}

/// Appends the texts of the items of a list, separated by commas.
fn display_items_into(l: &Vec<Bencoding>, out: &mut String)
    ensures
        final(out)@ == old(out)@ + display_items(items_model(l@)),
    decreases l,
{
    let ghost start = out@;
    let mut i: usize = 0;
    assert(l@.take(0) =~= Seq::<Bencoding>::empty());
    while i < l.len()
        invariant
            i <= l@.len(),
            out@ == start + display_items(items_model(l@.take(i as int))),
        decreases l@.len() - i,
    {
        if i > 0 {
            push_char(out, ',');
        }
        l[i].display_into(out);
        proof {
            let t = l@.take(i + 1);
            assert(t.subrange(0, t.len() - 1) =~= l@.take(i as int));
            lemma_items_model(t);
            assert(items_model(t).subrange(0, i as int) =~= items_model(l@.take(i as int)));
            if i == 0 {
                assert(display_items(items_model(l@.take(0))) =~= Seq::<char>::empty());
            }
        }
        i = i + 1;
        assert(out@ =~= start + display_items(items_model(l@.take(i as int))));
    }
    assert(l@.take(i as int) =~= l@);
}

impl Dict {
    /// Appends `"key":value` for each entry, separated by commas.
    fn display_entries_into(&self, out: &mut String)
        ensures
            final(out)@ == old(out)@ + display_entries(self@),
        decreases self,
    {
        let ghost start = out@;
        let mut i: usize = 0;
        assert(self.entries@.take(0) =~= Seq::<(String, Bencoding)>::empty());
        while i < self.entries.len()
            invariant
                i <= self.entries@.len(),
                out@ == start + display_entries(entries_model(self.entries@.take(i as int))),
            decreases self.entries@.len() - i,
        {
            if i > 0 {
                push_char(out, ',');
            }
            push_char(out, '"');
            let key = chars_of(self.entries[i].0.as_str());
            push_chars(out, key.as_slice());
            push_char(out, '"');
            push_char(out, ':');
            self.entries[i].1.display_into(out);
            proof {
                let t = self.entries@.take(i + 1);
                assert(t.subrange(0, t.len() - 1) =~= self.entries@.take(i as int));
                lemma_entries_model(t);
                assert(entries_model(t).subrange(0, i as int) =~= entries_model(
                    self.entries@.take(i as int),
                ));
                if i == 0 {
                    assert(display_entries(entries_model(self.entries@.take(0)))
                        =~= Seq::<char>::empty());
                }
            }
            i = i + 1;
            assert(out@ =~= start + display_entries(entries_model(self.entries@.take(i as int))));
        }
        assert(self.entries@.take(i as int) =~= self.entries@);
    }
}

// ---------------------------------------------------------------------------
// Laws
// ---------------------------------------------------------------------------

/// A value that a `Bencoding` can hold: dictionary keys in strictly
/// increasing order, byte strings and keys no longer than `usize::MAX`.
pub open spec fn well_formed(v: BValue) -> bool
    decreases v,
{
    match v {
        BValue::Raw(b) => b.len() <= usize::MAX,
        BValue::Integer(_) => true,
        BValue::List(l) => items_well_formed(l),
        BValue::Dictionary(d) => keys_sorted(d) && entries_well_formed(d),
    }
}

pub open spec fn items_well_formed(l: Seq<BValue>) -> bool
    decreases l,
{
    if l.len() == 0 {
        true
    } else {
        items_well_formed(l.subrange(0, l.len() - 1)) && well_formed(l[l.len() - 1])
    }
}

pub open spec fn entries_well_formed(d: Seq<(Seq<char>, BValue)>) -> bool
    decreases d,
{
    if d.len() == 0 {
        true
    } else {
        entries_well_formed(d.subrange(0, d.len() - 1)) && encode_utf8(d[d.len() - 1].0).len()
            <= usize::MAX && well_formed(d[d.len() - 1].1)
    }
}

pub proof fn lemma_items_well_formed(l: Seq<BValue>)
    ensures
        items_well_formed(l) <==> forall|i: int| 0 <= i < l.len() ==> well_formed(#[trigger] l[i]),
    decreases l.len(),
{
    if l.len() > 0 {
        let t = l.subrange(0, l.len() - 1);
        lemma_items_well_formed(t);
        if forall|i: int| 0 <= i < l.len() ==> well_formed(#[trigger] l[i]) {
            assert forall|i: int| 0 <= i < t.len() implies well_formed(#[trigger] t[i]) by {
                assert(t[i] == l[i]);
            }
        }
        if items_well_formed(l) {
            assert forall|i: int| 0 <= i < l.len() implies well_formed(#[trigger] l[i]) by {
                if i < l.len() - 1 {
                    assert(t[i] == l[i]);
                }
            }
        }
    }
}

pub proof fn lemma_entries_well_formed(d: Seq<(Seq<char>, BValue)>)
    ensures
        entries_well_formed(d) <==> forall|i: int|
            0 <= i < d.len() ==> encode_utf8(#[trigger] d[i].0).len() <= usize::MAX && well_formed(
                d[i].1,
            ),
    decreases d.len(),
{
    if d.len() > 0 {
        let t = d.subrange(0, d.len() - 1);
        lemma_entries_well_formed(t);
        if forall|i: int|
            0 <= i < d.len() ==> encode_utf8(#[trigger] d[i].0).len() <= usize::MAX && well_formed(
                d[i].1,
            ) {
            assert forall|i: int| 0 <= i < t.len() implies encode_utf8(#[trigger] t[i].0).len()
                <= usize::MAX && well_formed(t[i].1) by {
                assert(t[i] == d[i]);
            }
        }
        if entries_well_formed(d) {
            assert forall|i: int| 0 <= i < d.len() implies encode_utf8(#[trigger] d[i].0).len()
                <= usize::MAX && well_formed(d[i].1) by {
                if i < d.len() - 1 {
                    assert(t[i] == d[i]);
                }
            }
        }
    }
}

/// The bencoding of the items of a list is that of the first, then the rest.
pub proof fn lemma_encode_items_front(l: Seq<BValue>)
    requires
        l.len() > 0,
    ensures
        encode_items(l) == encode_value(l[0]) + encode_items(l.subrange(1, l.len() as int)),
    decreases l.len(),
{
    if l.len() == 1 {
        assert(l.subrange(0, 0) =~= Seq::<BValue>::empty());
        assert(l.subrange(1, 1) =~= Seq::<BValue>::empty());
        assert(encode_items(l.subrange(0, 0)) =~= Seq::<u8>::empty());
        assert(encode_items(l.subrange(1, 1)) =~= Seq::<u8>::empty());
        assert(encode_items(l) =~= encode_value(l[0]));
    } else {
        let t = l.subrange(0, l.len() - 1);
        lemma_encode_items_front(t);
        assert(t.subrange(1, t.len() as int) =~= l.subrange(1, l.len() as int).subrange(
            0,
            l.len() - 2,
        ));
        assert(l.subrange(1, l.len() as int)[l.len() - 2] == l[l.len() - 1]);
        assert(encode_items(l) =~= encode_value(l[0]) + encode_items(l.subrange(1, l.len() as int)));
    }
}

/// The bencoding of the entries of a dictionary is that of the first, then
/// the rest.
pub proof fn lemma_encode_entries_front(d: Seq<(Seq<char>, BValue)>)
    requires
        d.len() > 0,
    ensures
        encode_entries(d) == encode_bytes(encode_utf8(d[0].0)) + encode_value(d[0].1)
            + encode_entries(d.subrange(1, d.len() as int)),
    decreases d.len(),
{
    if d.len() == 1 {
        assert(d.subrange(0, 0) =~= Seq::<(Seq<char>, BValue)>::empty());
        assert(d.subrange(1, 1) =~= Seq::<(Seq<char>, BValue)>::empty());
        assert(encode_entries(d.subrange(0, 0)) =~= Seq::<u8>::empty());
        assert(encode_entries(d.subrange(1, 1)) =~= Seq::<u8>::empty());
        assert(encode_entries(d) =~= encode_bytes(encode_utf8(d[0].0)) + encode_value(d[0].1));
    } else {
        let t = d.subrange(0, d.len() - 1);
        lemma_encode_entries_front(t);
        assert(t.subrange(1, t.len() as int) =~= d.subrange(1, d.len() as int).subrange(
            0,
            d.len() - 2,
        ));
        assert(d.subrange(1, d.len() as int)[d.len() - 2] == d[d.len() - 1]);
        assert(encode_entries(d) =~= encode_bytes(encode_utf8(d[0].0)) + encode_value(d[0].1)
            + encode_entries(d.subrange(1, d.len() as int)));
    }
}

/// The first byte of a bencoding tells its kind, and is never `e`.
pub proof fn lemma_encode_first(v: BValue)
    ensures
        encode_value(v).len() >= 2,
        encode_value(v)[0] != 101,
        v is Raw ==> is_digit(encode_value(v)[0]),
        v is Integer ==> encode_value(v)[0] == 105,
        v is List ==> encode_value(v)[0] == 108,
        v is Dictionary ==> encode_value(v)[0] == 100,
{
    match v {
        BValue::Raw(b) => {
            lemma_decimal(b.len());
            assert(encode_value(v)[0] == decimal(b.len())[0]);
        },
        BValue::Integer(i) => {
            lemma_signed_decimal(i as int);
        },
        _ => {},
    }
}

/// `find_from` stops at the first delimiter.
pub proof fn lemma_find_from_at(data: Seq<u8>, pos: int, m: int, delim: u8)
    requires
        0 <= pos,
        0 <= m,
        pos + m < data.len(),
        data[pos + m] == delim,
        forall|j: int| pos <= j < pos + m ==> data[j] != delim,
    ensures
        find_from(data, pos, delim) == pos + m,
    decreases m,
{
    if m > 0 {
        lemma_find_from_at(data, pos + 1, m - 1, delim);
    }
}

/// A byte string decodes from its bencoding.
pub proof fn lemma_decode_raw(b: Seq<u8>, data: Seq<u8>, q: int)
    requires
        b.len() <= usize::MAX,
        1 <= q,
        q - 1 + encode_bytes(b).len() <= data.len(),
        data.subrange(q - 1, q - 1 + encode_bytes(b).len()) == encode_bytes(b),
    ensures
        decode_body(data, q) == Ok::<(BValue, int), DecodeError>(
            (BValue::Raw(b), q - 1 + encode_bytes(b).len()),
        ),
{
    let e = encode_bytes(b);
    let dec = decimal(b.len());
    lemma_decimal(b.len());
    lemma_parse_decimal(b.len(), usize::MAX as nat);
    assert(data[q - 1] == e[0]);
    assert(e[0] == dec[0]);
    assert forall|j: int| q <= j < q - 1 + dec.len() implies data[j] != 58 by {
        assert(data[j] == e[j - q + 1]);
        assert(e[j - q + 1] == dec[j - q + 1]);
    }
    assert(data[q - 1 + dec.len()] == e[dec.len() as int]);
    lemma_find_from_at(data, q, dec.len() - 1, 58);
    assert(data.subrange(q - 1, q - 1 + dec.len()) =~= dec) by {
        assert forall|j: int| 0 <= j < dec.len() implies data.subrange(q - 1, q - 1 + dec.len())[j]
            == dec[j] by {
            assert(data[q - 1 + j] == e[j]);
        }
    }
    let after = q - 1 + dec.len() + 1;
    assert(data.subrange(after, after + b.len()) =~= b) by {
        assert forall|j: int| 0 <= j < b.len() implies data.subrange(after, after + b.len())[j]
            == b[j] by {
            assert(data[after + j] == e[dec.len() + 1 + j]);
        }
    }
}

/// A well-formed value decodes from its bencoding, whatever follows it.
pub proof fn lemma_decode_encoded(v: BValue, data: Seq<u8>, q: int)
    requires
        well_formed(v),
        1 <= q,
        q - 1 + encode_value(v).len() <= data.len(),
        data.subrange(q - 1, q - 1 + encode_value(v).len()) == encode_value(v),
    ensures
        decode_body(data, q) == Ok::<(BValue, int), DecodeError>(
            (v, q - 1 + encode_value(v).len()),
        ),
    decreases v,
{
    let e = encode_value(v);
    lemma_encode_first(v);
    assert(data[q - 1] == e[0]);
    match v {
        BValue::Raw(b) => {
            lemma_decode_raw(b, data, q);
        },
        BValue::Integer(i) => {
            let sd = signed_decimal(i as int);
            lemma_signed_decimal(i as int);
            assert forall|j: int| q <= j < q + sd.len() implies data[j] != 101 by {
                assert(data[j] == e[j - q + 1]);
                assert(e[j - q + 1] == sd[j - q]);
            }
            assert(data[q + sd.len()] == e[sd.len() as int + 1]);
            lemma_find_from_at(data, q, sd.len() as int, 101);
            assert(data.subrange(q, q + sd.len()) =~= sd) by {
                assert forall|j: int| 0 <= j < sd.len() implies data.subrange(q, q + sd.len())[j]
                    == sd[j] by {
                    assert(data[q + j] == e[j + 1]);
                }
            }
        },
        BValue::List(l) => {
            let body = encode_items(l);
            assert(data.subrange(q, q + body.len()) =~= body) by {
                assert forall|j: int| 0 <= j < body.len() implies data.subrange(q, q + body.len())[j]
                    == body[j] by {
                    assert(data[q + j] == e[j + 1]);
                }
            }
            assert(data[q + body.len()] == e[body.len() as int + 1]);
            lemma_decode_items(l, data, q, Seq::empty());
            assert(Seq::<BValue>::empty() + l =~= l);
        },
        BValue::Dictionary(d) => {
            let body = encode_entries(d);
            assert(data.subrange(q, q + body.len()) =~= body) by {
                assert forall|j: int| 0 <= j < body.len() implies data.subrange(q, q + body.len())[j]
                    == body[j] by {
                    assert(data[q + j] == e[j + 1]);
                }
            }
            assert(data[q + body.len()] == e[body.len() as int + 1]);
            assert(Seq::<(Seq<char>, BValue)>::empty() + d =~= d);
            lemma_decode_entries(d, data, q, Seq::empty());
        },
    }
}

/// The items of a list decode from their bencodings, up to the closing `e`.
pub proof fn lemma_decode_items(l: Seq<BValue>, data: Seq<u8>, p: int, acc: Seq<BValue>)
    requires
        items_well_formed(l),
        0 <= p,
        p + encode_items(l).len() < data.len(),
        data.subrange(p, p + encode_items(l).len()) == encode_items(l),
        data[p + encode_items(l).len()] == 101,
    ensures
        decode_list(data, p, acc) == Ok::<(Seq<BValue>, int), DecodeError>(
            (acc + l, p + encode_items(l).len() + 1),
        ),
    decreases l,
{
    if l.len() == 0 {
        assert(acc + l =~= acc);
    } else {
        lemma_items_well_formed(l);
        lemma_encode_items_front(l);
        let first = encode_value(l[0]);
        let rest = l.subrange(1, l.len() as int);
        let all = encode_items(l);
        lemma_encode_first(l[0]);
        assert(data[p] == all[0]);
        assert(data.subrange(p, p + first.len()) =~= first) by {
            assert forall|j: int| 0 <= j < first.len() implies data.subrange(p, p + first.len())[j]
                == first[j] by {
                assert(data[p + j] == all[j]);
            }
        }
        lemma_decode_encoded(l[0], data, p + 1);
        let p2 = p + first.len();
        assert(data.subrange(p2, p2 + encode_items(rest).len()) =~= encode_items(rest)) by {
            assert forall|j: int| 0 <= j < encode_items(rest).len() implies data.subrange(
                p2,
                p2 + encode_items(rest).len(),
            )[j] == encode_items(rest)[j] by {
                assert(data[p2 + j] == all[first.len() + j]);
            }
        }
        assert(items_well_formed(rest)) by {
            lemma_items_well_formed(rest);
        }
        lemma_decode_items(rest, data, p2, acc.push(l[0]));
        assert(acc.push(l[0]) + rest =~= acc + l);
    }
}

/// The entries of a sorted dictionary decode from their bencodings, up to the
/// closing `e`.
pub proof fn lemma_decode_entries(
    d: Seq<(Seq<char>, BValue)>,
    data: Seq<u8>,
    p: int,
    acc: Seq<(Seq<char>, BValue)>,
)
    requires
        entries_well_formed(d),
        keys_sorted(acc + d),
        0 <= p,
        p + encode_entries(d).len() < data.len(),
        data.subrange(p, p + encode_entries(d).len()) == encode_entries(d),
        data[p + encode_entries(d).len()] == 101,
    ensures
        decode_dict(data, p, acc) == Ok::<(Seq<(Seq<char>, BValue)>, int), DecodeError>(
            (acc + d, p + encode_entries(d).len() + 1),
        ),
    decreases d,
{
    if d.len() == 0 {
        assert(acc + d =~= acc);
    } else {
        lemma_entries_well_formed(d);
        lemma_encode_entries_front(d);
        let k = d[0].0;
        let v = d[0].1;
        let kb = encode_utf8(k);
        let ke = encode_bytes(kb);
        let ve = encode_value(v);
        let rest = d.subrange(1, d.len() as int);
        let all = encode_entries(d);
        lemma_decimal(kb.len());
        assert(data[p] == all[0]);
        assert(all[0] == ke[0]);
        assert(data.subrange(p, p + ke.len()) =~= ke) by {
            assert forall|j: int| 0 <= j < ke.len() implies data.subrange(p, p + ke.len())[j]
                == ke[j] by {
                assert(data[p + j] == all[j]);
            }
        }
        lemma_decode_raw(kb, data, p + 1);
        let p2 = p + ke.len();
        assert(data.subrange(p2, p2 + ve.len()) =~= ve) by {
            assert forall|j: int| 0 <= j < ve.len() implies data.subrange(p2, p2 + ve.len())[j]
                == ve[j] by {
                assert(data[p2 + j] == all[ke.len() + j]);
            }
        }
        lemma_encode_first(v);
        lemma_decode_encoded(v, data, p2 + 1);
        let p3 = p2 + ve.len();
        assert(data.subrange(p3, p3 + encode_entries(rest).len()) =~= encode_entries(rest)) by {
            assert forall|j: int| 0 <= j < encode_entries(rest).len() implies data.subrange(
                p3,
                p3 + encode_entries(rest).len(),
            )[j] == encode_entries(rest)[j] by {
                assert(data[p3 + j] == all[ke.len() + ve.len() + j]);
            }
        }
        let ad = acc + d;
        assert(keys_sorted(acc)) by {
            assert forall|i: int, j: int| 0 <= i < j < acc.len() implies key_lt(
                #[trigger] acc[i].0,
                #[trigger] acc[j].0,
            ) by {
                assert(ad[i] == acc[i]);
                assert(ad[j] == acc[j]);
            }
        }
        assert forall|j: int| 0 <= j < acc.len() implies key_lt(#[trigger] acc[j].0, k) by {
            assert(ad[j] == acc[j]);
            assert(ad[acc.len() as int] == d[0]);
        }
        lemma_dict_insert_sorted(acc, k, v);
        assert(entries_well_formed(rest)) by {
            lemma_entries_well_formed(rest);
        }
        assert(acc.push((k, v)) + rest =~= acc + d);
        lemma_decode_entries(rest, data, p3, acc.push((k, v)));
        assert(decode_utf8(kb) == k);
        assert(dict_insert(acc, k, v) == acc.push((k, v)));
        assert(decode_body(data, p + 1) == Ok::<(BValue, int), DecodeError>((BValue::Raw(kb), p2)));
        assert(decode_at(data, p2) == Ok::<(BValue, int), DecodeError>((v, p3)));
        assert(p3 + encode_entries(rest).len() == p + all.len());
    }
}

/// Decoding the bencoding of a well-formed value gives the value back.
pub proof fn law_decode_encode(v: BValue)
    requires
        well_formed(v),
    ensures
        decode_value(encode_value(v)) == Ok::<BValue, DecodeError>(v),
{
    let e = encode_value(v);
    lemma_encode_first(v);
    assert(e.subrange(0, e.len() as int) =~= e);
    lemma_decode_encoded(v, e, 1);
}

/// Reading at the start of a value's bencoding, whatever comes before and
/// after it, reads exactly that value and stops where its bencoding ends.
pub proof fn law_decode_one_value(before: Seq<u8>, v: BValue, after: Seq<u8>)
    requires
        well_formed(v),
    ensures
        decode_at(before + encode_value(v) + after, before.len() as int) == Ok::<
            (BValue, int),
            DecodeError,
        >((v, (before.len() + encode_value(v).len()) as int)),
{
    let e = encode_value(v);
    let data = before + e + after;
    let q = before.len() as int + 1;
    lemma_encode_first(v);
    assert(data.subrange(q - 1, q - 1 + e.len()) =~= e);
    lemma_decode_encoded(v, data, q);
}

/// Inserting a well-formed entry keeps a dictionary's entries well formed.
pub proof fn lemma_dict_insert_well_formed(d: Seq<(Seq<char>, BValue)>, k: Seq<char>, v: BValue)
    requires
        entries_well_formed(d),
        encode_utf8(k).len() <= usize::MAX,
        well_formed(v),
    ensures
        entries_well_formed(dict_insert(d, k, v)),
{
    let r = dict_insert(d, k, v);
    lemma_entries_well_formed(d);
    lemma_entries_well_formed(r);
    assert forall|i: int| 0 <= i < r.len() implies encode_utf8(#[trigger] r[i].0).len()
        <= usize::MAX && well_formed(r[i].1) by {
        lemma_dict_insert_members(d, k, v, i);
        if r[i] != (k, v) {
            let m = choose|m: int| 0 <= m < d.len() && d[m] == r[i];
        }
    }
}

pub proof fn lemma_body_well_formed(data: Seq<u8>, q: int)
    ensures
        decode_body(data, q) matches Ok((v, _)) ==> well_formed(v),
    decreases data.len() - q, 1int,
{
    if 1 <= q <= data.len() {
        let c = data[q - 1];
        if c == 108 {
            lemma_list_well_formed(data, q, Seq::empty());
        } else if c == 100 {
            lemma_dict_well_formed(data, q, Seq::empty());
        } else if c != 105 {
            lemma_find_from(data, q, 58);
        }
    }
}

pub proof fn lemma_list_well_formed(data: Seq<u8>, p: int, acc: Seq<BValue>)
    requires
        items_well_formed(acc),
    ensures
        decode_list(data, p, acc) matches Ok((items, _)) ==> items_well_formed(items),
    decreases data.len() - p, 0int,
{
    if 0 <= p < data.len() && data[p] != 101 {
        lemma_body_well_formed(data, p + 1);
        if let Ok((v, p2)) = decode_body(data, p + 1) {
            if p < p2 <= data.len() {
                let t = acc.push(v);
                assert(t.subrange(0, t.len() - 1) =~= acc);
                lemma_list_well_formed(data, p2, t);
            }
        }
    }
}

pub proof fn lemma_dict_well_formed(data: Seq<u8>, p: int, acc: Seq<(Seq<char>, BValue)>)
    requires
        keys_sorted(acc),
        entries_well_formed(acc),
    ensures
        decode_dict(data, p, acc) matches Ok((d, _)) ==> keys_sorted(d) && entries_well_formed(d),
    decreases data.len() - p, 0int,
{
    if 0 <= p < data.len() && data[p] != 101 {
        lemma_body_well_formed(data, p + 1);
        if let Ok((key, p2)) = decode_body(data, p + 1) {
            if let BValue::Raw(kb) = key {
                if valid_utf8(kb) && p < p2 < data.len() {
                    lemma_body_well_formed(data, p2 + 1);
                    if let Ok((val, p3)) = decode_at(data, p2) {
                        if p < p3 <= data.len() {
                            let k = decode_utf8(kb);
                            assert(encode_utf8(k) == kb);
                            lemma_dict_insert_sorted(acc, k, val);
                            lemma_dict_insert_well_formed(acc, k, val);
                            lemma_dict_well_formed(data, p3, dict_insert(acc, k, val));
                        }
                    }
                }
            }
        }
    }
}

/// Whatever bytes decode to is well formed: in particular, the keys of every
/// decoded dictionary come in strictly increasing order, each once.
pub proof fn law_decoded_well_formed(data: Seq<u8>)
    ensures
        decode_value(data) matches Ok(v) ==> well_formed(v),
{
    if 0 < data.len() {
        lemma_body_well_formed(data, 1);
    }
}

/// The dictionary that inserting the entries one after the other builds.
pub open spec fn dict_from_entries(e: Seq<(Seq<char>, BValue)>) -> Seq<(Seq<char>, BValue)>
    decreases e.len(),
{
    if e.len() == 0 {
        Seq::empty()
    } else {
        dict_insert(dict_from_entries(e.drop_last()), e.last().0, e.last().1)
    }
}

} // verus!
