//! The first bencoding decoder of this project, which reads text: strings of
//! characters rather than bytes, lists that state their length (`l<n>:`), and
//! dictionaries whose keys are kept in the order they first appear.
use vstd::prelude::*;
use crate::text::{
    ascii_chars, chars_of, parse_i64, parse_signed, parse_u64, parse_unsigned, push_ascii,
    push_char, push_chars, push_signed_decimal, signed_decimal, str_equal, find_char, lemma_find_char,
};

verus! {

/// A decoded value.
#[derive(Debug, PartialEq)]
pub enum Bencoding {
    String(String),
    Integer(i64),
    List(Vec<Bencoding>),
    Dictionary(Dict),
}

/// The entries of a dictionary, each key once, in the order in which the keys
/// first appeared.
#[derive(Debug, PartialEq)]
pub struct Dict {
    entries: Vec<(String, Bencoding)>,
}

/// The mathematical value of a decoded value.
pub enum LValue {
    Str(Seq<char>),
    Integer(i64),
    List(Seq<LValue>),
    Dictionary(Seq<(Seq<char>, LValue)>),
}

/// Why text does not decode.
#[derive(Debug, Clone, Copy, PartialEq, Eq)]
pub enum DecodeError {
    /// A value was due where the text ends.
    CannotDecode,
    /// The delimiter that ends a number never comes.
    MissingDelimiter,
    /// The text between `i` and `e` is not an `i64`.
    InvalidInteger,
    /// The text before `:` is not a `u64`.
    InvalidLength,
    /// A list ends before the number of items that it states.
    ShortList,
    /// The text ends before the characters of a string do.
    ShortString,
    /// A dictionary key is not a string.
    KeyNotString,
    /// A dictionary key has no value.
    MissingValue,
}

impl Bencoding {
    pub open spec fn model(self) -> LValue
        decreases self,
    {
        match self {
            Bencoding::String(s) => LValue::Str(s@),
            Bencoding::Integer(i) => LValue::Integer(i),
            Bencoding::List(l) => LValue::List(items_model(l@)),
            Bencoding::Dictionary(d) => LValue::Dictionary(d.model()),
        }
    }
}

impl Dict {
    pub closed spec fn model(self) -> Seq<(Seq<char>, LValue)>
        decreases self,
    {
        entries_model(self.entries@)
    }
}

impl View for Bencoding {
    type V = LValue;

    open spec fn view(&self) -> LValue {
        self.model()
    }
}

impl View for Dict {
    type V = Seq<(Seq<char>, LValue)>;

    open spec fn view(&self) -> Seq<(Seq<char>, LValue)> {
        self.model()
    }
}

pub open spec fn items_model(l: Seq<Bencoding>) -> Seq<LValue>
    decreases l,
{
    if l.len() == 0 {
        Seq::empty()
    } else {
        items_model(l.subrange(0, l.len() - 1)).push(l[l.len() - 1].model())
    }
}

pub open spec fn entries_model(l: Seq<(String, Bencoding)>) -> Seq<(Seq<char>, LValue)>
    decreases l,
{
    if l.len() == 0 {
        Seq::empty()
    } else {
        entries_model(l.subrange(0, l.len() - 1)).push(
            (l[l.len() - 1].0@, l[l.len() - 1].1.model()),
        )
    }
}

pub proof fn lemma_items_model(l: Seq<Bencoding>)
    ensures
        items_model(l).len() == l.len(),
        forall|i: int| 0 <= i < l.len() ==> #[trigger] items_model(l)[i] == l[i].model(),
    decreases l.len(),
{
    if l.len() > 0 {
        lemma_items_model(l.subrange(0, l.len() - 1));
    }
}

pub proof fn lemma_entries_model(l: Seq<(String, Bencoding)>)
    ensures
        entries_model(l).len() == l.len(),
        forall|i: int|
            0 <= i < l.len() ==> #[trigger] entries_model(l)[i] == (l[i].0@, l[i].1.model()),
    decreases l.len(),
{
    if l.len() > 0 {
        lemma_entries_model(l.subrange(0, l.len() - 1));
    }
}

/// What `HashMap::insert` leaves, entries kept where their keys first came:
/// the value of `k` replaced, or a new entry at the end.
pub open spec fn dict_insert(d: Seq<(Seq<char>, LValue)>, k: Seq<char>, v: LValue) -> Seq<
    (Seq<char>, LValue),
>
    decreases d.len(),
{
    if d.len() == 0 {
        seq![(k, v)]
    } else if d[0].0 == k {
        seq![(k, v)] + d.drop_first()
    } else {
        seq![d[0]] + dict_insert(d.drop_first(), k, v)
    }
}

/// The value of the first entry whose key is `k`.
pub open spec fn dict_get(d: Seq<(Seq<char>, LValue)>, k: Seq<char>) -> Option<LValue>
    decreases d.len(),
{
    if d.len() == 0 {
        None
    } else if d[0].0 == k {
        Some(d[0].1)
    } else {
        dict_get(d.drop_first(), k)
    }
}

/// Each key once.
pub open spec fn keys_distinct(d: Seq<(Seq<char>, LValue)>) -> bool {
    forall|i: int, j: int| 0 <= i < j < d.len() ==> #[trigger] d[i].0 != #[trigger] d[j].0
}

proof fn lemma_dict_insert_skip(d: Seq<(Seq<char>, LValue)>, k: Seq<char>, v: LValue, i: int)
    requires
        0 <= i <= d.len(),
        forall|j: int| 0 <= j < i ==> #[trigger] d[j].0 != k,
    ensures
        dict_insert(d, k, v) == d.take(i) + dict_insert(d.skip(i), k, v),
        dict_get(d, k) == dict_get(d.skip(i), k),
    decreases i,
{
    if i == 0 {
        assert(d.skip(0) =~= d);
        assert(d.take(0) + dict_insert(d, k, v) =~= dict_insert(d, k, v));
    } else {
        lemma_dict_insert_skip(d.drop_first(), k, v, i - 1);
        assert(d.drop_first().skip(i - 1) =~= d.skip(i));
        assert(seq![d[0]] + (d.drop_first().take(i - 1) + dict_insert(d.skip(i), k, v)) =~= d.take(
            i,
        ) + dict_insert(d.skip(i), k, v));
    }
}

/// Inserting either replaces the entry of the key, the first, or appends a
/// new entry when no entry has the key.
proof fn lemma_dict_insert_shape(d: Seq<(Seq<char>, LValue)>, k: Seq<char>, v: LValue)
    ensures
        (exists|i: int|
            0 <= i < d.len() && #[trigger] d[i].0 == k && dict_insert(d, k, v) == d.update(
                i,
                (k, v),
            )) || ((forall|j: int| 0 <= j < d.len() ==> #[trigger] d[j].0 != k) && dict_insert(
            d,
            k,
            v,
        ) == d.push((k, v))),
    decreases d.len(),
{
    if d.len() == 0 {
        assert(seq![(k, v)] =~= d.push((k, v)));
    } else if d[0].0 == k {
        assert(seq![(k, v)] + d.drop_first() =~= d.update(0, (k, v)));
    } else {
        let rest = d.drop_first();
        lemma_dict_insert_shape(rest, k, v);
        if exists|i: int|
            0 <= i < rest.len() && #[trigger] rest[i].0 == k && dict_insert(rest, k, v)
                == rest.update(i, (k, v)) {
            let i = choose|i: int|
                0 <= i < rest.len() && #[trigger] rest[i].0 == k && dict_insert(rest, k, v)
                    == rest.update(i, (k, v));
            assert(seq![d[0]] + rest.update(i, (k, v)) =~= d.update(i + 1, (k, v)));
            assert(d[i + 1].0 == k);
        } else {
            assert(seq![d[0]] + rest.push((k, v)) =~= d.push((k, v)));
            assert forall|j: int| 0 <= j < d.len() implies #[trigger] d[j].0 != k by {
                if j > 0 {
                    assert(d[j] == rest[j - 1]);
                }
            }
        }
    }
}

/// Inserting keeps each key once.
proof fn lemma_dict_insert_keys_distinct(d: Seq<(Seq<char>, LValue)>, k: Seq<char>, v: LValue)
    requires
        keys_distinct(d),
    ensures
        keys_distinct(dict_insert(d, k, v)),
{
    lemma_dict_insert_shape(d, k, v);
}

/// Each dictionary of a value holds each key once, as a `HashMap` does.
pub open spec fn distinct_keys(v: LValue) -> bool
    decreases v,
{
    match v {
        LValue::List(l) => items_distinct(l),
        LValue::Dictionary(d) => keys_distinct(d) && entries_distinct(d),
        _ => true,
    }
}

pub open spec fn items_distinct(l: Seq<LValue>) -> bool
    decreases l,
{
    if l.len() == 0 {
        true
    } else {
        items_distinct(l.subrange(0, l.len() - 1)) && distinct_keys(l[l.len() - 1])
    }
}

pub open spec fn entries_distinct(d: Seq<(Seq<char>, LValue)>) -> bool
    decreases d,
{
    if d.len() == 0 {
        true
    } else {
        entries_distinct(d.subrange(0, d.len() - 1)) && distinct_keys(d[d.len() - 1].1)
    }
}

proof fn lemma_entries_distinct(d: Seq<(Seq<char>, LValue)>)
    ensures
        entries_distinct(d) <==> forall|i: int| 0 <= i < d.len() ==> distinct_keys(#[trigger] d[i].1),
    decreases d.len(),
{
    if d.len() > 0 {
        let t = d.subrange(0, d.len() - 1);
        lemma_entries_distinct(t);
        if forall|i: int| 0 <= i < d.len() ==> distinct_keys(#[trigger] d[i].1) {
            assert forall|i: int| 0 <= i < t.len() implies distinct_keys(#[trigger] t[i].1) by {
                assert(t[i] == d[i]);
            }
        }
        if entries_distinct(d) {
            assert forall|i: int| 0 <= i < d.len() implies distinct_keys(#[trigger] d[i].1) by {
                if i < d.len() - 1 {
                    assert(t[i] == d[i]);
                }
            }
        }
    }
}

/// Inserting an entry whose value holds each key once keeps a dictionary so.
proof fn lemma_dict_insert_distinct(d: Seq<(Seq<char>, LValue)>, k: Seq<char>, v: LValue)
    requires
        keys_distinct(d),
        entries_distinct(d),
        distinct_keys(v),
    ensures
        keys_distinct(dict_insert(d, k, v)),
        entries_distinct(dict_insert(d, k, v)),
{
    let r = dict_insert(d, k, v);
    lemma_dict_insert_shape(d, k, v);
    lemma_entries_distinct(d);
    lemma_entries_distinct(r);
    assert forall|i: int| 0 <= i < r.len() implies distinct_keys(#[trigger] r[i].1) by {
        if i < d.len() && r[i] == d[i] {
        }
    }
}

proof fn lemma_body_distinct(s: Seq<char>, q: int)
    ensures
        decode_body(s, q) matches Ok((Some(v), _)) ==> distinct_keys(v),
    decreases s.len() - q, 1int,
{
    if 1 <= q <= s.len() {
        let c = s[q - 1];
        if c == 'l' {
            if let Some((t, p1)) = read_until(s, q, ':') {
                if let Some(n) = parse_unsigned(text_bytes(t), u64::MAX as nat) {
                    if q < p1 <= s.len() {
                        lemma_items_distinct(s, p1, 0, n, Seq::empty());
                    }
                }
            }
        } else if c == 'd' {
            lemma_entries_distinct_decoded(s, q, Seq::empty());
        }
    }
}

proof fn lemma_items_distinct(s: Seq<char>, p: int, i: nat, n: nat, acc: Seq<LValue>)
    requires
        items_distinct(acc),
    ensures
        decode_items(s, p, i, n, acc) matches Ok((items, _)) ==> items_distinct(items),
    decreases s.len() - p, 0int,
{
    if i < n && 0 <= p < s.len() {
        lemma_body_distinct(s, p + 1);
        if let Ok((Some(v), p2)) = decode_body(s, p + 1) {
            if p < p2 <= s.len() {
                let t = acc.push(v);
                assert(t.subrange(0, t.len() - 1) =~= acc);
                lemma_items_distinct(s, p2, i + 1, n, t);
            }
        }
    }
}

proof fn lemma_entries_distinct_decoded(s: Seq<char>, p: int, acc: Seq<(Seq<char>, LValue)>)
    requires
        keys_distinct(acc),
        entries_distinct(acc),
    ensures
        decode_entries(s, p, acc) matches Ok((d, _)) ==> keys_distinct(d) && entries_distinct(d),
    decreases s.len() - p, 0int,
{
    if 0 <= p < s.len() {
        if let Ok((Some(LValue::Str(k)), p2)) = decode_body(s, p + 1) {
            if p < p2 <= s.len() {
                if 0 <= p2 < s.len() {
                    lemma_body_distinct(s, p2 + 1);
                }
                if let Ok((Some(v), p3)) = decode_at(s, p2) {
                    if p < p3 <= s.len() {
                        lemma_dict_insert_distinct(acc, k, v);
                        lemma_entries_distinct_decoded(s, p3, dict_insert(acc, k, v));
                    }
                }
            }
        }
    }
}

/// Every dictionary that text decodes to holds each key once: a key that
/// comes again replaces the value of the first.
pub proof fn law_decoded_keys_distinct(s: Seq<char>)
    ensures
        decode_text(s) matches Ok(Some(v)) ==> distinct_keys(v),
{
    if s.len() > 0 {
        lemma_body_distinct(s, 1);
    }
}

impl Dict {
    /// Each key once, as in a `HashMap`.
    #[verifier::type_invariant]
    pub closed spec fn wf(&self) -> bool {
        keys_distinct(self@)
    }

    /// An empty dictionary.
    pub fn new() -> (d: Dict)
        ensures
            d@ == Seq::<(Seq<char>, LValue)>::empty(),
    {
        let d = Dict { entries: Vec::new() };
        assert(d@ =~= Seq::<(Seq<char>, LValue)>::empty());
        d
    }

    /// The number of entries.
    pub fn len(&self) -> (n: usize)
        ensures
            n == self@.len(),
    {
        proof {
            lemma_entries_model(self.entries@);
        }
        self.entries.len()
    }

    /// The position of the entry whose key is `key`.
    fn find(&self, key: &str) -> (r: Option<usize>)
        ensures
            match r {
                Some(i) => i < self@.len() && self@[i as int].0 == key@ && forall|j: int|
                    0 <= j < i ==> #[trigger] self@[j].0 != key@,
                None => forall|j: int| 0 <= j < self@.len() ==> #[trigger] self@[j].0 != key@,
            },
    {
        proof {
            lemma_entries_model(self.entries@);
        }
        let mut i: usize = 0;
        while i < self.entries.len()
            invariant
                i <= self.entries@.len(),
                self@.len() == self.entries@.len(),
                forall|j: int|
                    0 <= j < self.entries@.len() ==> #[trigger] self@[j] == (
                        self.entries@[j].0@,
                        self.entries@[j].1.model(),
                    ),
                forall|j: int| 0 <= j < i ==> #[trigger] self@[j].0 != key@,
            decreases self.entries@.len() - i,
        {
            if str_equal(self.entries[i].0.as_str(), key) {
                return Some(i);
            }
            i = i + 1;
        }
        None
    }

    /// Inserts an entry, replacing the value of the same key where it stands.
    pub fn insert(&mut self, key: String, value: Bencoding)
        ensures
            final(self)@ == dict_insert(old(self)@, key@, value@),
    {
        proof {
            use_type_invariant(&*self);
            lemma_entries_model(self.entries@);
            lemma_dict_insert_keys_distinct(self@, key@, value@);
        }
        let ghost d = self@;
        let found = self.find(key.as_str());
        let mut entries: Vec<(String, Bencoding)> = Vec::new();
        std::mem::swap(&mut entries, &mut self.entries);
        match found {
            Some(i) => {
                proof {
                    lemma_dict_insert_skip(d, key@, value@, i as int);
                    assert(d.skip(i as int)[0] == d[i as int]);
                    assert(dict_insert(d.skip(i as int), key@, value@) == seq![(key@, value@)] + d.skip(
                        i as int,
                    ).drop_first());
                }
                entries.set(i, (key, value));
                proof {
                    lemma_entries_model(entries@);
                    assert(entries_model(entries@) =~= dict_insert(d, key@, value@));
                }
            },
            None => {
                proof {
                    lemma_dict_insert_skip(d, key@, value@, d.len() as int);
                    assert(d.skip(d.len() as int) =~= Seq::<(Seq<char>, LValue)>::empty());
                    assert(d.take(d.len() as int) =~= d);
                }
                entries.push((key, value));
                proof {
                    lemma_entries_model(entries@);
                    assert(entries_model(entries@) =~= d.push((key@, value@)));
                }
            },
        }
        self.entries = entries;
    }

    /// The value stored under `key`.
    pub fn get(&self, key: &str) -> (r: Option<&Bencoding>)
        ensures
            match r {
                Some(b) => dict_get(self@, key@) == Some(b@),
                None => dict_get(self@, key@) is None,
            },
    {
        proof {
            lemma_entries_model(self.entries@);
        }
        match self.find(key) {
            Some(i) => {
                proof {
                    lemma_dict_insert_skip(self@, key@, LValue::Integer(0), i as int);
                    assert(self@.skip(i as int)[0] == self@[i as int]);
                }
                Some(&self.entries[i].1)
            },
            None => {
                proof {
                    lemma_dict_insert_skip(self@, key@, LValue::Integer(0), self@.len() as int);
                }
                None
            },
        }
    }
}

// ---------------------------------------------------------------------------
// Display
// ---------------------------------------------------------------------------

/// How a value is shown: strings in quotes, integers in decimal, lists in
/// brackets and dictionaries in braces as `key: value`, parts separated by
/// spaces.
pub open spec fn display_text(v: LValue) -> Seq<char>
    decreases v,
{
    match v {
        LValue::Str(s) => seq!['"'] + s + seq!['"'],
        LValue::Integer(i) => ascii_chars(signed_decimal(i as int)),
        LValue::List(l) => seq!['['] + display_items(l) + seq![']'],
        LValue::Dictionary(d) => seq!['{'] + display_entries(d) + seq!['}'],
    }
}

pub open spec fn display_items(l: Seq<LValue>) -> Seq<char>
    decreases l,
{
    if l.len() == 0 {
        Seq::empty()
    } else if l.len() == 1 {
        display_text(l[0])
    } else {
        display_items(l.subrange(0, l.len() - 1)) + seq![' '] + display_text(l[l.len() - 1])
    }
}

/// The texts of a list's items are joined by exactly one space each:
/// cutting the items anywhere, the text is that of the first part, one
/// space, then that of the rest; in particular the last item comes after
/// one space.
pub proof fn law_display_items_join(l: Seq<LValue>, k: int)
    requires
        0 < k < l.len(),
    ensures
        display_items(l) == display_items(l.take(k)) + seq![' '] + display_items(l.skip(k)),
        display_items(l) == display_items(l.drop_last()) + seq![' '] + display_text(l.last()),
    decreases l.len(),
{
    let n = l.len();
    let p = l.subrange(0, n - 1);
    assert(l.drop_last() =~= p);
    let last = l.skip(n - 1);
    assert(last.len() == 1 && last[0] == l[n - 1]);
    assert(display_items(last) == display_text(l[n - 1]));
    if k == n - 1 {
        assert(l.take(k) =~= p);
    } else {
        law_display_items_join(p, k);
        assert(p.take(k) =~= l.take(k));
        let r = l.skip(k);
        assert(r.len() >= 2);
        assert(r.subrange(0, r.len() - 1) =~= p.skip(k));
        assert(r[r.len() - 1] == l[n - 1]);
        assert(display_items(r) == display_items(p.skip(k)) + seq![' '] + display_text(l[n - 1]));
        assert(display_items(l) =~= display_items(l.take(k)) + seq![' '] + display_items(r));
    }
}

pub open spec fn display_entries(d: Seq<(Seq<char>, LValue)>) -> Seq<char>
    decreases d,
{
    if d.len() == 0 {
        Seq::empty()
    } else if d.len() == 1 {
        d[0].0 + seq![':', ' '] + display_text(d[0].1)
    } else {
        display_entries(d.subrange(0, d.len() - 1)) + seq![' '] + d[d.len() - 1].0 + seq![':', ' ']
            + display_text(d[d.len() - 1].1)
    }
}

/// How one entry of a dictionary shows.
pub open spec fn entry_text(e: (Seq<char>, LValue)) -> Seq<char> {
    e.0 + seq![':', ' '] + display_text(e.1)
}

/// The texts of a dictionary's entries are joined by exactly one space each:
/// cutting the entries anywhere, the text is that of the first part, one
/// space, then that of the rest; a single entry shows as its key and value.
pub proof fn law_display_entries_join(d: Seq<(Seq<char>, LValue)>, k: int)
    requires
        0 < k < d.len(),
    ensures
        display_entries(d) == display_entries(d.take(k)) + seq![' '] + display_entries(d.skip(k)),
        display_entries(d) == display_entries(d.drop_last()) + seq![' '] + entry_text(d.last()),
        display_entries(d.take(1)) == entry_text(d[0]),
    decreases d.len(),
{
    let n = d.len();
    let p = d.subrange(0, n - 1);
    assert(d.drop_last() =~= p);
    let last = d.skip(n - 1);
    assert(last.len() == 1 && last[0] == d[n - 1]);
    assert(display_entries(last) =~= entry_text(d[n - 1]));
    assert(d.take(1).len() == 1 && d.take(1)[0] == d[0]);
    assert(display_entries(d.take(1)) =~= entry_text(d[0]));
    assert(display_entries(d) =~= display_entries(p) + seq![' '] + entry_text(d[n - 1]));
    if k == n - 1 {
        assert(d.take(k) =~= p);
    } else {
        law_display_entries_join(p, k);
        assert(p.take(k) =~= d.take(k));
        let r = d.skip(k);
        assert(r.len() >= 2);
        assert(r.subrange(0, r.len() - 1) =~= p.skip(k));
        assert(r[r.len() - 1] == d[n - 1]);
        assert(display_entries(r) =~= display_entries(p.skip(k)) + seq![' '] + entry_text(d[n - 1]));
        assert(display_entries(d) =~= display_entries(d.take(k)) + seq![' '] + display_entries(r));
    }
}

impl Bencoding {
    /// The text that shows this value (what the type's `Display` writes).
    pub fn to_display_string(&self) -> (r: String)
        ensures
            r@ == display_text(self@),
    {
        let mut out = String::new();
        self.display_into(&mut out);
        assert(out@ =~= display_text(self@));
        out
    }

    /// Appends the text that shows this value.
    pub fn display_into(&self, out: &mut String)
        ensures
            final(out)@ == old(out)@ + display_text(self@),
        decreases self,
    {
        match self {
            Bencoding::String(s) => {
                push_char(out, '"');
                let cs = chars_of(s.as_str());
                push_chars(out, cs.as_slice());
                push_char(out, '"');
                assert(out@ =~= old(out)@ + display_text(self@));
            },
            Bencoding::Integer(i) => {
                let mut digits: Vec<u8> = Vec::new();
                push_signed_decimal(&mut digits, *i);
                push_ascii(out, digits.as_slice());
                assert(digits@ =~= signed_decimal(*i as int));
            },
            Bencoding::List(l) => {
                push_char(out, '[');
                display_items_into(l, out);
                push_char(out, ']');
                assert(out@ =~= old(out)@ + display_text(self@));
            },
            Bencoding::Dictionary(d) => {
                push_char(out, '{');
                d.display_entries_into(out);
                push_char(out, '}');
                assert(out@ =~= old(out)@ + display_text(self@));
            },
        }
    }
}

/// Appends the texts of the items of a list, separated by spaces.
fn display_items_into(l: &Vec<Bencoding>, out: &mut String)
    ensures
        final(out)@ == old(out)@ + display_items(items_model(l@)),
    decreases l,
{
    let ghost start = out@;
    let mut i: usize = 0;
    assert(l@.take(0) =~= Seq::<Bencoding>::empty());
    while i < l.len()
        invariant
            i <= l@.len(),
            out@ == start + display_items(items_model(l@.take(i as int))),
        decreases l@.len() - i,
    {
        if i > 0 {
            push_char(out, ' ');
        }
        l[i].display_into(out);
        proof {
            let t = l@.take(i + 1);
            assert(t.subrange(0, t.len() - 1) =~= l@.take(i as int));
            lemma_items_model(t);
            assert(items_model(t).subrange(0, i as int) =~= items_model(l@.take(i as int)));
            if i == 0 {
                assert(display_items(items_model(l@.take(0))) =~= Seq::<char>::empty());
            }
        }
        i = i + 1;
        assert(out@ =~= start + display_items(items_model(l@.take(i as int))));
    }
    assert(l@.take(i as int) =~= l@);
}

impl Dict {
    /// Appends `key: value` for each entry, separated by spaces.
    fn display_entries_into(&self, out: &mut String)
        ensures
            final(out)@ == old(out)@ + display_entries(self@),
        decreases self,
    {
        let ghost start = out@;
        let mut i: usize = 0;
        assert(self.entries@.take(0) =~= Seq::<(String, Bencoding)>::empty());
        while i < self.entries.len()
            invariant
                i <= self.entries@.len(),
                out@ == start + display_entries(entries_model(self.entries@.take(i as int))),
            decreases self.entries@.len() - i,
        {
            if i > 0 {
                push_char(out, ' ');
            }
            let key = chars_of(self.entries[i].0.as_str());
            push_chars(out, key.as_slice());
            push_char(out, ':');
            push_char(out, ' ');
            self.entries[i].1.display_into(out);
            proof {
                let t = self.entries@.take(i + 1);
                assert(t.subrange(0, t.len() - 1) =~= self.entries@.take(i as int));
                lemma_entries_model(t);
                assert(entries_model(t).subrange(0, i as int) =~= entries_model(
                    self.entries@.take(i as int),
                ));
                if i == 0 {
                    assert(display_entries(entries_model(self.entries@.take(0)))
                        =~= Seq::<char>::empty());
                }
            }
            i = i + 1;
            assert(out@ =~= start + display_entries(entries_model(self.entries@.take(i as int))));
        }
        assert(self.entries@.take(i as int) =~= self.entries@);
    }
}

// ---------------------------------------------------------------------------
// Decoding
// ---------------------------------------------------------------------------

/// The byte that a character stands for when it is read as a digit or sign:
/// itself when ASCII, and otherwise a byte that is neither.
pub open spec fn char_byte(c: char) -> u8 {
    if (c as u32) < 128 {
        c as u8
    } else {
        255
    }
}

pub open spec fn text_bytes(cs: Seq<char>) -> Seq<u8> {
    cs.map_values(|c: char| char_byte(c))
}

/// What reading up to a delimiter from `q` yields, the way `read_util` reads:
/// the characters before the delimiter and the position after it, or nothing
/// when the text ends first.
pub open spec fn read_until(s: Seq<char>, q: int, delim: char) -> Option<(Seq<char>, int)> {
    let k = find_char(s, q, delim);
    if q <= k < s.len() {
        Some((s.subrange(q, k), k + 1))
    } else {
        None
    }
}

/// Where reading up to a delimiter from `q` stops: after the delimiter, or
/// at the end of the text when there is none.
pub open spec fn read_end(s: Seq<char>, q: int, delim: char) -> int {
    let k = find_char(s, q, delim);
    if q <= k < s.len() {
        k + 1
    } else {
        s.len() as int
    }
}

/// The value (`None` for the `e` that closes a list or dictionary) that
/// starts at `p`, and where it ends.
pub open spec fn decode_at(s: Seq<char>, p: int) -> Result<(Option<LValue>, int), DecodeError>
    decreases s.len() - p, 2int,
{
    if 0 <= p < s.len() {
        decode_body(s, p + 1)
    } else {
        Err(DecodeError::CannotDecode)
    }
}

/// The value whose first character is `s[q - 1]`, and where it ends.
pub open spec fn decode_body(s: Seq<char>, q: int) -> Result<(Option<LValue>, int), DecodeError>
    decreases s.len() - q, 1int,
{
    if q < 1 || q > s.len() {
        Err(DecodeError::CannotDecode)
    } else {
        let c = s[q - 1];
        if c == 'e' {
            Ok((None, q))
        } else if c == 'i' {
            match read_until(s, q, 'e') {
                None => Err(DecodeError::MissingDelimiter),
                Some((t, end)) => match parse_signed(text_bytes(t)) {
                    Some(i) => Ok((Some(LValue::Integer(i as i64)), end)),
                    None => Err(DecodeError::InvalidInteger),
                },
            }
        } else if c == 'l' {
            match read_until(s, q, ':') {
                None => Err(DecodeError::MissingDelimiter),
                Some((t, p1)) => match parse_unsigned(text_bytes(t), u64::MAX as nat) {
                    None => Err(DecodeError::InvalidLength),
                    Some(n) => if q < p1 <= s.len() {
                        match decode_items(s, p1, 0, n, Seq::empty()) {
                            Ok((items, end)) => Ok((Some(LValue::List(items)), end)),
                            Err(e) => Err(e),
                        }
                    } else {
                        Err(DecodeError::CannotDecode)
                    },
                },
            }
        } else if c == 'd' {
            match decode_entries(s, q, Seq::empty()) {
                Ok((d, end)) => Ok((Some(LValue::Dictionary(d)), end)),
                Err(e) => Err(e),
            }
        } else {
            match read_until(s, q, ':') {
                None => Err(DecodeError::MissingDelimiter),
                Some((t, p1)) => match parse_unsigned(text_bytes(seq![c] + t), u64::MAX as nat) {
                    None => Err(DecodeError::InvalidLength),
                    Some(n) => if p1 + n <= s.len() {
                        Ok((Some(LValue::Str(s.subrange(p1, p1 + n))), p1 + n))
                    } else {
                        Err(DecodeError::ShortString)
                    },
                },
            }
        }
    }
}

/// The items `i..n` of a list from `p` on, after those in `acc`; an `e` in
/// place of the last item ends the list early.
pub open spec fn decode_items(s: Seq<char>, p: int, i: nat, n: nat, acc: Seq<LValue>) -> Result<
    (Seq<LValue>, int),
    DecodeError,
>
    decreases s.len() - p, 0int,
{
    if i >= n {
        Ok((acc, p))
    } else if p < 0 || p >= s.len() {
        Err(DecodeError::CannotDecode)
    } else {
        match decode_body(s, p + 1) {
            Err(e) => Err(e),
            Ok((None, p2)) => if i + 1 == n {
                Ok((acc, p2))
            } else {
                Err(DecodeError::ShortList)
            },
            Ok((Some(v), p2)) => if p < p2 <= s.len() {
                decode_items(s, p2, i + 1, n, acc.push(v))
            } else {
                Err(DecodeError::CannotDecode)
            },
        }
    }
}

/// The entries of a dictionary from `p` on, inserted into `acc`, up to its `e`.
pub open spec fn decode_entries(s: Seq<char>, p: int, acc: Seq<(Seq<char>, LValue)>) -> Result<
    (Seq<(Seq<char>, LValue)>, int),
    DecodeError,
>
    decreases s.len() - p, 0int,
{
    if p < 0 || p >= s.len() {
        Err(DecodeError::CannotDecode)
    } else {
        match decode_body(s, p + 1) {
            Err(e) => Err(e),
            Ok((None, p2)) => Ok((acc, p2)),
            Ok((Some(key), p2)) => match key {
                LValue::Str(k) => if !(p < p2 <= s.len()) {
                    Err(DecodeError::CannotDecode)
                } else {
                    match decode_at(s, p2) {
                        Err(e) => Err(e),
                        Ok((None, _)) => Err(DecodeError::MissingValue),
                        Ok((Some(v), p3)) => if p < p3 <= s.len() {
                            decode_entries(s, p3, dict_insert(acc, k, v))
                        } else {
                            Err(DecodeError::CannotDecode)
                        },
                    }
                },
                _ => Err(DecodeError::KeyNotString),
            },
        }
    }
}

/// What text decodes to: a value, `None` when it starts with `e`; what follows
/// is ignored.
pub open spec fn decode_text(s: Seq<char>) -> Result<Option<LValue>, DecodeError> {
    match decode_at(s, 0) {
        Ok((v, _)) => Ok(v),
        Err(e) => Err(e),
    }
}

pub proof fn lemma_body_bounds(s: Seq<char>, q: int)
    requires
        1 <= q <= s.len(),
    ensures
        decode_body(s, q) matches Ok((_, e)) ==> q <= e <= s.len(),
    decreases s.len() - q, 1int,
{
    lemma_find_char(s, q, 'e');
    lemma_find_char(s, q, ':');
    if s[q - 1] == 'l' {
        if let Some((t, p1)) = read_until(s, q, ':') {
            if let Some(n) = parse_unsigned(text_bytes(t), u64::MAX as nat) {
                if q < p1 <= s.len() {
                    lemma_items_bounds(s, p1, 0, n, Seq::empty());
                }
            }
        }
    } else if s[q - 1] == 'd' {
        lemma_entries_bounds(s, q, Seq::empty());
    }
}

pub proof fn lemma_items_bounds(s: Seq<char>, p: int, i: nat, n: nat, acc: Seq<LValue>)
    requires
        0 <= p <= s.len(),
    ensures
        decode_items(s, p, i, n, acc) matches Ok((_, e)) ==> p <= e <= s.len(),
    decreases s.len() - p, 0int,
{
    if i < n && 0 <= p < s.len() {
        lemma_body_bounds(s, p + 1);
        if let Ok((Some(v), p2)) = decode_body(s, p + 1) {
            if p < p2 <= s.len() {
                lemma_items_bounds(s, p2, i + 1, n, acc.push(v));
            }
        }
    }
}

pub proof fn lemma_entries_bounds(s: Seq<char>, p: int, acc: Seq<(Seq<char>, LValue)>)
    requires
        0 <= p <= s.len(),
    ensures
        decode_entries(s, p, acc) matches Ok((_, e)) ==> p < e <= s.len(),
    decreases s.len() - p, 0int,
{
    if 0 <= p < s.len() {
        lemma_body_bounds(s, p + 1);
        if let Ok((Some(LValue::Str(k)), p2)) = decode_body(s, p + 1) {
            if p < p2 <= s.len() {
                if let Ok((Some(v), p3)) = decode_at(s, p2) {
                    if p < p3 <= s.len() {
                        lemma_entries_bounds(s, p3, dict_insert(acc, k, v));
                    }
                }
            }
        }
    }
}

/// The result of decoding as the library's value and where it ends.
pub open spec fn same_outcome(
    spec_r: Result<(Option<LValue>, int), DecodeError>,
    r: Result<(Option<Bencoding>, usize), DecodeError>,
) -> bool {
    match r {
        Ok((Some(b), end)) => spec_r == Ok::<(Option<LValue>, int), DecodeError>(
            (Some(b@), end as int),
        ),
        Ok((None, end)) => spec_r == Ok::<(Option<LValue>, int), DecodeError>((None, end as int)),
        Err(e) => spec_r == Err::<(Option<LValue>, int), DecodeError>(e),
    }
}

/// Reads up to a delimiter: the characters before it, when there is one,
/// and where reading stopped, after the delimiter or at the end of the text.
fn read_util(s: &[char], q: usize, delim: char) -> (r: (Option<Vec<char>>, usize))
    requires
        q <= s@.len(),
    ensures
        r.1 == read_end(s@, q as int, delim),
        match r.0 {
            Some(t) => read_until(s@, q as int, delim) == Some((t@, r.1 as int)),
            None => read_until(s@, q as int, delim) is None,
        },
{
    let mut i = q;
    let mut t: Vec<char> = Vec::new();
    while i < s.len()
        invariant
            q <= i <= s@.len(),
            find_char(s@, q as int, delim) == find_char(s@, i as int, delim),
            t@ == s@.subrange(q as int, i as int),
        decreases s@.len() - i,
    {
        if s[i] == delim {
            return (Some(t), i + 1);
        }
        t.push(s[i]);
        i = i + 1;
        assert(t@ =~= s@.subrange(q as int, i as int));
    }
    (None, s.len())
}

/// The bytes that characters stand for when read as a number.
fn char_bytes(t: &[char]) -> (r: Vec<u8>)
    ensures
        r@ == text_bytes(t@),
{
    let mut r: Vec<u8> = Vec::new();
    let mut i: usize = 0;
    while i < t.len()
        invariant
            i <= t@.len(),
            r@.len() == i,
            forall|j: int| 0 <= j < i ==> r@[j] == char_byte(#[trigger] t@[j]),
        decreases t@.len() - i,
    {
        let c = t[i];
        let b: u8 = if (c as u32) < 128 {
            c as u8
        } else {
            255
        };
        r.push(b);
        i = i + 1;
    }
    assert(r@ =~= text_bytes(t@));
    r
}

/// The bytes of a number's text: `first`, when given, then `t`.
fn number_bytes(first: Option<char>, t: &[char]) -> (r: Vec<u8>)
    ensures
        r@ == match first {
            Some(c) => text_bytes(seq![c] + t@),
            None => text_bytes(t@),
        },
{
    match first {
        Some(c) => {
            let mut all: Vec<char> = Vec::new();
            all.push(c);
            let mut i: usize = 0;
            while i < t.len()
                invariant
                    i <= t@.len(),
                    all@ == seq![c] + t@.take(i as int),
                decreases t@.len() - i,
            {
                all.push(t[i]);
                i = i + 1;
                assert(all@ =~= seq![c] + t@.take(i as int));
            }
            assert(t@.take(i as int) =~= t@);
            char_bytes(all.as_slice())
        },
        None => char_bytes(t),
    }
}

/// Copies `s[a..b]` into a string.
fn string_of(s: &[char], a: usize, b: usize) -> (r: String)
    requires
        a <= b <= s@.len(),
    ensures
        r@ == s@.subrange(a as int, b as int),
{
    let mut r = String::new();
    let mut i = a;
    while i < b
        invariant
            a <= i <= b,
            b <= s@.len(),
            r@ == s@.subrange(a as int, i as int),
        decreases b - i,
    {
        push_char(&mut r, s[i]);
        i = i + 1;
        assert(r@ =~= s@.subrange(a as int, i as int));
    }
    r
}

impl Bencoding {
    /// Decodes the value at the start of `input`: `None` when it starts with
    /// the `e` that closes a list or dictionary; what follows is ignored.
    pub fn decode(input: &str) -> (r: Result<Option<Bencoding>, DecodeError>)
        ensures
            match r {
                Ok(Some(b)) => decode_text(input@) == Ok::<Option<LValue>, DecodeError>(Some(b@)),
                Ok(None) => decode_text(input@) == Ok::<Option<LValue>, DecodeError>(None),
                Err(e) => decode_text(input@) == Err::<Option<LValue>, DecodeError>(e),
            },
    {
        match Self::decode_prefix(input) {
            Ok((v, _)) => Ok(v),
            Err(e) => Err(e),
        }
    }

    /// Decodes the value at the start of `input` and says where it ends, as a
    /// number of characters: the characters from there on are left unread.
    pub fn decode_prefix(input: &str) -> (r: Result<(Option<Bencoding>, usize), DecodeError>)
        ensures
            same_outcome(decode_at(input@, 0), r),
    {
        let s = chars_of(input);
        Self::decode_at(s.as_slice(), 0)
    }

    /// What the `decode` command prints for `input`: the text that shows the
    /// value it starts with, or `None` when it starts with an `e`.
    pub fn decode_command(input: &str) -> (r: Result<Option<String>, DecodeError>)
        ensures
            match decode_text(input@) {
                Ok(Some(v)) => r matches Ok(Some(t)) && t@ == display_text(v),
                Ok(None) => r matches Ok(None),
                Err(e) => r == Err::<Option<String>, DecodeError>(e),
            },
    {
        match Self::decode(input) {
            Ok(Some(v)) => Ok(Some(v.to_display_string())),
            Ok(None) => Ok(None),
            Err(e) => Err(e),
        }
    }

    fn decode_at(s: &[char], p: usize) -> (r: Result<(Option<Bencoding>, usize), DecodeError>)
        requires
            p <= s@.len(),
        ensures
            same_outcome(decode_at(s@, p as int), r),
        decreases s@.len() - p, 2int,
    {
        if p >= s.len() {
            return Err(DecodeError::CannotDecode);
        }
        Self::decode_body(s, p + 1)
    }

    fn decode_body(s: &[char], q: usize) -> (r: Result<(Option<Bencoding>, usize), DecodeError>)
        requires
            1 <= q <= s@.len(),
        ensures
            same_outcome(decode_body(s@, q as int), r),
        decreases s@.len() - q, 1int,
    {
        let c = s[q - 1];
        proof {
            lemma_find_char(s@, q as int, 'e');
            lemma_find_char(s@, q as int, ':');
        }
        if c == 'e' {
            Ok((None, q))
        } else if c == 'i' {
            match read_util(s, q, 'e') {
                (None, _) => Err(DecodeError::MissingDelimiter),
                (Some(t), end) => {
                    let b = number_bytes(None, t.as_slice());
                    match parse_i64(b.as_slice()) {
                        Some(i) => Ok((Some(Bencoding::Integer(i)), end)),
                        None => Err(DecodeError::InvalidInteger),
                    }
                },
            }
        } else if c == 'l' {
            match read_util(s, q, ':') {
                (None, _) => Err(DecodeError::MissingDelimiter),
                (Some(t), p1) => {
                    let b = number_bytes(None, t.as_slice());
                    match parse_u64(b.as_slice()) {
                        None => Err(DecodeError::InvalidLength),
                        Some(n) => match Self::decode_items(s, p1, n) {
                            Ok((items, end)) => Ok((Some(Bencoding::List(items)), end)),
                            Err(e) => Err(e),
                        },
                    }
                },
            }
        } else if c == 'd' {
            match Self::decode_entries(s, q) {
                Ok((d, end)) => Ok((Some(Bencoding::Dictionary(d)), end)),
                Err(e) => Err(e),
            }
        } else {
            match read_util(s, q, ':') {
                (None, _) => Err(DecodeError::MissingDelimiter),
                (Some(t), p1) => {
                    let b = number_bytes(Some(c), t.as_slice());
                    match parse_u64(b.as_slice()) {
                        None => Err(DecodeError::InvalidLength),
                        Some(n) => {
                            if n as u128 <= (s.len() - p1) as u128 {
                                let n = n as usize;
                                Ok((Some(Bencoding::String(string_of(s, p1, p1 + n))), p1 + n))
                            } else {
                                Err(DecodeError::ShortString)
                            }
                        },
                    }
                },
            }
        }
    }

    /// Decodes `n` items of a list from `p0` on.
    fn decode_items(s: &[char], p0: usize, n: u64) -> (r: Result<(Vec<Bencoding>, usize), DecodeError>)
        requires
            1 <= p0 <= s@.len(),
        ensures
            match r {
                Ok((items, end)) => decode_items(s@, p0 as int, 0, n as nat, Seq::empty()) == Ok::<
                    (Seq<LValue>, int),
                    DecodeError,
                >((items_model(items@), end as int)),
                Err(e) => decode_items(s@, p0 as int, 0, n as nat, Seq::empty()) == Err::<
                    (Seq<LValue>, int),
                    DecodeError,
                >(e),
            },
        decreases s@.len() - p0, 0int,
    {
        let mut items: Vec<Bencoding> = Vec::new();
        let mut p = p0;
        let mut i: u64 = 0;
        assert(items_model(items@) =~= Seq::<LValue>::empty());
        while i < n
            invariant
                p0 <= p <= s@.len(),
                i <= n,
                decode_items(s@, p0 as int, 0, n as nat, Seq::empty()) == decode_items(
                    s@,
                    p as int,
                    i as nat,
                    n as nat,
                    items_model(items@),
                ),
            decreases s@.len() - p, n - i,
        {
            if p >= s.len() {
                return Err(DecodeError::CannotDecode);
            }
            let ghost before = items@;
            match Self::decode_body(s, p + 1) {
                Err(e) => {
                    return Err(e);
                },
                Ok((None, p2)) => {
                    if i + 1 == n {
                        return Ok((items, p2));
                    } else {
                        return Err(DecodeError::ShortList);
                    }
                },
                Ok((Some(v), p2)) => {
                    proof {
                        lemma_body_bounds(s@, p + 1);
                    }
                    items.push(v);
                    proof {
                        let t = items@;
                        assert(t.subrange(0, t.len() - 1) =~= before);
                    }
                    p = p2;
                    i = i + 1;
                },
            }
        }
        Ok((items, p))
    }

    /// Decodes the entries of a dictionary from `p0` on, up to its `e`.
    fn decode_entries(s: &[char], p0: usize) -> (r: Result<(Dict, usize), DecodeError>)
        requires
            1 <= p0 <= s@.len(),
        ensures
            match r {
                Ok((d, end)) => decode_entries(s@, p0 as int, Seq::empty()) == Ok::<
                    (Seq<(Seq<char>, LValue)>, int),
                    DecodeError,
                >((d@, end as int)),
                Err(e) => decode_entries(s@, p0 as int, Seq::empty()) == Err::<
                    (Seq<(Seq<char>, LValue)>, int),
                    DecodeError,
                >(e),
            },
        decreases s@.len() - p0, 0int,
    {
        let mut d = Dict::new();
        let mut p = p0;
        loop
            invariant
                p0 <= p <= s@.len(),
                decode_entries(s@, p0 as int, Seq::empty()) == decode_entries(s@, p as int, d@),
            decreases s@.len() - p,
        {
            if p >= s.len() {
                return Err(DecodeError::CannotDecode);
            }
            match Self::decode_body(s, p + 1) {
                Err(e) => {
                    return Err(e);
                },
                Ok((None, p2)) => {
                    return Ok((d, p2));
                },
                Ok((Some(key), p2)) => {
                    proof {
                        lemma_body_bounds(s@, p + 1);
                    }
                    match key {
                        Bencoding::String(k) => {
                            match Self::decode_at(s, p2) {
                                Err(e) => {
                                    return Err(e);
                                },
                                Ok((None, _)) => {
                                    return Err(DecodeError::MissingValue);
                                },
                                Ok((Some(v), p3)) => {
                                    proof {
                                        lemma_body_bounds(s@, p2 + 1);
                                    }
                                    d.insert(k, v);
                                    p = p3;
                                },
                            }
                        },
                        _ => {
                            return Err(DecodeError::KeyNotString);
                        },
                    }
                },
            }
        }
    }
}

} // verus!
