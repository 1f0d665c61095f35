//! The names and references of the PDF object model (ISO 32000-2:2020,
//! clause 7.3).

use vstd::prelude::*;
use vstd::string::StringSliceAdditionalSpecFns;
use vstd::utf8::{decode_utf8, valid_utf8};

verus! {

/// A PDF name object, e.g. `/Type`. Stored without the leading slash and
/// with `#xx` escapes already decoded.
#[derive(Debug, Clone, PartialEq, Eq, PartialOrd, Ord, Hash)]
pub struct Name(
    /// Raw bytes of the name, without the leading `/`.
    pub Vec<u8>,
);

/// What `String::from_utf8_lossy` makes of `bytes`.
pub uninterp spec fn utf8_lossy(bytes: Seq<u8>) -> Seq<char>;

/// `String::from_utf8_lossy(bytes).into_owned()`. Trusted: the result is
/// `utf8_lossy(bytes)`, and, as the standard library documents, the
/// decoded text itself when `bytes` is valid UTF-8.
#[verifier::external_body]
pub(crate) fn lossy_string(bytes: &[u8]) -> (s: String)
    ensures
        s@ == utf8_lossy(bytes@),
        valid_utf8(bytes@) ==> s@ == decode_utf8(bytes@),
{
    String::from_utf8_lossy(bytes).into_owned()
}

impl Name {
    /// Build a name from a string slice: its UTF-8 bytes.
    pub fn new(s: &str) -> (n: Name)
        ensures
            n.0@ == s.spec_bytes(),
    {
        let bytes = s.as_bytes();
        let mut out: Vec<u8> = Vec::new();
        let mut k: usize = 0;
        while k < bytes.len()
            invariant
                k <= bytes@.len(),
                out@ == bytes@.take(k as int),
            decreases bytes@.len() - k,
        {
            out.push(bytes[k]);
            assert(bytes@.take(k + 1) =~= bytes@.take(k as int).push(bytes@[k as int]));
            k = k + 1;
        }
        assert(bytes@.take(bytes@.len() as int) =~= bytes@);
        Name(out)
    }

    /// Lossy UTF-8 view, for display and debugging.
    pub fn as_str_lossy(&self) -> (s: String)
        ensures
            s@ == utf8_lossy(self.0@),
            valid_utf8(self.0@) ==> s@ == decode_utf8(self.0@),
    {
        lossy_string(self.0.as_slice())
    }
}

/// Reference to an indirect object: `12 0 R`.
#[derive(Debug, Clone, Copy, PartialEq, Eq, Structural, PartialOrd, Ord, Hash)]
pub struct ObjRef {
    /// Object number.
    pub num: u32,
    /// Generation number.
    pub gen: u16,
}


/// The lexicographic order of byte strings: that of `Vec<u8>`, and so of
/// [`Name`].
pub open spec fn bytes_lt(a: Seq<u8>, b: Seq<u8>) -> bool
    decreases a.len(),
{
    if b.len() == 0 {
        false
    } else if a.len() == 0 {
        true
    } else if a[0] != b[0] {
        a[0] < b[0]
    } else {
        bytes_lt(a.drop_first(), b.drop_first())
    }
}

pub proof fn lemma_bytes_lt_irreflexive(a: Seq<u8>)
    ensures
        !bytes_lt(a, a),
    decreases a.len(),
{
    if a.len() > 0 {
        lemma_bytes_lt_irreflexive(a.drop_first());
    }
}

pub proof fn lemma_bytes_lt_transitive(a: Seq<u8>, b: Seq<u8>, c: Seq<u8>)
    requires
        bytes_lt(a, b),
        bytes_lt(b, c),
    ensures
        bytes_lt(a, c),
    decreases a.len(),
{
    if a.len() > 0 && a[0] == b[0] && b[0] == c[0] {
        lemma_bytes_lt_transitive(a.drop_first(), b.drop_first(), c.drop_first());
    }
}

/// Two byte strings are equal or one comes before the other, not both.
pub proof fn lemma_bytes_lt_total(a: Seq<u8>, b: Seq<u8>)
    ensures
        a == b || bytes_lt(a, b) || bytes_lt(b, a),
        !(bytes_lt(a, b) && bytes_lt(b, a)),
    decreases a.len(),
{
    if a.len() == 0 && b.len() == 0 {
        assert(a =~= b);
    } else if a.len() > 0 && b.len() > 0 && a[0] == b[0] {
        lemma_bytes_lt_total(a.drop_first(), b.drop_first());
        if a.drop_first() == b.drop_first() {
            assert(a =~= seq![a[0]] + a.drop_first());
            assert(b =~= seq![b[0]] + b.drop_first());
        }
    }
}

proof fn lemma_bytes_lt_skip(a: Seq<u8>, b: Seq<u8>, i: int)
    requires
        0 <= i <= a.len(),
        i <= b.len(),
        a.take(i) == b.take(i),
    ensures
        bytes_lt(a, b) == bytes_lt(a.skip(i), b.skip(i)),
    decreases i,
{
    if i > 0 {
        assert(a[0] == a.take(i)[0]);
        assert(b[0] == b.take(i)[0]);
        assert(a.drop_first().take(i - 1) =~= a.take(i).drop_first());
        assert(b.drop_first().take(i - 1) =~= b.take(i).drop_first());
        lemma_bytes_lt_skip(a.drop_first(), b.drop_first(), i - 1);
        assert(a.drop_first().skip(i - 1) =~= a.skip(i));
        assert(b.drop_first().skip(i - 1) =~= b.skip(i));
    } else {
        assert(a.skip(0) =~= a);
        assert(b.skip(0) =~= b);
    }
}

/// Where `a` stands against `b` in [`bytes_lt`] order.
pub enum KeyOrder {
    Before,
    Same,
    After,
}

/// Compare two byte strings in lexicographic order.
pub fn compare_bytes(a: &[u8], b: &[u8]) -> (r: KeyOrder)
    ensures
        r is Before <==> bytes_lt(a@, b@),
        r is Same <==> a@ == b@,
        r is After <==> bytes_lt(b@, a@),
{
    proof {
        lemma_bytes_lt_total(a@, b@);
        lemma_bytes_lt_irreflexive(a@);
    }
    let mut i: usize = 0;
    while i < a.len() && i < b.len()
        invariant
            i <= a@.len(),
            i <= b@.len(),
            a@.take(i as int) == b@.take(i as int),
        decreases a@.len() - i,
    {
        if a[i] != b[i] {
            proof {
                lemma_bytes_lt_skip(a@, b@, i as int);
                lemma_bytes_lt_skip(b@, a@, i as int);
                assert(a@.skip(i as int)[0] == a@[i as int]);
                assert(b@.skip(i as int)[0] == b@[i as int]);
            }
            if a[i] < b[i] {
                return KeyOrder::Before;
            } else {
                return KeyOrder::After;
            }
        }
        assert(a@.take(i + 1) =~= a@.take(i as int).push(a@[i as int]));
        assert(b@.take(i + 1) =~= b@.take(i as int).push(b@[i as int]));
        i = i + 1;
    }
    proof {
        lemma_bytes_lt_skip(a@, b@, i as int);
        lemma_bytes_lt_skip(b@, a@, i as int);
    }
    if a.len() == b.len() {
        assert(a@ =~= a@.take(i as int));
        assert(b@ =~= b@.take(i as int));
        KeyOrder::Same
    } else if a.len() < b.len() {
        KeyOrder::Before
    } else {
        KeyOrder::After
    }
}

/// A PDF dictionary (ISO 32000-2, 7.3.7): entries kept in the order of
/// their keys, each key once, so that output is deterministic.
#[derive(Debug, PartialEq)]
pub struct Dict {
    entries: Vec<(Name, Object)>,
}

/// Any direct PDF object (ISO 32000-2, 7.3).
#[derive(Debug, PartialEq)]
pub enum Object {
    /// The `null` object.
    Null,
    /// `true` / `false`.
    Bool(bool),
    /// Integer number.
    Integer(i64),
    /// Real number, as the decimal text its value reads from: an optional
    /// `-`, then digits with at most one `.` (see [`crate::lexer::Token::Real`]).
    Real(Vec<u8>),
    /// Literal `(...)` or hexadecimal `<...>` string, raw bytes after unescaping.
    String(Vec<u8>),
    /// Name object.
    Name(Name),
    /// Array of objects.
    Array(Vec<Object>),
    /// Dictionary.
    Dict(Dict),
    /// Stream: dictionary plus raw (still encoded) data.
    Stream {
        /// Stream dictionary (`/Length`, `/Filter`, ...).
        dict: Dict,
        /// Raw bytes as found in the file, filters not yet applied.
        data: Vec<u8>,
    },
    /// Indirect reference.
    Reference(ObjRef),
}

/// An object as a mathematical value: byte strings as sequences, a
/// dictionary as its entries in key order.
pub enum ObjectView {
    Null,
    Bool(bool),
    Integer(i64),
    Real(Seq<u8>),
    String(Seq<u8>),
    Name(Seq<u8>),
    Array(Seq<ObjectView>),
    Dict(Seq<(Seq<u8>, ObjectView)>),
    Stream(Seq<(Seq<u8>, ObjectView)>, Seq<u8>),
    Reference(ObjRef),
}

/// The value of an object.
pub open spec fn object_view(o: Object) -> ObjectView
    decreases o,
{
    match o {
        Object::Null => ObjectView::Null,
        Object::Bool(b) => ObjectView::Bool(b),
        Object::Integer(i) => ObjectView::Integer(i),
        Object::Real(t) => ObjectView::Real(t@),
        Object::String(s) => ObjectView::String(s@),
        Object::Name(n) => ObjectView::Name(n.0@),
        Object::Array(items) => ObjectView::Array(items_view(items@)),
        Object::Dict(d) => ObjectView::Dict(dict_view(d)),
        Object::Stream { dict, data } => ObjectView::Stream(dict_view(dict), data@),
        Object::Reference(r) => ObjectView::Reference(r),
    }
}

/// The entries of a dictionary, in key order.
pub closed spec fn dict_view(d: Dict) -> Seq<(Seq<u8>, ObjectView)>
    decreases d,
{
    entries_view(d.entries@)
}

/// The values of a run of objects.
pub open spec fn items_view(s: Seq<Object>) -> Seq<ObjectView>
    decreases s,
{
    if s.len() == 0 {
        Seq::empty()
    } else {
        items_view(s.subrange(0, s.len() - 1)).push(object_view(s[s.len() - 1]))
    }
}

/// The values of a run of dictionary entries.
pub open spec fn entries_view(s: Seq<(Name, Object)>) -> Seq<(Seq<u8>, ObjectView)>
    decreases s,
{
    if s.len() == 0 {
        Seq::empty()
    } else {
        entries_view(s.subrange(0, s.len() - 1)).push(
            (s[s.len() - 1].0.0@, object_view(s[s.len() - 1].1)),
        )
    }
}

pub proof fn lemma_items_view(s: Seq<Object>)
    ensures
        items_view(s).len() == s.len(),
        forall|i: int| 0 <= i < s.len() ==> #[trigger] items_view(s)[i] == object_view(s[i]),
    decreases s.len(),
{
    if s.len() > 0 {
        lemma_items_view(s.subrange(0, s.len() - 1));
    }
}

pub proof fn lemma_entries_view(s: Seq<(Name, Object)>)
    ensures
        entries_view(s).len() == s.len(),
        forall|i: int|
            0 <= i < s.len() ==> #[trigger] entries_view(s)[i] == (s[i].0.0@, object_view(s[i].1)),
    decreases s.len(),
{
    if s.len() > 0 {
        lemma_entries_view(s.subrange(0, s.len() - 1));
    }
}

/// A dictionary's value is its entries' values.
pub proof fn lemma_entry_seq(d: &Dict)
    ensures
        entries_view(d.entry_seq()) == d@,
        d.entry_seq().len() == d@.len(),
        forall|i: int| 0 <= i < d@.len() ==> #[trigger] d@[i] == (d.entry_seq()[i].0.0@, d.entry_seq()[i].1@),
{
    lemma_entries_view(d.entries@);
}

/// A dictionary is larger than each of its values.
pub proof fn lemma_entry_decreases(d: &Dict, k: int)
    requires
        0 <= k < d.entry_seq().len(),
    ensures
        decreases_to!(*d => d.entry_seq()[k].1),
{
    assert(decreases_to!(d.entries@ => d.entries@[k])) by {
        broadcast use vstd::seq::axiom_seq_index_decreases;
    }
    assert(decreases_to!(*d => d.entries));
}

impl View for Dict {
    type V = Seq<(Seq<u8>, ObjectView)>;

    open spec fn view(&self) -> Seq<(Seq<u8>, ObjectView)> {
        dict_view(*self)
    }
}

impl View for Object {
    type V = ObjectView;

    open spec fn view(&self) -> ObjectView {
        object_view(*self)
    }
}

/// Keys in strictly increasing order, so each at most once.
pub open spec fn keys_sorted(d: Seq<(Seq<u8>, ObjectView)>) -> bool {
    forall|i: int, j: int| 0 <= i < j < d.len() ==> bytes_lt(#[trigger] d[i].0, #[trigger] d[j].0)
}

/// Where the first entry with `key` stands; the length when there is none.
pub open spec fn key_position(d: Seq<(Seq<u8>, ObjectView)>, key: Seq<u8>) -> int
    decreases d.len(),
{
    if d.len() == 0 {
        0
    } else if d[0].0 == key {
        0
    } else {
        1 + key_position(d.drop_first(), key)
    }
}

/// The value under `key`, if the dictionary has that key.
pub open spec fn dict_get(d: Seq<(Seq<u8>, ObjectView)>, key: Seq<u8>) -> Option<ObjectView> {
    let i = key_position(d, key);
    if i < d.len() {
        Some(d[i].1)
    } else {
        None
    }
}

/// How many keys come before `key`.
pub open spec fn rank(d: Seq<(Seq<u8>, ObjectView)>, key: Seq<u8>) -> int
    decreases d.len(),
{
    if d.len() == 0 {
        0
    } else if bytes_lt(d[0].0, key) {
        1 + rank(d.drop_first(), key)
    } else {
        0
    }
}

/// `d` with `key` set to `value`: the entry replaced where the key is
/// present, else inserted in key order.
pub open spec fn dict_insert(d: Seq<(Seq<u8>, ObjectView)>, key: Seq<u8>, value: ObjectView) -> Seq<(Seq<u8>, ObjectView)> {
    let i = rank(d, key);
    if i < d.len() && d[i].0 == key {
        d.update(i, (key, value))
    } else {
        d.insert(i, (key, value))
    }
}

/// `d` without the entry of `key`.
pub open spec fn dict_remove(d: Seq<(Seq<u8>, ObjectView)>, key: Seq<u8>) -> Seq<(Seq<u8>, ObjectView)> {
    let i = key_position(d, key);
    if i < d.len() {
        d.remove(i)
    } else {
        d
    }
}

/// `d` with the value of the entry of `key` set to `value`, where there
/// is one; unchanged otherwise.
pub open spec fn dict_replace(d: Seq<(Seq<u8>, ObjectView)>, key: Seq<u8>, value: ObjectView) -> Seq<(Seq<u8>, ObjectView)> {
    let i = key_position(d, key);
    if i < d.len() {
        d.update(i, (key, value))
    } else {
        d
    }
}

pub proof fn lemma_key_position(d: Seq<(Seq<u8>, ObjectView)>, key: Seq<u8>)
    ensures
        0 <= key_position(d, key) <= d.len(),
        key_position(d, key) < d.len() ==> d[key_position(d, key)].0 == key,
        forall|j: int| 0 <= j < key_position(d, key) ==> d[j].0 != key,
    decreases d.len(),
{
    if d.len() > 0 && d[0].0 != key {
        lemma_key_position(d.drop_first(), key);
        let t = d.drop_first();
        assert forall|j: int| 0 <= j < key_position(d, key) implies d[j].0 != key by {
            if j > 0 {
                assert(d[j] == t[j - 1]);
            }
        }
    }
}

/// The first entry with `key` stands where it stands in `d` as in a
/// sequence that agrees with `d` up to there.
pub(crate) proof fn lemma_key_position_found(d: Seq<(Seq<u8>, ObjectView)>, key: Seq<u8>, i: int)
    requires
        0 <= i <= d.len(),
        forall|j: int| 0 <= j < i ==> d[j].0 != key,
        i < d.len() ==> d[i].0 == key,
    ensures
        key_position(d, key) == i,
    decreases i,
{
    if i > 0 {
        lemma_key_position_found(d.drop_first(), key, i - 1);
    }
}

pub proof fn lemma_rank(d: Seq<(Seq<u8>, ObjectView)>, key: Seq<u8>)
    ensures
        0 <= rank(d, key) <= d.len(),
        forall|j: int| 0 <= j < rank(d, key) ==> bytes_lt(#[trigger] d[j].0, key),
        rank(d, key) < d.len() ==> !bytes_lt(d[rank(d, key)].0, key),
    decreases d.len(),
{
    if d.len() > 0 && bytes_lt(d[0].0, key) {
        lemma_rank(d.drop_first(), key);
        let t = d.drop_first();
        assert forall|j: int| 0 <= j < rank(d, key) implies bytes_lt(#[trigger] d[j].0, key) by {
            if j > 0 {
                assert(d[j] == t[j - 1]);
            }
        }
    }
}

proof fn lemma_rank_found(d: Seq<(Seq<u8>, ObjectView)>, key: Seq<u8>, i: int)
    requires
        0 <= i <= d.len(),
        forall|j: int| 0 <= j < i ==> bytes_lt(#[trigger] d[j].0, key),
        i < d.len() ==> !bytes_lt(d[i].0, key),
    ensures
        rank(d, key) == i,
    decreases i,
{
    if i > 0 {
        let t = d.drop_first();
        assert forall|j: int| 0 <= j < i - 1 implies bytes_lt(#[trigger] t[j].0, key) by {
            assert(t[j] == d[j + 1]);
        }
        lemma_rank_found(t, key, i - 1);
    }
}

/// Removing a key: the key is gone, every other key keeps its value, and
/// the keys stay in order.
pub proof fn law_get_after_remove(d: Seq<(Seq<u8>, ObjectView)>, key: Seq<u8>, other: Seq<u8>)
    requires
        keys_sorted(d),
    ensures
        dict_get(dict_remove(d, key), key) is None,
        other != key ==> dict_get(dict_remove(d, key), other) == dict_get(d, other),
        keys_sorted(dict_remove(d, key)),
{
    lemma_key_position(d, key);
    let i = key_position(d, key);
    let r = dict_remove(d, key);
    if i < d.len() {
        assert forall|a: int, b: int| 0 <= a < b < r.len() implies bytes_lt(#[trigger] r[a].0, #[trigger] r[b].0) by {
            let a2 = if a < i { a } else { a + 1 };
            let b2 = if b < i { b } else { b + 1 };
            assert(r[a] == d[a2]);
            assert(r[b] == d[b2]);
        }
        // The key stood once: every other entry differs from it.
        assert forall|j: int| 0 <= j < r.len() implies r[j].0 != key by {
            let j2 = if j < i { j } else { j + 1 };
            assert(r[j] == d[j2]);
            if j2 < i {
            } else {
                assert(bytes_lt(d[i].0, d[j2].0));
                lemma_bytes_lt_irreflexive(key);
            }
        }
        lemma_key_position_found(r, key, r.len() as int);
        if other != key {
            lemma_key_position(d, other);
            let p = key_position(d, other);
            if p < i {
                assert forall|j: int| 0 <= j < p implies r[j].0 != other by {
                    assert(r[j] == d[j]);
                }
                assert(r[p] == d[p]);
                lemma_key_position_found(r, other, p);
            } else if p == d.len() {
                assert forall|j: int| 0 <= j < r.len() implies r[j].0 != other by {
                    let j2 = if j < i { j } else { j + 1 };
                    assert(r[j] == d[j2]);
                }
                lemma_key_position_found(r, other, r.len() as int);
            } else {
                assert(p > i);
                assert forall|j: int| 0 <= j < p - 1 implies r[j].0 != other by {
                    let j2 = if j < i { j } else { j + 1 };
                    assert(r[j] == d[j2]);
                }
                assert(r[p - 1] == d[p]);
                lemma_key_position_found(r, other, p - 1);
            }
        }
    }
}

/// Setting a key keeps the keys in order.
pub proof fn law_insert_keeps_keys_sorted(d: Seq<(Seq<u8>, ObjectView)>, key: Seq<u8>, value: ObjectView)
    requires
        keys_sorted(d),
    ensures
        keys_sorted(dict_insert(d, key, value)),
{
    lemma_rank(d, key);
    let i = rank(d, key);
    let r = dict_insert(d, key, value);
    if i < d.len() && d[i].0 == key {
        assert forall|a: int, b: int| 0 <= a < b < r.len() implies bytes_lt(#[trigger] r[a].0, #[trigger] r[b].0) by {
            assert(r[a].0 == d[a].0 && r[b].0 == d[b].0);
        }
    } else {
        if i < d.len() {
            lemma_bytes_lt_total(d[i].0, key);
        }
        assert forall|a: int, b: int| 0 <= a < b < r.len() implies bytes_lt(#[trigger] r[a].0, #[trigger] r[b].0) by {
            if a < i && b == i {
            } else if a < i && b > i {
                if b - 1 > i {
                    lemma_bytes_lt_transitive(key, d[i].0, d[b - 1].0);
                }
                lemma_bytes_lt_transitive(d[a].0, key, d[b - 1].0);
            } else if a == i {
                if b - 1 > i {
                    lemma_bytes_lt_transitive(key, d[i].0, d[b - 1].0);
                }
            } else if a > i {
                assert(r[a] == d[a - 1] && r[b] == d[b - 1]);
            }
        }
    }
}

/// After setting `key` to `value`, reading `key` gives `value`, and every
/// other key reads as before.
pub proof fn law_get_after_insert(d: Seq<(Seq<u8>, ObjectView)>, key: Seq<u8>, value: ObjectView, other: Seq<u8>)
    requires
        keys_sorted(d),
    ensures
        dict_get(dict_insert(d, key, value), key) == Some(value),
        other != key ==> dict_get(dict_insert(d, key, value), other) == dict_get(d, other),
{
    lemma_rank(d, key);
    lemma_key_position(d, key);
    lemma_key_position(d, other);
    let i = rank(d, key);
    let r = dict_insert(d, key, value);
    if i < d.len() && d[i].0 == key {
        // the key is present: every entry before it differs from it
        assert forall|j: int| 0 <= j < i implies r[j].0 != key by {
            lemma_bytes_lt_irreflexive(key);
        }
        lemma_key_position_found(r, key, i);
        if other != key {
            let p = key_position(d, other);
            assert forall|j: int| 0 <= j < p implies r[j].0 != other by {
                if j == i {
                } else {
                    assert(r[j] == d[j]);
                }
            }
            if p < d.len() {
                assert(r[p] == d[p]);
            }
            lemma_key_position_found(r, other, p);
        }
    } else {
        if i < d.len() {
            lemma_bytes_lt_total(d[i].0, key);
        }
        assert forall|j: int| 0 <= j < i implies r[j].0 != key by {
            lemma_bytes_lt_irreflexive(key);
        }
        lemma_key_position_found(r, key, i);
        if other != key {
            let p = key_position(d, other);
            if p < i {
                assert forall|j: int| 0 <= j < p implies r[j].0 != other by {
                    assert(r[j] == d[j]);
                }
                assert(r[p] == d[p]);
                lemma_key_position_found(r, other, p);
            } else {
                // no entry before the new one has `other`, nor the new one
                assert forall|j: int| 0 <= j < p + 1 implies r[j].0 != other by {
                    if j < i {
                        assert(r[j] == d[j]);
                    } else if j > i {
                        assert(r[j] == d[j - 1]);
                    }
                }
                if p < d.len() {
                    assert(r[p + 1] == d[p]);
                }
                lemma_key_position_found(r, other, p + 1);
            }
        }
    }
}

/// A copy of an object, built entry by entry.
pub fn copy_object(o: &Object) -> (r: Object)
    ensures
        r@ == o@,
    decreases o,
{
    match o {
        Object::Null => Object::Null,
        Object::Bool(b) => Object::Bool(*b),
        Object::Integer(i) => Object::Integer(*i),
        Object::Real(t) => Object::Real(t.clone()),
        Object::String(t) => Object::String(t.clone()),
        Object::Name(n) => Object::Name(Name(n.0.clone())),
        Object::Array(items) => {
            let mut out: Vec<Object> = Vec::new();
            let mut k: usize = 0;
            while k < items.len()
                invariant
                    *o == Object::Array(*items),
                    k <= items@.len(),
                    out@.len() == k,
                    forall|j: int| 0 <= j < k ==> #[trigger] out@[j]@ == items@[j]@,
                decreases items@.len() - k,
            {
                proof {
                    assert(decreases_to!(items@ => items@[k as int])) by {
                        broadcast use vstd::seq::axiom_seq_index_decreases;
                    }
                    assert(decreases_to!(*items => items@));
                    assert(decreases_to!(*o => (*o)->Array_0));
                    assert(decreases_to!(*o => items@[k as int]));
                }
                out.push(copy_object(&items[k]));
                k = k + 1;
            }
            proof {
                lemma_items_view(out@);
                lemma_items_view(items@);
                assert forall|j: int| 0 <= j < out@.len() implies items_view(out@)[j] == items_view(items@)[j] by {
                    assert(out@[j]@ == items@[j]@);
                }
                assert(items_view(out@) =~= items_view(items@));
            }
            Object::Array(out)
        },
        Object::Dict(d) => Object::Dict(copy_dict(d)),
        Object::Stream { dict, data } => Object::Stream { dict: copy_dict(dict), data: data.clone() },
        Object::Reference(r) => Object::Reference(*r),
    }
}

/// A copy of a dictionary.
pub fn copy_dict(d: &Dict) -> (r: Dict)
    ensures
        r@ == d@,
    decreases d,
{
    let mut out: Vec<(Name, Object)> = Vec::new();
    let mut k: usize = 0;
    while k < d.entries.len()
        invariant
            k <= d.entries@.len(),
            out@.len() == k,
            forall|j: int| 0 <= j < k ==> (#[trigger] out@[j]).0.0@ == d.entries@[j].0.0@ && out@[j].1@ == d.entries@[j].1@,
        decreases d.entries@.len() - k,
    {
        let entry = &d.entries[k];
        proof {
            assert(decreases_to!(d.entries@ => d.entries@[k as int])) by {
                broadcast use vstd::seq::axiom_seq_index_decreases;
            }
        }
        let value = copy_object(&entry.1);
        out.push((Name(entry.0.0.clone()), value));
        k = k + 1;
    }
    proof {
        use_type_invariant(d);
        lemma_entries_view(out@);
        lemma_entries_view(d.entries@);
        assert(entries_view(out@) =~= entries_view(d.entries@));
    }
    Dict { entries: out }
}

impl Clone for Object {
    fn clone(&self) -> (r: Object)
        ensures
            r@ == self@,
    {
        copy_object(self)
    }
}

impl Clone for Dict {
    fn clone(&self) -> (r: Dict)
        ensures
            r@ == self@,
    {
        copy_dict(self)
    }
}

impl Dict {
    /// Every key comes once, the keys in increasing order.
    #[verifier::type_invariant]
    pub closed spec fn keys_in_order(self) -> bool {
        keys_sorted(entries_view(self.entries@))
    }

    /// What the invariant of a dictionary says: its keys are in increasing
    /// order, so each comes once.
    pub proof fn lemma_keys_in_order(d: Dict)
        requires
            d.keys_in_order(),
        ensures
            keys_sorted(d@),
    {
    }

    /// An empty dictionary.
    pub fn new() -> (d: Dict)
        ensures
            d@ == Seq::<(Seq<u8>, ObjectView)>::empty(),
    {
        Dict { entries: Vec::new() }
    }

    /// Number of entries.
    pub fn len(&self) -> (n: usize)
        ensures
            n == self@.len(),
    {
        proof { lemma_entries_view(self.entries@); }
        self.entries.len()
    }

    /// Whether the dictionary has no entry.
    pub fn is_empty(&self) -> (b: bool)
        ensures
            b == (self@.len() == 0),
    {
        proof { lemma_entries_view(self.entries@); }
        self.entries.len() == 0
    }

    /// The entries, in key order.
    pub fn entries(&self) -> (r: &[(Name, Object)])
        ensures
            entries_view(r@) == self@,
            r@ == self.entry_seq(),
    {
        self.entries.as_slice()
    }

    /// The entries as stored.
    pub closed spec fn entry_seq(&self) -> Seq<(Name, Object)> {
        self.entries@
    }

    /// The dictionary with the values replaced by `values`, one for one,
    /// the keys kept.
    pub fn with_values(&self, values: &Vec<Object>) -> (r: Dict)
        requires
            values@.len() == self@.len(),
        ensures
            r@ == Seq::new(self@.len(), |i: int| (self@[i].0, values@[i]@)),
    {
        proof { lemma_entries_view(self.entries@); }
        let mut out: Vec<(Name, Object)> = Vec::new();
        let mut k: usize = 0;
        while k < self.entries.len()
            invariant
                k <= self.entries@.len(),
                values@.len() == self.entries@.len(),
                entries_view(self.entries@) == self@,
                self@.len() == self.entries@.len(),
                forall|j: int| 0 <= j < self.entries@.len() ==> #[trigger] self@[j] == (self.entries@[j].0.0@, self.entries@[j].1@),
                out@.len() == k,
                forall|j: int| 0 <= j < k ==> (#[trigger] out@[j]).0.0@ == self@[j].0 && out@[j].1@ == values@[j]@,
            decreases self.entries@.len() - k,
        {
            let value = copy_object(&values[k]);
            out.push((Name(self.entries[k].0.0.clone()), value));
            k = k + 1;
        }
        proof {
            use_type_invariant(self);
            lemma_entries_view(out@);
            assert(entries_view(out@) =~= Seq::new(self@.len(), |i: int| (self@[i].0, values@[i]@)));
            assert(keys_sorted(self@));
        }
        Dict { entries: out }
    }

    /// Where the first entry with `key` stands; the length when none.
    fn position(&self, key: &[u8]) -> (i: usize)
        ensures
            i == key_position(self@, key@),
    {
        proof {
            lemma_entries_view(self.entries@);
            lemma_key_position(self@, key@);
        }
        let mut i: usize = 0;
        while i < self.entries.len()
            invariant
                i <= self.entries@.len(),
                entries_view(self.entries@) == self@,
                self@.len() == self.entries@.len(),
                forall|j: int| 0 <= j < self.entries@.len() ==> #[trigger] self@[j] == (self.entries@[j].0.0@, self.entries@[j].1@),
                forall|j: int| 0 <= j < i ==> self@[j].0 != key@,
            decreases self.entries@.len() - i,
        {
            if crate::bytes::bytes_eq(self.entries[i].0.0.as_slice(), key) {
                proof { lemma_key_position_found(self@, key@, i as int); }
                return i;
            }
            i = i + 1;
        }
        proof { lemma_key_position_found(self@, key@, i as int); }
        i
    }

    /// The value under `key`.
    pub fn get(&self, key: &Name) -> (r: Option<&Object>)
        ensures
            match dict_get(self@, key.0@) {
                Some(v) => r matches Some(o) && o@ == v,
                None => r is None,
            },
    {
        proof { lemma_entries_view(self.entries@); }
        let i = self.position(key.0.as_slice());
        if i < self.entries.len() {
            Some(&self.entries[i].1)
        } else {
            None
        }
    }

    /// Whether the dictionary has `key`.
    pub fn contains_key(&self, key: &Name) -> (b: bool)
        ensures
            b == dict_get(self@, key.0@) is Some,
    {
        proof { lemma_entries_view(self.entries@); }
        self.position(key.0.as_slice()) < self.entries.len()
    }

    /// Set `key` to `value`: the entry is replaced where the key is
    /// present, else inserted in key order.
    pub fn insert(&mut self, key: Name, value: Object)
        ensures
            final(self)@ == dict_insert(old(self)@, key.0@, value@),
    {
        proof {
            lemma_entries_view(self.entries@);
            lemma_rank(self@, key.0@);
        }
        let ghost d = self@;
        let mut i: usize = 0;
        let mut searching = true;
        while searching && i < self.entries.len()
            invariant
                i <= self.entries@.len(),
                d == old(self)@,
                entries_view(self.entries@) == d,
                d.len() == self.entries@.len(),
                forall|j: int| 0 <= j < self.entries@.len() ==> #[trigger] d[j] == (self.entries@[j].0.0@, self.entries@[j].1@),
                forall|j: int| 0 <= j < i ==> bytes_lt(#[trigger] d[j].0, key.0@),
                !searching ==> i < d.len() && !bytes_lt(d[i as int].0, key.0@),
            decreases self.entries@.len() - i + if searching { 1int } else { 0int },
        {
            match compare_bytes(self.entries[i].0.0.as_slice(), key.0.as_slice()) {
                KeyOrder::Before => {
                    i = i + 1;
                },
                KeyOrder::Same => {
                    proof { lemma_bytes_lt_irreflexive(key.0@); }
                    searching = false;
                },
                KeyOrder::After => {
                    proof { lemma_bytes_lt_total(key.0@, d[i as int].0); }
                    searching = false;
                },
            }
        }
        proof { lemma_rank_found(d, key.0@, i as int); }
        let ghost kv = key.0@;
        let ghost vv = value@;
        proof {
            use_type_invariant(&*self);
            law_insert_keeps_keys_sorted(d, kv, vv);
        }
        let mut entries: Vec<(Name, Object)> = Vec::new();
        std::mem::swap(&mut entries, &mut self.entries);
        if i < entries.len() && crate::bytes::bytes_eq(entries[i].0.0.as_slice(), key.0.as_slice()) {
            entries.set(i, (key, value));
        } else {
            entries.insert(i, (key, value));
        }
        proof {
            lemma_entries_view(entries@);
            assert(entries_view(entries@) =~= dict_insert(d, kv, vv));
        }
        self.entries = entries;
    }

    /// Set the value of the entry of `key`, where there is one, in place.
    pub fn replace(&mut self, key: &Name, value: Object)
        ensures
            final(self)@ == dict_replace(old(self)@, key.0@, value@),
    {
        proof { lemma_entries_view(self.entries@); }
        let ghost d = self@;
        let ghost vv = value@;
        let i = self.position(key.0.as_slice());
        if i < self.entries.len() {
            let k = Name(self.entries[i].0.0.clone());
            proof { use_type_invariant(&*self); }
            let mut entries: Vec<(Name, Object)> = Vec::new();
        std::mem::swap(&mut entries, &mut self.entries);
            entries.set(i, (k, value));
            proof {
                lemma_entries_view(entries@);
                lemma_key_position(d, key.0@);
                assert(entries_view(entries@) =~= d.update(i as int, (key.0@, vv)));
                assert forall|a: int, b: int| 0 <= a < b < entries@.len() implies bytes_lt(
                    #[trigger] entries_view(entries@)[a].0,
                    #[trigger] entries_view(entries@)[b].0,
                ) by {
                    assert(entries_view(entries@)[a].0 == d[a].0);
                    assert(entries_view(entries@)[b].0 == d[b].0);
                }
            }
            self.entries = entries;
        }
    }

    /// A dictionary holding `entries` as they stand.
    pub fn from_entries(entries: Vec<(Name, Object)>) -> (d: Dict)
        requires
            keys_sorted(entries_view(entries@)),
        ensures
            d@ == entries_view(entries@),
            d.entry_seq() == entries@,
    {
        Dict { entries }
    }

    /// Take out the entry of `key`, giving its value.
    pub fn remove(&mut self, key: &Name) -> (r: Option<Object>)
        ensures
            final(self)@ == dict_remove(old(self)@, key.0@),
            match dict_get(old(self)@, key.0@) {
                Some(v) => r matches Some(o) && o@ == v,
                None => r is None,
            },
    {
        proof { lemma_entries_view(self.entries@); }
        let ghost d = self@;
        let i = self.position(key.0.as_slice());
        if i < self.entries.len() {
            proof {
                use_type_invariant(&*self);
                law_get_after_remove(d, key.0@, key.0@);
                lemma_key_position(d, key.0@);
            }
            let mut entries: Vec<(Name, Object)> = Vec::new();
        std::mem::swap(&mut entries, &mut self.entries);
            let (_, value) = entries.remove(i);
            proof {
                lemma_entries_view(entries@);
                assert(entries_view(entries@) =~= d.remove(i as int));
            }
            self.entries = entries;
            Some(value)
        } else {
            None
        }
    }
}

impl Object {
    /// The dictionary of a dictionary or a stream.
    pub fn as_dict(&self) -> (r: Option<&Dict>)
        ensures
            match self@ {
                ObjectView::Dict(d) => r matches Some(x) && x@ == d,
                ObjectView::Stream(d, _) => r matches Some(x) && x@ == d,
                _ => r is None,
            },
    {
        match self {
            Object::Dict(d) => Some(d),
            Object::Stream { dict, .. } => Some(dict),
            _ => None,
        }
    }

    /// The value of an integer.
    pub fn as_i64(&self) -> (r: Option<i64>)
        ensures
            match self@ {
                ObjectView::Integer(i) => r == Some(i),
                _ => r is None,
            },
    {
        match self {
            Object::Integer(i) => Some(*i),
            _ => None,
        }
    }

    /// The name of a name object.
    pub fn as_name(&self) -> (r: Option<&Name>)
        ensures
            match self@ {
                ObjectView::Name(n) => r matches Some(x) && x.0@ == n,
                _ => r is None,
            },
    {
        match self {
            Object::Name(n) => Some(n),
            _ => None,
        }
    }
}

} // verus!
