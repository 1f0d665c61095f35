//! What a dropped page leaves behind in an output, and how it is cleaned:
//! destinations whose page became `null`, `/GoTo` actions to them, link
//! annotations left with nothing to follow, and the objects that nothing
//! reaches any more (ISO 32000-2, 12.3.2 and 12.6.4.2).
//!
//! Every decision is taken on a snapshot of the output, a map from object
//! numbers to objects, so that the order of the walk does not matter.

use crate::object::{
    copy_dict, copy_object, dict_get, dict_remove, dict_replace, entries_view, items_view, key_position,
    lemma_entries_view, lemma_items_view, lemma_key_position, Dict, Name, Object, ObjectView,
};
use std::collections::{BTreeMap, BTreeSet};
use vstd::prelude::*;
use vstd::std_specs::btree::spec_keys_iter;
use vstd::std_specs::iter::IteratorSpec;
use vstd::string::StringSliceAdditionalSpecFns;

verus! {

/// The object behind `o`, one reference deep: the snapshot's object for a
/// reference (none when the number is not there), `o` itself otherwise.
pub open spec fn deref_view(o: ObjectView, snap: Map<u32, Object>) -> Option<ObjectView> {
    match o {
        ObjectView::Reference(r) => if snap.contains_key(r.num) {
            Some(snap[r.num]@)
        } else {
            None
        },
        _ => Some(o),
    }
}

/// A destination array whose page became `null`.
pub open spec fn dead_dest(o: ObjectView, snap: Map<u32, Object>) -> bool {
    match deref_view(o, snap) {
        Some(ObjectView::Array(items)) => items.len() > 0 && items[0] is Null,
        _ => false,
    }
}

/// A `/GoTo` action whose destination is missing or dead.
pub open spec fn dead_action(o: ObjectView, snap: Map<u32, Object>) -> bool {
    match deref_view(o, snap) {
        Some(ObjectView::Dict(d)) => {
            &&& dict_get(d, "S".spec_bytes()) == Some(ObjectView::Name("GoTo".spec_bytes()))
            &&& match dict_get(d, "D".spec_bytes()) {
                None => true,
                Some(x) => dead_dest(x, snap),
            }
        },
        _ => false,
    }
}

/// The value of a named destination that leads nowhere: a dead
/// destination array, a dictionary holding one under `/D`, `null`, or a
/// reference to nothing.
pub open spec fn dead_target(o: ObjectView, snap: Map<u32, Object>) -> bool {
    ||| dead_dest(o, snap)
    ||| match deref_view(o, snap) {
        Some(ObjectView::Dict(d)) => match dict_get(d, "D".spec_bytes()) {
            Some(x) => dead_dest(x, snap),
            None => false,
        },
        Some(ObjectView::Null) => true,
        None => true,
        _ => false,
    }
}

/// An `/Annots` entry to drop: `null`, a reference to nothing, or a link
/// annotation whose destination and action are both gone.
pub open spec fn dead_annotation(o: ObjectView, snap: Map<u32, Object>) -> bool {
    match deref_view(o, snap) {
        None => true,
        Some(ObjectView::Dict(d)) => {
            &&& dict_get(d, "Subtype".spec_bytes()) == Some(ObjectView::Name("Link".spec_bytes()))
            &&& !(dict_get(d, "Dest".spec_bytes()) matches Some(x) && !dead_dest(x, snap))
            &&& !(dict_get(d, "A".spec_bytes()) matches Some(x) && !dead_action(x, snap))
        },
        Some(a) => a is Null,
    }
}

/// The object behind `obj`, one reference deep.
pub fn deref<'o>(obj: &'o Object, snapshot: &'o BTreeMap<u32, Object>) -> (r: Option<&'o Object>)
    ensures
        match r {
            Some(x) => deref_view(obj@, snapshot@) == Some(x@),
            None => deref_view(obj@, snapshot@) is None,
        },
{
    match obj {
        Object::Reference(r) => snapshot.get(&r.num),
        other => Some(other),
    }
}

/// Whether `items` starts with `null`.
fn starts_with_null(items: &Vec<Object>) -> (b: bool)
    ensures
        b == (items@.len() > 0 && items@[0]@ is Null),
{
    items.len() > 0 && matches!(items[0], Object::Null)
}

/// A destination array whose page became `null`.
pub fn is_dead_dest(obj: &Object, snapshot: &BTreeMap<u32, Object>) -> (b: bool)
    ensures
        b == dead_dest(obj@, snapshot@),
{
    match deref(obj, snapshot) {
        Some(Object::Array(items)) => {
            proof { crate::object::lemma_items_view(items@); }
            starts_with_null(items)
        },
        _ => false,
    }
}

/// Whether `value` is the name `name`.
fn is_name(value: Option<&Object>, name: &str) -> (b: bool)
    ensures
        b == (match value {
            Some(v) => v@ == ObjectView::Name(name.spec_bytes()),
            None => false,
        }),
{
    match value {
        Some(Object::Name(n)) => crate::bytes::bytes_eq(n.0.as_slice(), name.as_bytes()),
        _ => false,
    }
}

/// A `/GoTo` action without a live destination (12.6.4.2).
pub fn is_dead_action(obj: &Object, snapshot: &BTreeMap<u32, Object>) -> (b: bool)
    ensures
        b == dead_action(obj@, snapshot@),
{
    let dict = match deref(obj, snapshot) {
        Some(Object::Dict(d)) => d,
        _ => return false,
    };
    if !is_name(dict.get(&Name::new("S")), "GoTo") {
        return false;
    }
    match dict.get(&Name::new("D")) {
        None => true,
        Some(d) => is_dead_dest(d, snapshot),
    }
}

/// A named destination's value that leads nowhere: a destination array,
/// or a dictionary holding one under `/D` (12.3.2.3), whose page is gone.
pub fn is_dead_target(obj: &Object, snapshot: &BTreeMap<u32, Object>) -> (b: bool)
    ensures
        b == dead_target(obj@, snapshot@),
{
    if is_dead_dest(obj, snapshot) {
        return true;
    }
    match deref(obj, snapshot) {
        Some(Object::Dict(dict)) => match dict.get(&Name::new("D")) {
            Some(d) => is_dead_dest(d, snapshot),
            None => false,
        },
        Some(Object::Null) => true,
        None => true,
        _ => false,
    }
}

/// An `/Annots` entry to drop: `null`, or a link annotation whose
/// destination and action are both gone (12.5.6.5).
pub fn is_dead_annotation(obj: &Object, snapshot: &BTreeMap<u32, Object>) -> (b: bool)
    ensures
        b == dead_annotation(obj@, snapshot@),
{
    let annot = match deref(obj, snapshot) {
        None => return true,
        Some(a) => a,
    };
    let dict = match annot {
        Object::Dict(d) => d,
        Object::Null => return true,
        _ => return false,
    };
    if !is_name(dict.get(&Name::new("Subtype")), "Link") {
        return false;
    }
    let dest_alive = match dict.get(&Name::new("Dest")) {
        Some(d) => !is_dead_dest(d, snapshot),
        None => false,
    };
    let action_alive = match dict.get(&Name::new("A")) {
        Some(a) => !is_dead_action(a, snapshot),
        None => false,
    };
    !dest_alive && !action_alive
}


/// How many objects `o` is made of, itself included: the measure by
/// which cleaning comes to an end.
pub open spec fn size(o: ObjectView) -> nat
    decreases o,
{
    match o {
        ObjectView::Array(items) => 1 + sizes(items),
        ObjectView::Dict(d) => 1 + entry_sizes(d),
        ObjectView::Stream(d, _) => 1 + entry_sizes(d),
        _ => 1,
    }
}

/// The sizes of a run of objects, added up.
pub open spec fn sizes(s: Seq<ObjectView>) -> nat
    decreases s,
{
    if s.len() == 0 {
        0
    } else {
        size(s[0]) + sizes(s.subrange(1, s.len() as int))
    }
}

/// The sizes of the values of a run of entries, added up.
pub open spec fn entry_sizes(d: Seq<(Seq<u8>, ObjectView)>) -> nat
    decreases d,
{
    if d.len() == 0 {
        0
    } else {
        size(d[0].1) + entry_sizes(d.subrange(1, d.len() as int))
    }
}

pub proof fn lemma_size_positive(o: ObjectView)
    ensures
        size(o) >= 1,
{
}

proof fn lemma_sizes_concat(a: Seq<ObjectView>, b: Seq<ObjectView>)
    ensures
        sizes(a + b) == sizes(a) + sizes(b),
    decreases a.len(),
{
    if a.len() > 0 {
        assert((a + b).subrange(1, (a + b).len() as int) =~= a.subrange(1, a.len() as int) + b);
        lemma_sizes_concat(a.subrange(1, a.len() as int), b);
    } else {
        assert(a + b =~= b);
    }
}

proof fn lemma_entry_sizes_concat(a: Seq<(Seq<u8>, ObjectView)>, b: Seq<(Seq<u8>, ObjectView)>)
    ensures
        entry_sizes(a + b) == entry_sizes(a) + entry_sizes(b),
    decreases a.len(),
{
    if a.len() > 0 {
        assert((a + b).subrange(1, (a + b).len() as int) =~= a.subrange(1, a.len() as int) + b);
        lemma_entry_sizes_concat(a.subrange(1, a.len() as int), b);
    } else {
        assert(a + b =~= b);
    }
}

proof fn lemma_sizes_single(x: ObjectView)
    ensures
        sizes(seq![x]) == size(x),
{
    let rest = seq![x].subrange(1, 1);
    assert(rest.len() == 0);
    assert(sizes(rest) == 0);
    assert(seq![x][0] == x);
}

proof fn lemma_entry_sizes_single(e: (Seq<u8>, ObjectView))
    ensures
        entry_sizes(seq![e]) == size(e.1),
{
    let rest = seq![e].subrange(1, 1);
    assert(rest.len() == 0);
    assert(entry_sizes(rest) == 0);
    assert(seq![e][0] == e);
}

/// An object counts for its size in the run that holds it.
pub proof fn lemma_sizes_at(s: Seq<ObjectView>, i: int)
    requires
        0 <= i < s.len(),
    ensures
        sizes(s) == sizes(s.take(i)) + size(s[i]) + sizes(s.skip(i + 1)),
{
    assert(s =~= s.take(i) + (seq![s[i]] + s.skip(i + 1)));
    lemma_sizes_concat(s.take(i), seq![s[i]] + s.skip(i + 1));
    lemma_sizes_concat(seq![s[i]], s.skip(i + 1));
    lemma_sizes_single(s[i]);
}

/// A value counts for its size in the run of entries that holds it.
pub proof fn lemma_entry_sizes_at(d: Seq<(Seq<u8>, ObjectView)>, i: int)
    requires
        0 <= i < d.len(),
    ensures
        entry_sizes(d) == entry_sizes(d.take(i)) + size(d[i].1) + entry_sizes(d.skip(i + 1)),
{
    assert(d =~= d.take(i) + (seq![d[i]] + d.skip(i + 1)));
    lemma_entry_sizes_concat(d.take(i), seq![d[i]] + d.skip(i + 1));
    lemma_entry_sizes_concat(seq![d[i]], d.skip(i + 1));
    lemma_entry_sizes_single(d[i]);
}

proof fn lemma_entry_sizes_remove(d: Seq<(Seq<u8>, ObjectView)>, i: int)
    requires
        0 <= i < d.len(),
    ensures
        entry_sizes(d.remove(i)) <= entry_sizes(d),
{
    lemma_entry_sizes_at(d, i);
    assert(d.remove(i) =~= d.take(i) + d.skip(i + 1));
    lemma_entry_sizes_concat(d.take(i), d.skip(i + 1));
}

proof fn lemma_entry_sizes_update(d: Seq<(Seq<u8>, ObjectView)>, i: int, e: (Seq<u8>, ObjectView))
    requires
        0 <= i < d.len(),
        size(e.1) <= size(d[i].1),
    ensures
        entry_sizes(d.update(i, e)) <= entry_sizes(d),
{
    let u = d.update(i, e);
    lemma_entry_sizes_at(d, i);
    lemma_entry_sizes_at(u, i);
    assert(u.take(i) =~= d.take(i));
    assert(u.skip(i + 1) =~= d.skip(i + 1));
}

/// The items of a name tree's `/Names` array, taken in pairs, without the
/// pairs whose value leads nowhere; a last item without a value stays.
pub open spec fn live_pairs(s: Seq<ObjectView>, snap: Map<u32, Object>) -> Seq<ObjectView>
    decreases s.len(),
{
    if s.len() <= 1 {
        s
    } else if dead_target(s[1], snap) {
        live_pairs(s.subrange(2, s.len() as int), snap)
    } else {
        seq![s[0], s[1]] + live_pairs(s.subrange(2, s.len() as int), snap)
    }
}

/// The entries whose value leads somewhere.
pub open spec fn live_entries(d: Seq<(Seq<u8>, ObjectView)>, snap: Map<u32, Object>) -> Seq<(Seq<u8>, ObjectView)>
    decreases d.len(),
{
    if d.len() == 0 {
        d
    } else if dead_target(d[0].1, snap) {
        live_entries(d.subrange(1, d.len() as int), snap)
    } else {
        seq![d[0]] + live_entries(d.subrange(1, d.len() as int), snap)
    }
}

/// The entries `live_entries` keeps are entries of `d`, in the order of
/// `d`: keys in order stay in order.
proof fn lemma_live_entries_sorted(d: Seq<(Seq<u8>, ObjectView)>, snap: Map<u32, Object>)
    requires
        crate::object::keys_sorted(d),
    ensures
        crate::object::keys_sorted(live_entries(d, snap)),
        forall|j: int| 0 <= j < live_entries(d, snap).len() ==> exists|k: int| 0 <= k < d.len() && #[trigger] live_entries(d, snap)[j] == d[k],
    decreases d.len(),
{
    if d.len() > 0 {
        let rest = d.subrange(1, d.len() as int);
        assert forall|a: int, b: int| 0 <= a < b < rest.len() implies crate::object::bytes_lt(#[trigger] rest[a].0, #[trigger] rest[b].0) by {
            assert(rest[a] == d[a + 1] && rest[b] == d[b + 1]);
        }
        lemma_live_entries_sorted(rest, snap);
        let lr = live_entries(rest, snap);
        assert forall|j: int| 0 <= j < lr.len() implies exists|k: int| 0 <= k < d.len() && #[trigger] lr[j] == d[k] by {
            let k = choose|k: int| 0 <= k < rest.len() && lr[j] == rest[k];
            assert(lr[j] == d[k + 1]);
        }
        if !dead_target(d[0].1, snap) {
            let r = seq![d[0]] + lr;
            assert forall|a: int, b: int| 0 <= a < b < r.len() implies crate::object::bytes_lt(#[trigger] r[a].0, #[trigger] r[b].0) by {
                if a == 0 {
                    let k = choose|k: int| 0 <= k < rest.len() && lr[b - 1] == rest[k];
                    assert(r[b] == d[k + 1]);
                } else {
                    assert(r[a] == lr[a - 1] && r[b] == lr[b - 1]);
                }
            }
            assert forall|j: int| 0 <= j < r.len() implies exists|k: int| 0 <= k < d.len() && #[trigger] r[j] == d[k] by {
                if j == 0 {
                    assert(r[0] == d[0]);
                } else {
                    assert(r[j] == lr[j - 1]);
                }
            }
        }
    }
}

/// Cleaning the values of entries keeps their keys, in order.
proof fn lemma_clean_values_keys(d: Seq<(Seq<u8>, ObjectView)>, snap: Map<u32, Object>)
    ensures
        clean_values(d, snap).len() == d.len(),
        forall|j: int| 0 <= j < d.len() ==> (#[trigger] clean_values(d, snap)[j]).0 == d[j].0,
    decreases d.len(),
{
    if d.len() > 0 {
        let rest = d.subrange(1, d.len() as int);
        lemma_clean_values_keys(rest, snap);
        assert forall|j: int| 0 <= j < d.len() implies (#[trigger] clean_values(d, snap)[j]).0 == d[j].0 by {
            if j > 0 {
                assert(clean_values(d, snap)[j] == clean_values(rest, snap)[j - 1]);
                assert(rest[j - 1] == d[j]);
            }
        }
    }
}

/// The annotations that are not to be dropped.
pub open spec fn live_annotations(s: Seq<ObjectView>, snap: Map<u32, Object>) -> Seq<ObjectView>
    decreases s.len(),
{
    if s.len() == 0 {
        s
    } else if dead_annotation(s[0], snap) {
        live_annotations(s.subrange(1, s.len() as int), snap)
    } else {
        seq![s[0]] + live_annotations(s.subrange(1, s.len() as int), snap)
    }
}

proof fn lemma_live_pairs_smaller(s: Seq<ObjectView>, snap: Map<u32, Object>)
    ensures
        sizes(live_pairs(s, snap)) <= sizes(s),
    decreases s.len(),
{
    if s.len() > 1 {
        let rest = s.subrange(2, s.len() as int);
        lemma_live_pairs_smaller(rest, snap);
        assert(s =~= seq![s[0], s[1]] + rest);
        lemma_sizes_concat(seq![s[0], s[1]], rest);
        if !dead_target(s[1], snap) {
            lemma_sizes_concat(seq![s[0], s[1]], live_pairs(rest, snap));
        }
    }
}

proof fn lemma_live_entries_smaller(d: Seq<(Seq<u8>, ObjectView)>, snap: Map<u32, Object>)
    ensures
        entry_sizes(live_entries(d, snap)) <= entry_sizes(d),
    decreases d.len(),
{
    if d.len() > 0 {
        let rest = d.subrange(1, d.len() as int);
        lemma_live_entries_smaller(rest, snap);
        if !dead_target(d[0].1, snap) {
            lemma_entry_sizes_concat(seq![d[0]], live_entries(rest, snap));
            lemma_entry_sizes_single(d[0]);
        }
    }
}

proof fn lemma_live_annotations_smaller(s: Seq<ObjectView>, snap: Map<u32, Object>)
    ensures
        sizes(live_annotations(s, snap)) <= sizes(s),
    decreases s.len(),
{
    if s.len() > 0 {
        let rest = s.subrange(1, s.len() as int);
        lemma_live_annotations_smaller(rest, snap);
        if !dead_annotation(s[0], snap) {
            lemma_sizes_concat(seq![s[0]], live_annotations(rest, snap));
            lemma_sizes_single(s[0]);
        }
    }
}

/// `d` without the entry of `key` when `dead` holds of its value.
pub open spec fn drop_dead(d: Seq<(Seq<u8>, ObjectView)>, key: Seq<u8>, dead: spec_fn(ObjectView) -> bool) -> Seq<(Seq<u8>, ObjectView)> {
    match dict_get(d, key) {
        Some(v) => if dead(v) {
            dict_remove(d, key)
        } else {
            d
        },
        None => d,
    }
}

/// A dictionary of the output with what leads to a dropped page taken
/// out, before its values are cleaned in turn: a dead `/Dest`, a dead
/// `/GoTo` action under `/A`, a dead destination under `/D`, the dead
/// pairs of a `/Names` array, the dead entries of a `/Dests` dictionary
/// and the dead entries of an `/Annots` array.
pub open spec fn stripped(d: Seq<(Seq<u8>, ObjectView)>, snap: Map<u32, Object>) -> Seq<(Seq<u8>, ObjectView)> {
    let d1 = drop_dead(d, "Dest".spec_bytes(), |v: ObjectView| dead_dest(v, snap));
    let d2 = drop_dead(d1, "A".spec_bytes(), |v: ObjectView| dead_action(v, snap));
    let d3 = drop_dead(d2, "D".spec_bytes(), |v: ObjectView| dead_dest(v, snap));
    let d4 = match dict_get(d3, "Names".spec_bytes()) {
        Some(ObjectView::Array(n)) => dict_replace(d3, "Names".spec_bytes(), ObjectView::Array(live_pairs(n, snap))),
        _ => d3,
    };
    let d5 = match dict_get(d4, "Dests".spec_bytes()) {
        Some(ObjectView::Dict(e)) => dict_replace(d4, "Dests".spec_bytes(), ObjectView::Dict(live_entries(e, snap))),
        _ => d4,
    };
    match dict_get(d5, "Annots".spec_bytes()) {
        Some(ObjectView::Array(a)) => dict_replace(d5, "Annots".spec_bytes(), ObjectView::Array(live_annotations(a, snap))),
        _ => d5,
    }
}

proof fn lemma_drop_dead_smaller(d: Seq<(Seq<u8>, ObjectView)>, key: Seq<u8>, dead: spec_fn(ObjectView) -> bool)
    ensures
        entry_sizes(drop_dead(d, key, dead)) <= entry_sizes(d),
{
    lemma_key_position(d, key);
    let i = key_position(d, key);
    if i < d.len() {
        lemma_entry_sizes_remove(d, i);
    }
}

/// Taking an entry out keeps the size down.
pub proof fn lemma_dict_remove_smaller(d: Seq<(Seq<u8>, ObjectView)>, key: Seq<u8>)
    ensures
        entry_sizes(dict_remove(d, key)) <= entry_sizes(d),
{
    lemma_key_position(d, key);
    let i = key_position(d, key);
    if i < d.len() {
        lemma_entry_sizes_remove(d, i);
    }
}

/// Replacing the value of `key` by one no larger keeps the size down.
proof fn lemma_replace_smaller(d: Seq<(Seq<u8>, ObjectView)>, key: Seq<u8>, v: ObjectView)
    requires
        dict_get(d, key) matches Some(old) && size(v) <= size(old),
    ensures
        entry_sizes(dict_replace(d, key, v)) <= entry_sizes(d),
{
    lemma_key_position(d, key);
    let i = key_position(d, key);
    lemma_entry_sizes_update(d, i, (key, v));
}

pub proof fn lemma_stripped_smaller(d: Seq<(Seq<u8>, ObjectView)>, snap: Map<u32, Object>)
    ensures
        entry_sizes(stripped(d, snap)) <= entry_sizes(d),
{
    let d1 = drop_dead(d, "Dest".spec_bytes(), |v: ObjectView| dead_dest(v, snap));
    let d2 = drop_dead(d1, "A".spec_bytes(), |v: ObjectView| dead_action(v, snap));
    let d3 = drop_dead(d2, "D".spec_bytes(), |v: ObjectView| dead_dest(v, snap));
    lemma_drop_dead_smaller(d, "Dest".spec_bytes(), |v: ObjectView| dead_dest(v, snap));
    lemma_drop_dead_smaller(d1, "A".spec_bytes(), |v: ObjectView| dead_action(v, snap));
    lemma_drop_dead_smaller(d2, "D".spec_bytes(), |v: ObjectView| dead_dest(v, snap));
    let d4 = match dict_get(d3, "Names".spec_bytes()) {
        Some(ObjectView::Array(n)) => {
            lemma_live_pairs_smaller(n, snap);
            lemma_replace_smaller(d3, "Names".spec_bytes(), ObjectView::Array(live_pairs(n, snap)));
            dict_replace(d3, "Names".spec_bytes(), ObjectView::Array(live_pairs(n, snap)))
        },
        _ => d3,
    };
    let d5 = match dict_get(d4, "Dests".spec_bytes()) {
        Some(ObjectView::Dict(e)) => {
            lemma_live_entries_smaller(e, snap);
            lemma_replace_smaller(d4, "Dests".spec_bytes(), ObjectView::Dict(live_entries(e, snap)));
            dict_replace(d4, "Dests".spec_bytes(), ObjectView::Dict(live_entries(e, snap)))
        },
        _ => d4,
    };
    match dict_get(d5, "Annots".spec_bytes()) {
        Some(ObjectView::Array(a)) => {
            lemma_live_annotations_smaller(a, snap);
            lemma_replace_smaller(d5, "Annots".spec_bytes(), ObjectView::Array(live_annotations(a, snap)));
        },
        _ => {},
    }
}

/// An object of the output once cleaned: each dictionary (a stream's
/// too) stripped, then its values cleaned in turn; each array item
/// cleaned.
pub open spec fn clean_view(o: ObjectView, snap: Map<u32, Object>) -> ObjectView
    decreases size(o), 1nat,
{
    match o {
        ObjectView::Array(items) => ObjectView::Array(clean_items(items, snap)),
        ObjectView::Dict(d) => ObjectView::Dict(clean_entries(d, snap)),
        ObjectView::Stream(d, data) => ObjectView::Stream(clean_entries(d, snap), data),
        _ => o,
    }
}

/// A dictionary's entries once cleaned.
pub open spec fn clean_entries(d: Seq<(Seq<u8>, ObjectView)>, snap: Map<u32, Object>) -> Seq<(Seq<u8>, ObjectView)>
    decreases entry_sizes(d) + 1, 0nat,
{
    proof {
        lemma_stripped_smaller(d, snap);
    }
    clean_values(stripped(d, snap), snap)
}

/// Entries with each value cleaned, the keys kept.
pub open spec fn clean_values(d: Seq<(Seq<u8>, ObjectView)>, snap: Map<u32, Object>) -> Seq<(Seq<u8>, ObjectView)>
    decreases entry_sizes(d), 2nat,
{
    if d.len() == 0 {
        d
    } else {
        proof {
            lemma_size_positive(d[0].1);
        }
        seq![(d[0].0, clean_view(d[0].1, snap))] + clean_values(d.subrange(1, d.len() as int), snap)
    }
}

/// Items each cleaned.
pub open spec fn clean_items(s: Seq<ObjectView>, snap: Map<u32, Object>) -> Seq<ObjectView>
    decreases sizes(s), 2nat,
{
    if s.len() == 0 {
        s
    } else {
        proof {
            lemma_size_positive(s[0]);
        }
        seq![clean_view(s[0], snap)] + clean_items(s.subrange(1, s.len() as int), snap)
    }
}


pub proof fn lemma_items_view_push(s: Seq<Object>, x: Object)
    ensures
        items_view(s.push(x)) == items_view(s).push(x@),
{
    assert(s.push(x).subrange(0, s.len() as int) =~= s);
}

proof fn lemma_entries_view_push(s: Seq<(Name, Object)>, e: (Name, Object))
    ensures
        entries_view(s.push(e)) == entries_view(s).push((e.0.0@, e.1@)),
{
    assert(s.push(e).subrange(0, s.len() as int) =~= s);
}

/// The pairs of a `/Names` array whose value leads somewhere, a last
/// unpaired item kept.
fn live_pairs_of(names: &Vec<Object>, snapshot: &BTreeMap<u32, Object>) -> (r: Vec<Object>)
    ensures
        items_view(r@) == live_pairs(items_view(names@), snapshot@),
{
    let ghost s = items_view(names@);
    let ghost snap = snapshot@;
    proof { lemma_items_view(names@); }
    let mut out: Vec<Object> = Vec::new();
    let mut k: usize = 0;
    assert(s.subrange(0, s.len() as int) =~= s);
    while k < names.len()
        invariant
            k <= names@.len(),
            snap == snapshot@,
            s == items_view(names@),
            s.len() == names@.len(),
            forall|j: int| 0 <= j < names@.len() ==> #[trigger] s[j] == names@[j]@,
            live_pairs(s, snap) == items_view(out@) + live_pairs(s.subrange(k as int, s.len() as int), snap),
        decreases names@.len() - k,
    {
        let ghost t = s.subrange(k as int, s.len() as int);
        let ghost before = items_view(out@);
        if k + 1 >= names.len() {
            let x = copy_object(&names[k]);
            proof { lemma_items_view_push(out@, x); }
            out.push(x);
            proof {
                assert(t =~= seq![s[k as int]]);
                assert(s.subrange(names@.len() as int, s.len() as int) =~= Seq::<ObjectView>::empty());
                assert(items_view(out@) =~= before + t);
            }
            k = names.len();
        } else {
            proof {
                assert(t[1] == s[k + 1]);
                assert(t.subrange(2, t.len() as int) =~= s.subrange(k + 2, s.len() as int));
            }
            if !is_dead_target(&names[k + 1], snapshot) {
                let x = copy_object(&names[k]);
                proof { lemma_items_view_push(out@, x); }
                out.push(x);
                let y = copy_object(&names[k + 1]);
                proof { lemma_items_view_push(out@, y); }
                out.push(y);
                proof {
                    assert(t[0] == s[k as int]);
                    assert(items_view(out@) =~= before + seq![t[0], t[1]]);
                }
            }
            k = k + 2;
        }
    }
    proof {
        assert(s.subrange(k as int, s.len() as int) =~= Seq::<ObjectView>::empty());
        assert(items_view(out@) + Seq::<ObjectView>::empty() =~= items_view(out@));
    }
    out
}

/// The annotations of an `/Annots` array that are not to be dropped.
fn live_annotations_of(items: &Vec<Object>, snapshot: &BTreeMap<u32, Object>) -> (r: Vec<Object>)
    ensures
        items_view(r@) == live_annotations(items_view(items@), snapshot@),
{
    let ghost s = items_view(items@);
    let ghost snap = snapshot@;
    proof { lemma_items_view(items@); }
    let mut out: Vec<Object> = Vec::new();
    let mut k: usize = 0;
    assert(s.subrange(0, s.len() as int) =~= s);
    while k < items.len()
        invariant
            k <= items@.len(),
            snap == snapshot@,
            s == items_view(items@),
            s.len() == items@.len(),
            forall|j: int| 0 <= j < items@.len() ==> #[trigger] s[j] == items@[j]@,
            live_annotations(s, snap) == items_view(out@) + live_annotations(s.subrange(k as int, s.len() as int), snap),
        decreases items@.len() - k,
    {
        let ghost t = s.subrange(k as int, s.len() as int);
        let ghost before = items_view(out@);
        proof {
            assert(t[0] == s[k as int]);
            assert(t.subrange(1, t.len() as int) =~= s.subrange(k + 1, s.len() as int));
        }
        if !is_dead_annotation(&items[k], snapshot) {
            let x = copy_object(&items[k]);
            proof { lemma_items_view_push(out@, x); }
            out.push(x);
            proof { assert(items_view(out@) =~= before + seq![t[0]]); }
        }
        k = k + 1;
    }
    proof {
        assert(s.subrange(k as int, s.len() as int) =~= Seq::<ObjectView>::empty());
        assert(items_view(out@) + Seq::<ObjectView>::empty() =~= items_view(out@));
    }
    out
}

/// The entries of a `/Dests` dictionary whose value leads somewhere.
fn live_entries_of(dests: &Dict, snapshot: &BTreeMap<u32, Object>) -> (r: Dict)
    ensures
        r@ == live_entries(dests@, snapshot@),
{
    let ghost s = dests@;
    let ghost snap = snapshot@;
    let entries = dests.entries();
    proof { lemma_entries_view(entries@); }
    let mut out: Vec<(Name, Object)> = Vec::new();
    let mut k: usize = 0;
    assert(s.subrange(0, s.len() as int) =~= s);
    while k < entries.len()
        invariant
            k <= entries@.len(),
            snap == snapshot@,
            s == entries_view(entries@),
            s.len() == entries@.len(),
            forall|j: int| 0 <= j < entries@.len() ==> #[trigger] s[j] == (entries@[j].0.0@, entries@[j].1@),
            live_entries(s, snap) == entries_view(out@) + live_entries(s.subrange(k as int, s.len() as int), snap),
        decreases entries@.len() - k,
    {
        let ghost t = s.subrange(k as int, s.len() as int);
        let ghost before = entries_view(out@);
        proof {
            assert(t[0] == s[k as int]);
            assert(t.subrange(1, t.len() as int) =~= s.subrange(k + 1, s.len() as int));
        }
        if !is_dead_target(&entries[k].1, snapshot) {
            let e = (Name(entries[k].0.0.clone()), copy_object(&entries[k].1));
            proof { lemma_entries_view_push(out@, e); }
            out.push(e);
            proof { assert(entries_view(out@) =~= before + seq![t[0]]); }
        }
        k = k + 1;
    }
    proof {
        assert(s.subrange(k as int, s.len() as int) =~= Seq::<(Seq<u8>, ObjectView)>::empty());
        assert(entries_view(out@) + Seq::<(Seq<u8>, ObjectView)>::empty() =~= entries_view(out@));
        use_type_invariant(dests);
        Dict::lemma_keys_in_order(*dests);
        lemma_live_entries_sorted(s, snap);
    }
    Dict::from_entries(out)
}

/// Take out the entry of `key` when `dead` says its value leads nowhere.
fn strip_dest(dict: &mut Dict, key: &str, action: bool, snapshot: &BTreeMap<u32, Object>)
    ensures
        final(dict)@ == drop_dead(old(dict)@, key.spec_bytes(), |v: ObjectView|
            if action { dead_action(v, snapshot@) } else { dead_dest(v, snapshot@) }),
{
    let name = Name::new(key);
    let dead = match dict.get(&name) {
        Some(v) => if action { is_dead_action(v, snapshot) } else { is_dead_dest(v, snapshot) },
        None => false,
    };
    if dead {
        let _ = dict.remove(&name);
    }
}

/// Strip a dictionary of what leads to a dropped page (see [`stripped`]).
fn strip(dict: &mut Dict, snapshot: &BTreeMap<u32, Object>)
    ensures
        final(dict)@ == stripped(old(dict)@, snapshot@),
{
    let ghost snap = snapshot@;
    let ghost d = dict@;
    strip_dest(dict, "Dest", false, snapshot);
    assert(dict@ == drop_dead(d, "Dest".spec_bytes(), |v: ObjectView| dead_dest(v, snap)));
    let ghost d1 = dict@;
    strip_dest(dict, "A", true, snapshot);
    assert(dict@ == drop_dead(d1, "A".spec_bytes(), |v: ObjectView| dead_action(v, snap)));
    let ghost d2 = dict@;
    strip_dest(dict, "D", false, snapshot);
    assert(dict@ == drop_dead(d2, "D".spec_bytes(), |v: ObjectView| dead_dest(v, snap)));
    let names_key = Name::new("Names");
    let names = match dict.get(&names_key) {
        Some(Object::Array(items)) => Some(live_pairs_of(items, snapshot)),
        _ => None,
    };
    if let Some(kept) = names {
        dict.replace(&names_key, Object::Array(kept));
    }
    let dests_key = Name::new("Dests");
    let dests = match dict.get(&dests_key) {
        Some(Object::Dict(e)) => Some(live_entries_of(e, snapshot)),
        _ => None,
    };
    if let Some(kept) = dests {
        dict.replace(&dests_key, Object::Dict(kept));
    }
    let annots_key = Name::new("Annots");
    let annots = match dict.get(&annots_key) {
        Some(Object::Array(items)) => Some(live_annotations_of(items, snapshot)),
        _ => None,
    };
    if let Some(kept) = annots {
        dict.replace(&annots_key, Object::Array(kept));
    }
}


/// An object of the output, cleaned (see [`clean_view`]).
fn cleaned(obj: &Object, snapshot: &BTreeMap<u32, Object>) -> (r: Object)
    ensures
        r@ == clean_view(obj@, snapshot@),
    decreases size(obj@), 1nat,
{
    match obj {
        Object::Array(items) => {
            let ghost s = items_view(items@);
            let ghost snap = snapshot@;
            proof { lemma_items_view(items@); }
            let mut out: Vec<Object> = Vec::new();
            let mut k: usize = 0;
            assert(s.subrange(0, s.len() as int) =~= s);
            while k < items.len()
                invariant
                    k <= items@.len(),
                    snap == snapshot@,
                    obj@ == ObjectView::Array(s),
                    s == items_view(items@),
                    s.len() == items@.len(),
                    forall|j: int| 0 <= j < items@.len() ==> #[trigger] s[j] == items@[j]@,
                    clean_items(s, snap) == items_view(out@) + clean_items(s.subrange(k as int, s.len() as int), snap),
                decreases items@.len() - k,
            {
                let ghost t = s.subrange(k as int, s.len() as int);
                let ghost before = items_view(out@);
                proof {
                    lemma_sizes_at(s, k as int);
                    assert(t[0] == s[k as int]);
                    assert(t.subrange(1, t.len() as int) =~= s.subrange(k + 1, s.len() as int));
                }
                let x = cleaned(&items[k], snapshot);
                proof { lemma_items_view_push(out@, x); }
                out.push(x);
                proof { assert(items_view(out@) =~= before + seq![clean_view(t[0], snap)]); }
                k = k + 1;
            }
            proof {
                assert(s.subrange(k as int, s.len() as int) =~= Seq::<ObjectView>::empty());
                assert(items_view(out@) + Seq::<ObjectView>::empty() =~= items_view(out@));
            }
            Object::Array(out)
        },
        Object::Dict(d) => Object::Dict(cleaned_dict(d, snapshot)),
        Object::Stream { dict, data } => Object::Stream { dict: cleaned_dict(dict, snapshot), data: data.clone() },
        _ => copy_object(obj),
    }
}

/// A dictionary of the output, cleaned (see [`clean_entries`]).
#[verifier::spinoff_prover]
fn cleaned_dict(d: &Dict, snapshot: &BTreeMap<u32, Object>) -> (r: Dict)
    ensures
        r@ == clean_entries(d@, snapshot@),
    decreases entry_sizes(d@) + 1, 0nat,
{
    let ghost snap = snapshot@;
    let mut st = copy_dict(d);
    strip(&mut st, snapshot);
    proof { lemma_stripped_smaller(d@, snap); }
    let ghost s = st@;
    let entries = st.entries();
    proof { lemma_entries_view(entries@); }
    let mut out: Vec<(Name, Object)> = Vec::new();
    let mut k: usize = 0;
    assert(s.subrange(0, s.len() as int) =~= s);
    while k < entries.len()
        invariant
            k <= entries@.len(),
            snap == snapshot@,
            entry_sizes(s) <= entry_sizes(d@),
            s == entries_view(entries@),
            s.len() == entries@.len(),
            forall|j: int| 0 <= j < entries@.len() ==> #[trigger] s[j] == (entries@[j].0.0@, entries@[j].1@),
            clean_values(s, snap) == entries_view(out@) + clean_values(s.subrange(k as int, s.len() as int), snap),
        decreases entries@.len() - k,
    {
        let ghost t = s.subrange(k as int, s.len() as int);
        let ghost before = entries_view(out@);
        proof {
            lemma_entry_sizes_at(s, k as int);
            assert(t[0] == s[k as int]);
            assert(t.subrange(1, t.len() as int) =~= s.subrange(k + 1, s.len() as int));
        }
        let value = cleaned(&entries[k].1, snapshot);
        let e = (Name(entries[k].0.0.clone()), value);
        proof { lemma_entries_view_push(out@, e); }
        out.push(e);
        proof { assert(entries_view(out@) =~= before + seq![(t[0].0, clean_view(t[0].1, snap))]); }
        k = k + 1;
    }
    proof {
        assert(s.subrange(k as int, s.len() as int) =~= Seq::<(Seq<u8>, ObjectView)>::empty());
        assert(entries_view(out@) + Seq::<(Seq<u8>, ObjectView)>::empty() =~= entries_view(out@));
        use_type_invariant(&st);
        Dict::lemma_keys_in_order(st);
        lemma_clean_values_keys(s, snap);
        assert forall|a: int, b: int| 0 <= a < b < entries_view(out@).len() implies crate::object::bytes_lt(
            #[trigger] entries_view(out@)[a].0,
            #[trigger] entries_view(out@)[b].0,
        ) by {
            assert(entries_view(out@)[a].0 == s[a].0);
            assert(entries_view(out@)[b].0 == s[b].0);
        }
    }
    Dict::from_entries(out)
}

/// Clean an object of the output in place (see [`clean_view`]).
pub fn clean_object(obj: &mut Object, snapshot: &BTreeMap<u32, Object>)
    ensures
        final(obj)@ == clean_view(old(obj)@, snapshot@),
{
    let c = cleaned(obj, snapshot);
    *obj = c;
}

/// Clean a dictionary of the output in place (see [`clean_entries`]).
pub fn clean_dict(dict: &mut Dict, snapshot: &BTreeMap<u32, Object>)
    ensures
        final(dict)@ == clean_entries(old(dict)@, snapshot@),
{
    let c = cleaned_dict(dict, snapshot);
    *dict = c;
}


/// The numbers of the objects of `m`, each once.
pub fn numbers_of(m: &BTreeMap<u32, Object>) -> (v: Vec<u32>)
    ensures
        v@.to_set() == m@.dom(),
        v@.no_duplicates(),
{
    let mut v: Vec<u32> = Vec::new();
    proof { broadcast use vstd::std_specs::btree::axiom_spec_keys_iter; }
    for k in it: m.keys()
        invariant
            v@ == it.seq().take(it.index() as int).map_values(|r: &u32| *r),
            it.seq() == spec_keys_iter(m).remaining(),
    {
        v.push(*k);
    }
    assert(v@ =~= spec_keys_iter(m).remaining().unref());
    v
}

/// The number of the catalog's `/Dests` dictionary (PDF 1.1) in `m`,
/// when the catalog at `catalog_num` holds it by reference.
pub open spec fn indirect_dests(m: Map<u32, Object>, catalog_num: u32) -> Option<u32> {
    if m.contains_key(catalog_num) {
        match m[catalog_num]@ {
            ObjectView::Dict(c) => match dict_get(c, "Dests".spec_bytes()) {
                Some(ObjectView::Reference(r)) => Some(r.num),
                _ => None,
            },
            _ => None,
        }
    } else {
        None
    }
}

/// Object `n` of the output `m` once cleaned: cleaned as any object, and,
/// being the catalog's indirect `/Dests` dictionary, without the entries
/// that lead nowhere.
pub open spec fn cleaned_at(m: Map<u32, Object>, catalog_num: u32, n: u32) -> ObjectView {
    let v = clean_view(m[n]@, m);
    if indirect_dests(m, catalog_num) == Some(n) {
        match v {
            ObjectView::Dict(d) => ObjectView::Dict(live_entries(d, m)),
            _ => v,
        }
    } else {
        v
    }
}

/// Remove what a dropped page leaves behind: `/Dest` entries and `/GoTo`
/// actions whose destination array starts with `null`, named
/// destinations of that kind, link annotations left with neither `/Dest`
/// nor `/A`, and `null` entries of `/Annots`. Decisions are taken on a
/// snapshot so that the order of the walk does not matter.
pub fn clean_dead_destinations(out: &mut BTreeMap<u32, Object>, catalog_num: u32)
    ensures
        final(out)@.dom() == old(out)@.dom(),
        forall|n: u32| #[trigger] old(out)@.contains_key(n) ==> final(out)@[n]@ == cleaned_at(old(out)@, catalog_num, n),
{
    let snapshot = out.clone();
    let ghost m = snapshot@;
    let keys = numbers_of(&snapshot);
    let mut i: usize = 0;
    while i < keys.len()
        invariant
            i <= keys@.len(),
            m == snapshot@,
            keys@.to_set() == m.dom(),
            out@.dom() == m.dom(),
            forall|n: u32| #[trigger] m.contains_key(n) ==> out@[n]@ == if keys@.take(i as int).contains(n) {
                clean_view(m[n]@, m)
            } else {
                m[n]@
            },
        decreases keys@.len() - i,
    {
        let k = keys[i];
        assert(keys@.to_set().contains(k));
        match snapshot.get(&k) {
            Some(obj) => {
                let c = cleaned(obj, &snapshot);
                out.insert(k, c);
            },
            None => {},
        }
        proof {
            assert forall|n: u32| #[trigger] m.contains_key(n) implies out@[n]@ == if keys@.take(i + 1).contains(n) {
                clean_view(m[n]@, m)
            } else {
                m[n]@
            } by {
                assert(keys@.take(i + 1) =~= keys@.take(i as int).push(k));
                if n != k {
                    assert(keys@.take(i + 1).contains(n) == keys@.take(i as int).contains(n));
                } else {
                    assert(keys@.take(i + 1)[i as int] == k);
                }
            }
        }
        i = i + 1;
    }
    proof {
        assert(keys@.take(keys@.len() as int) =~= keys@);
        assert forall|n: u32| #[trigger] m.contains_key(n) implies keys@.contains(n) by {
            assert(keys@.to_set().contains(n));
        }
    }
    let old_dests: Option<u32> = match snapshot.get(&catalog_num) {
        Some(Object::Dict(c)) => match c.get(&Name::new("Dests")) {
            Some(Object::Reference(r)) => Some(r.num),
            _ => None,
        },
        _ => None,
    };
    assert(old_dests == indirect_dests(m, catalog_num));
    if let Some(num) = old_dests {
        let kept = match out.get(&num) {
            Some(Object::Dict(dests)) => Some(live_entries_of(dests, &snapshot)),
            _ => None,
        };
        if let Some(d) = kept {
            out.insert(num, Object::Dict(d));
        }
    }
}


/// The object numbers `o` refers to, in the order of a walk through it.
pub open spec fn refs(o: ObjectView) -> Seq<u32>
    decreases size(o), 1nat,
{
    match o {
        ObjectView::Reference(r) => seq![r.num],
        ObjectView::Array(items) => item_refs(items),
        ObjectView::Dict(d) => entry_refs(d),
        ObjectView::Stream(d, _) => entry_refs(d),
        _ => Seq::empty(),
    }
}

/// The numbers a run of objects refers to, in order.
pub open spec fn item_refs(s: Seq<ObjectView>) -> Seq<u32>
    decreases sizes(s), 2nat,
{
    if s.len() == 0 {
        Seq::empty()
    } else {
        proof {
            lemma_size_positive(s[0]);
        }
        refs(s[0]) + item_refs(s.subrange(1, s.len() as int))
    }
}

/// The numbers the values of a run of entries refer to, in order.
pub open spec fn entry_refs(d: Seq<(Seq<u8>, ObjectView)>) -> Seq<u32>
    decreases entry_sizes(d), 2nat,
{
    if d.len() == 0 {
        Seq::empty()
    } else {
        proof {
            lemma_size_positive(d[0].1);
        }
        refs(d[0].1) + entry_refs(d.subrange(1, d.len() as int))
    }
}

/// The numbers reached from `roots` in at most `k` steps, a step going
/// from an object of `m` to a number it refers to.
pub open spec fn reached(m: Map<u32, Object>, roots: Seq<u32>, k: nat) -> Set<u32>
    decreases k,
{
    if k == 0 {
        roots.to_set()
    } else {
        let prev = reached(m, roots, (k - 1) as nat);
        prev.union(Set::new(|n: u32| exists|p: u32| #[trigger] prev.contains(p) && m.contains_key(p) && refs(m[p]@).contains(n)))
    }
}

/// `n` is reached from `roots` through the objects of `m`.
pub open spec fn reachable(m: Map<u32, Object>, roots: Seq<u32>, n: u32) -> bool {
    exists|k: nat| #[trigger] reached(m, roots, k).contains(n)
}

/// Append the numbers `obj` refers to, in order.
pub fn collect_refs(obj: &Object, into: &mut Vec<u32>)
    ensures
        final(into)@ == old(into)@ + refs(obj@),
    decreases size(obj@), 1nat,
{
    match obj {
        Object::Reference(r) => {
            into.push(r.num);
        },
        Object::Array(items) => {
            let ghost s = items_view(items@);
            let ghost start = into@;
            proof { lemma_items_view(items@); }
            let mut k: usize = 0;
            assert(s.subrange(0, s.len() as int) =~= s);
            assert(start + Seq::<u32>::empty() =~= start);
            while k < items.len()
                invariant
                    k <= items@.len(),
                    obj@ == ObjectView::Array(s),
                    s == items_view(items@),
                    s.len() == items@.len(),
                    forall|j: int| 0 <= j < items@.len() ==> #[trigger] s[j] == items@[j]@,
                    start + item_refs(s) == into@ + item_refs(s.subrange(k as int, s.len() as int)),
                decreases items@.len() - k,
            {
                let ghost t = s.subrange(k as int, s.len() as int);
                let ghost before = into@;
                proof {
                    lemma_sizes_at(s, k as int);
                    assert(t[0] == s[k as int]);
                    assert(t.subrange(1, t.len() as int) =~= s.subrange(k + 1, s.len() as int));
                }
                collect_refs(&items[k], into);
                proof {
                    assert(before + item_refs(t) =~= into@ + item_refs(s.subrange(k + 1, s.len() as int)));
                }
                k = k + 1;
            }
            proof {
                assert(s.subrange(k as int, s.len() as int) =~= Seq::<ObjectView>::empty());
                assert(into@ + Seq::<u32>::empty() =~= into@);
            }
        },
        Object::Dict(d) => collect_entry_refs(d, into),
        Object::Stream { dict, .. } => collect_entry_refs(dict, into),
        _ => {
            assert(into@ + Seq::<u32>::empty() =~= into@);
        },
    }
}

/// Append the numbers the values of `d` refer to, in order.
fn collect_entry_refs(d: &Dict, into: &mut Vec<u32>)
    ensures
        final(into)@ == old(into)@ + entry_refs(d@),
    decreases entry_sizes(d@) + 1, 0nat,
{
    let ghost s = d@;
    let ghost start = into@;
    let entries = d.entries();
    proof { lemma_entries_view(entries@); }
    let mut k: usize = 0;
    assert(s.subrange(0, s.len() as int) =~= s);
    assert(start + Seq::<u32>::empty() =~= start);
    while k < entries.len()
        invariant
            k <= entries@.len(),
            s == d@,
            s == entries_view(entries@),
            s.len() == entries@.len(),
            forall|j: int| 0 <= j < entries@.len() ==> #[trigger] s[j] == (entries@[j].0.0@, entries@[j].1@),
            start + entry_refs(s) == into@ + entry_refs(s.subrange(k as int, s.len() as int)),
        decreases entries@.len() - k,
    {
        let ghost t = s.subrange(k as int, s.len() as int);
        let ghost before = into@;
        proof {
            lemma_entry_sizes_at(s, k as int);
            assert(t[0] == s[k as int]);
            assert(t.subrange(1, t.len() as int) =~= s.subrange(k + 1, s.len() as int));
        }
        collect_refs(&entries[k].1, into);
        proof {
            assert(before + entry_refs(t) =~= into@ + entry_refs(s.subrange(k + 1, s.len() as int)));
        }
        k = k + 1;
    }
    proof {
        assert(s.subrange(k as int, s.len() as int) =~= Seq::<(Seq<u8>, ObjectView)>::empty());
        assert(into@ + Seq::<u32>::empty() =~= into@);
    }
}

/// What a closed set holding the roots holds everything reached.
proof fn lemma_reached_within(m: Map<u32, Object>, roots: Seq<u32>, found: Set<u32>, k: nat)
    requires
        forall|n: u32| roots.contains(n) ==> found.contains(n),
        forall|p: u32, j: int| found.contains(p) && m.contains_key(p) && 0 <= j < refs(m[p]@).len() ==> found.contains(#[trigger] refs(m[p]@)[j]),
    ensures
        reached(m, roots, k).subset_of(found),
    decreases k,
{
    if k > 0 {
        lemma_reached_within(m, roots, found, (k - 1) as nat);
        let prev = reached(m, roots, (k - 1) as nat);
        assert forall|n: u32| reached(m, roots, k).contains(n) implies found.contains(n) by {
            if !prev.contains(n) {
                let p = choose|p: u32| #[trigger] prev.contains(p) && m.contains_key(p) && refs(m[p]@).contains(n);
                let j = choose|j: int| 0 <= j < refs(m[p]@).len() && refs(m[p]@)[j] == n;
            }
        }
    }
}

/// What an object reached refers to is reached one step further.
proof fn lemma_reached_step(m: Map<u32, Object>, roots: Seq<u32>, k: nat, p: u32, n: u32)
    requires
        reached(m, roots, k).contains(p),
        m.contains_key(p),
        refs(m[p]@).contains(n),
    ensures
        reached(m, roots, k + 1).contains(n),
{
    let prev = reached(m, roots, k);
    assert(prev.contains(p) && m.contains_key(p) && refs(m[p]@).contains(n));
}

/// Keep only the objects reachable from the trailer.
pub fn sweep(out: &mut BTreeMap<u32, Object>, trailer: &Dict)
    ensures
        final(out)@ == old(out)@.restrict(Set::new(|n: u32| reachable(old(out)@, entry_refs(trailer@), n))),
{
    let ghost m = out@;
    let ghost roots = entry_refs(trailer@);
    proof { vstd::std_specs::btree::axiom_btree_map_view_finite_dom(*out); }
    let mut stack: Vec<u32> = Vec::new();
    collect_entry_refs(trailer, &mut stack);
    assert(stack@ =~= roots);
    let mut found: BTreeSet<u32> = BTreeSet::new();
    proof {
        assert forall|n: u32| stack@.contains(n) implies reachable(m, roots, n) by {
            assert(reached(m, roots, 0).contains(n));
        }
    }
    while stack.len() > 0
        invariant
            out@ == m,
            m.dom().finite(),
            forall|n: u32| #[trigger] found@.contains(n) ==> reachable(m, roots, n),
            forall|n: u32| #[trigger] stack@.contains(n) ==> reachable(m, roots, n),
            forall|n: u32| #[trigger] roots.contains(n) ==> found@.contains(n) || stack@.contains(n),
            forall|p: u32, j: int| found@.contains(p) && m.contains_key(p) && 0 <= j < refs(m[p]@).len()
                ==> found@.contains(#[trigger] refs(m[p]@)[j]) || stack@.contains(refs(m[p]@)[j]),
        decreases m.dom().difference(found@).len(), stack@.len(),
    {
        let ghost before = stack@;
        let num = stack.pop().unwrap();
        proof {
            assert(before =~= stack@.push(num));
            assert(before.contains(num));
            assert forall|n: u32| before.contains(n) && n != num implies stack@.contains(n) by {
                let i = choose|i: int| 0 <= i < before.len() && before[i] == n;
                assert(i < stack@.len());
                assert(stack@[i] == n);
            }
            assert forall|n: u32| #[trigger] stack@.contains(n) implies reachable(m, roots, n) by {
                let i = choose|i: int| 0 <= i < stack@.len() && stack@[i] == n;
                assert(before[i] == n);
                assert(before.contains(n));
            }
        }
        let ghost old_found = found@;
        if !found.insert(num) {
            proof { assert(found@ =~= old_found); }
            continue;
        }
        proof {
            if m.contains_key(num) {
                m.dom().lemma_set_insert_diff_decreases(old_found, num);
            } else {
                assert(m.dom().difference(found@) =~= m.dom().difference(old_found));
            }
        }
        let ghost popped = stack@;
        match out.get(&num) {
            Some(obj) => {
                collect_refs(obj, &mut stack);
                proof {
                    let k = choose|k: nat| #[trigger] reached(m, roots, k).contains(num);
                    assert forall|n: u32| #[trigger] stack@.contains(n) implies reachable(m, roots, n) by {
                        let i = choose|i: int| 0 <= i < stack@.len() && stack@[i] == n;
                        if i >= popped.len() {
                            assert(refs(m[num]@)[i - popped.len()] == n);
                            lemma_reached_step(m, roots, k, num, n);
                        } else {
                            assert(popped[i] == n);
                            assert(popped.contains(n));
                        }
                    }
                    assert forall|p: u32, j: int| found@.contains(p) && m.contains_key(p) && 0 <= j < refs(m[p]@).len()
                        implies found@.contains(#[trigger] refs(m[p]@)[j]) || stack@.contains(refs(m[p]@)[j]) by {
                        if p == num {
                            assert(stack@[popped.len() + j] == refs(m[p]@)[j]);
                        } else {
                            let x = refs(m[p]@)[j];
                            if popped.contains(x) {
                                let i = choose|i: int| 0 <= i < popped.len() && popped[i] == x;
                                assert(stack@[i] == x);
                            }
                        }
                    }
                    assert forall|n: u32| #[trigger] roots.contains(n) implies found@.contains(n) || stack@.contains(n) by {
                        if popped.contains(n) {
                            let i = choose|i: int| 0 <= i < popped.len() && popped[i] == n;
                            assert(stack@[i] == n);
                        }
                    }
                }
            },
            None => {},
        }
    }
    proof {
        lemma_reached_within(m, roots, found@, 0);
        assert forall|n: u32| reachable(m, roots, n) implies found@.contains(n) by {
            let k = choose|k: nat| #[trigger] reached(m, roots, k).contains(n);
            lemma_reached_within(m, roots, found@, k);
        }
    }
    let keys = numbers_of(out);
    let mut i: usize = 0;
    while i < keys.len()
        invariant
            i <= keys@.len(),
            keys@.to_set() == m.dom(),
            keys@.no_duplicates(),
            forall|n: u32| #[trigger] out@.contains_key(n) == (m.contains_key(n) && (found@.contains(n) || !keys@.take(i as int).contains(n))),
            forall|n: u32| #[trigger] out@.contains_key(n) ==> out@[n] == m[n],
        decreases keys@.len() - i,
    {
        let k = keys[i];
        let ghost before_out = out@;
        let keep = found.contains(&k);
        if !keep {
            let _ = out.remove(&k);
        }
        proof {
            broadcast use vstd::std_specs::btree::group_btree_axioms;
            assert(keys@.take(i + 1) =~= keys@.take(i as int).push(k));
            if !keep {
                assert(out@ == before_out.remove(k));
            }
            assert forall|n: u32| #[trigger] out@.contains_key(n) == (m.contains_key(n) && (found@.contains(n) || !keys@.take(i + 1).contains(n))) by {
                if n != k {
                    assert(keys@.take(i + 1).contains(n) == keys@.take(i as int).contains(n));
                } else {
                    assert(keys@.take(i + 1)[i as int] == k);
                }
            }
        }
        i = i + 1;
    }
    proof {
        assert(keys@.take(keys@.len() as int) =~= keys@);
        assert forall|n: u32| m.contains_key(n) implies keys@.contains(n) by {
            assert(keys@.to_set().contains(n));
        }
        assert(out@ =~= m.restrict(Set::new(|n: u32| reachable(m, roots, n))));
    }
}

} // verus!
