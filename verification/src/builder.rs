//! Building an output document out of the pages of one or more sources:
//! the objects reachable from the kept pages, the catalog and the
//! information dictionary are copied under new numbers, a reference to a
//! page that is not kept becomes `null`, and the page tree of the output
//! is flat (ISO 32000-2, 7.7.3).

use crate::cleanup::{clean_dead_destinations, size, sweep};
use crate::document::Document;
use crate::object::{copy_dict, copy_object, dict_get, dict_insert, dict_remove, Dict, Name, ObjRef, Object, ObjectView};
use crate::pagetree::{key_of, page_walk, pages_view, ref_key, walk, Page};
use crate::ops::{check_selection, selection_ok, selection_refusal_is};
use crate::text::{decimal, push_decimal, push_signed, push_str, signed_decimal, string_of};
use core::ops::Range;
use crate::version::PdfVersion;
use crate::writer::{file_bytes, Writer, XrefStyle};
use crate::Error;
use std::collections::{BTreeMap, BTreeSet};
use vstd::prelude::*;
use vstd::string::StringSliceAdditionalSpecFns;

verus! {

/// A source document with its page list.
struct Source<'d, 'a> {
    doc: &'d Document<'a>,
    pages: Vec<Page>,
}

/// How a kept page is changed on its way out: the pages at the selected
/// positions of the output turned by `degrees`.
struct Turn {
    selected: Vec<bool>,
    degrees: i32,
}

/// Copies objects from the sources into a new numbering, on demand.
struct Builder<'d, 'a> {
    sources: Vec<Source<'d, 'a>>,
    /// Source object (see [`source_key`]) to output number.
    map: BTreeMap<u128, u32>,
    /// The pages not kept and the page-tree nodes: a reference to them is
    /// `null`.
    dropped: BTreeSet<u128>,
    /// Objects given a number but not copied yet, from `head` on.
    queue: Vec<(usize, ObjRef, u32)>,
    head: usize,
    out: BTreeMap<u32, Object>,
    next: u32,
}

/// `src` is `doc` with the pages its page tree holds, in reading order.
spec fn sourced(src: Source, doc: &Document) -> bool {
    &&& src.doc == doc
    &&& page_walk(doc) matches Some((ps, _)) && pages_view(src.pages@) == ps
}

/// An error of the operation itself.
pub fn operation(message: &str) -> (e: Error)
    ensures
        e matches Error::BadOperation { message: m } && m@ == message@,
{
    Error::BadOperation { message: string_of(message) }
}

/// The key of object `r` of source `i`: one number per pair.
pub open spec fn source_key_of(i: usize, r: ObjRef) -> u128 {
    (i * 281474976710656 + ref_key(r)) as u128
}

fn source_key(i: usize, r: ObjRef) -> (k: u128)
    ensures
        k == source_key_of(i, r),
{
    (i as u128) * 281474976710656 + (key_of(r) as u128)
}

/// Where a reference of source `i` leads in the output under `m`: the
/// object `m` numbers it, or `null`.
pub open spec fn remapped_ref(i: usize, r: ObjRef, m: Map<u128, u32>) -> ObjectView {
    if m.contains_key(source_key_of(i, r)) {
        ObjectView::Reference(ObjRef { num: m[source_key_of(i, r)], gen: 0 })
    } else {
        ObjectView::Null
    }
}

/// An object of source `i` as copied into the output under `m`: its
/// references remapped, a stream's `/Length` left out.
pub open spec fn remap(o: ObjectView, i: usize, m: Map<u128, u32>) -> ObjectView
    decreases size(o), 1nat,
{
    match o {
        ObjectView::Reference(r) => remapped_ref(i, r, m),
        ObjectView::Array(items) => ObjectView::Array(remap_items(items, i, m)),
        ObjectView::Dict(d) => ObjectView::Dict(remap_entries(d, i, m)),
        ObjectView::Stream(d, data) => {
            proof {
                crate::cleanup::lemma_dict_remove_smaller(d, "Length".spec_bytes());
            }
            ObjectView::Stream(remap_entries(dict_remove(d, "Length".spec_bytes()), i, m), data)
        },
        _ => o,
    }
}

/// Items each remapped.
pub open spec fn remap_items(s: Seq<ObjectView>, i: usize, m: Map<u128, u32>) -> Seq<ObjectView>
    decreases crate::cleanup::sizes(s), 2nat,
{
    if s.len() == 0 {
        s
    } else {
        proof {
            crate::cleanup::lemma_size_positive(s[0]);
        }
        seq![remap(s[0], i, m)] + remap_items(s.subrange(1, s.len() as int), i, m)
    }
}

/// Entries with each value remapped, the keys kept.
pub open spec fn remap_entries(d: Seq<(Seq<u8>, ObjectView)>, i: usize, m: Map<u128, u32>) -> Seq<(Seq<u8>, ObjectView)>
    decreases crate::cleanup::entry_sizes(d), 2nat,
{
    if d.len() == 0 {
        d
    } else {
        proof {
            crate::cleanup::lemma_size_positive(d[0].1);
        }
        seq![(d[0].0, remap(d[0].1, i, m))] + remap_entries(d.subrange(1, d.len() as int), i, m)
    }
}

/// Every reference of `o` (a stream's `/Length` aside) is numbered by `m`
/// or dropped.
pub open spec fn covered(o: ObjectView, i: usize, m: Map<u128, u32>, dropped: Set<u128>) -> bool
    decreases size(o), 1nat,
{
    match o {
        ObjectView::Reference(r) => m.contains_key(source_key_of(i, r)) || dropped.contains(source_key_of(i, r)),
        ObjectView::Array(items) => covered_items(items, i, m, dropped),
        ObjectView::Dict(d) => covered_entries(d, i, m, dropped),
        ObjectView::Stream(d, data) => {
            proof {
                crate::cleanup::lemma_dict_remove_smaller(d, "Length".spec_bytes());
            }
            covered_entries(dict_remove(d, "Length".spec_bytes()), i, m, dropped)
        },
        _ => true,
    }
}

pub open spec fn covered_items(s: Seq<ObjectView>, i: usize, m: Map<u128, u32>, dropped: Set<u128>) -> bool
    decreases crate::cleanup::sizes(s), 2nat,
{
    if s.len() == 0 {
        true
    } else {
        proof {
            crate::cleanup::lemma_size_positive(s[0]);
        }
        covered(s[0], i, m, dropped) && covered_items(s.subrange(1, s.len() as int), i, m, dropped)
    }
}

pub open spec fn covered_entries(d: Seq<(Seq<u8>, ObjectView)>, i: usize, m: Map<u128, u32>, dropped: Set<u128>) -> bool
    decreases crate::cleanup::entry_sizes(d), 2nat,
{
    if d.len() == 0 {
        true
    } else {
        proof {
            crate::cleanup::lemma_size_positive(d[0].1);
        }
        covered(d[0].1, i, m, dropped) && covered_entries(d.subrange(1, d.len() as int), i, m, dropped)
    }
}

/// `m2` keeps every number of `m1`, and numbers nothing dropped that `m1`
/// did not.
pub open spec fn extends(m1: Map<u128, u32>, m2: Map<u128, u32>, dropped: Set<u128>) -> bool {
    &&& forall|k: u128| #[trigger] m1.contains_key(k) ==> m2.contains_key(k) && m2[k] == m1[k]
    &&& forall|k: u128| #[trigger] m2.contains_key(k) && !m1.contains_key(k) ==> !dropped.contains(k)
}

/// What the output holds for object `r` of source `i` once copied under
/// `m`: the object remapped, or `null` when it cannot be read.
pub open spec fn copied_of(doc: &Document, r: ObjRef, i: usize, m: Map<u128, u32>) -> ObjectView {
    match doc.object_of(r) {
        Ok(Some(v)) => remap(v, i, m),
        _ => ObjectView::Null,
    }
}

/// Every reference of object `r` of source `i` is numbered or dropped.
pub open spec fn copied_covered(doc: &Document, r: ObjRef, i: usize, m: Map<u128, u32>, dropped: Set<u128>) -> bool {
    match doc.object_of(r) {
        Ok(Some(v)) => covered(v, i, m, dropped),
        _ => true,
    }
}

proof fn lemma_prefix_trans<T>(a: Seq<T>, b: Seq<T>, c: Seq<T>)
    requires
        a.len() <= b.len() <= c.len(),
        b.take(a.len() as int) == a,
        c.take(b.len() as int) == b,
    ensures
        c.take(a.len() as int) == a,
{
    assert forall|j: int| 0 <= j < a.len() implies c.take(a.len() as int)[j] == a[j] by {
        assert(c.take(b.len() as int)[j] == b[j]);
        assert(b.take(a.len() as int)[j] == a[j]);
    }
    assert(c.take(a.len() as int) =~= a);
}

/// The fields of an interactive form dictionary: `None` when `/Fields`
/// cannot be followed.
spec fn form_fields_of(doc: &Document, f: Seq<(Seq<u8>, ObjectView)>) -> Option<Seq<ObjectView>> {
    match dict_get(f, "Fields".spec_bytes()) {
        None => Some(Seq::empty()),
        Some(x) => match doc.followed(x) {
            None => None,
            Some(ObjectView::Array(items)) => Some(items),
            Some(_) => Some(Seq::empty()),
        },
    }
}

/// The interactive form of a document and its fields: `None` when its
/// catalog, its `/AcroForm` or its `/Fields` cannot be followed, `Some(None)`
/// when it has no form dictionary.
spec fn source_form(doc: &Document) -> Option<Option<(Seq<(Seq<u8>, ObjectView)>, Seq<ObjectView>)>> {
    match crate::document::catalog_of(doc, doc.table().trailer) {
        Err(_) => None,
        Ok(cat) => match dict_get(cat, "AcroForm".spec_bytes()) {
            None => Some(None),
            Some(e) => match doc.followed(e) {
                None => None,
                Some(ObjectView::Dict(f)) => match form_fields_of(doc, f) {
                    None => None,
                    Some(items) => Some(Some((f, items))),
                },
                Some(_) => Some(None),
            },
        },
    }
}

/// The forms of the first `n` sources merged under `m`: the form
/// dictionary of the first that has one, remapped, and the fields of all,
/// remapped, in order. `None` when one cannot be followed.
spec fn forms_upto(srcs: Seq<Source>, m: Map<u128, u32>, n: int) -> Option<(Option<Seq<(Seq<u8>, ObjectView)>>, Seq<ObjectView>)>
    decreases n,
{
    if n <= 0 {
        Some((None, Seq::empty()))
    } else {
        match forms_upto(srcs, m, n - 1) {
            None => None,
            Some((base, fields)) => match source_form(srcs[n - 1].doc) {
                None => None,
                Some(None) => Some((base, fields)),
                Some(Some((f, items))) => Some((
                    if base is None {
                        Some(remap_entries(f, (n - 1) as usize, m))
                    } else {
                        base
                    },
                    fields + remap_items(items, (n - 1) as usize, m),
                )),
            },
        }
    }
}

/// Every reference the merged forms of the first `n` sources carry is
/// numbered or dropped.
spec fn forms_covered(srcs: Seq<Source>, m: Map<u128, u32>, dropped: Set<u128>, n: int) -> bool
    decreases n,
{
    if n <= 0 {
        true
    } else {
        &&& forms_covered(srcs, m, dropped, n - 1)
        &&& match source_form(srcs[n - 1].doc) {
            Some(Some((f, items))) => {
                &&& covered_items(items, (n - 1) as usize, m, dropped)
                &&& (forms_upto(srcs, m, n - 1) matches Some((None, _)) ==> covered_entries(f, (n - 1) as usize, m, dropped))
            },
            _ => true,
        }
    }
}

/// Whether the merged forms come out with a dictionary does not depend
/// on the numbering.
proof fn lemma_forms_base_shape(srcs: Seq<Source>, m1: Map<u128, u32>, m2: Map<u128, u32>, n: int)
    ensures
        forms_upto(srcs, m1, n) is None <==> forms_upto(srcs, m2, n) is None,
        forms_upto(srcs, m1, n) matches Some((b, _)) ==> (forms_upto(srcs, m2, n) matches Some((c, _)) && (b is None <==> c is None)),
    decreases n,
{
    if n > 0 {
        lemma_forms_base_shape(srcs, m1, m2, n - 1);
    }
}

/// A failure on source `n` is a failure of the whole merge.
proof fn lemma_forms_none_after(srcs: Seq<Source>, m: Map<u128, u32>, n: int, total: int)
    requires
        0 <= n < total,
        n < srcs.len(),
        source_form(srcs[n].doc) is None,
    ensures
        forms_upto(srcs, m, total) is None,
    decreases total - n,
{
    if total > n + 1 {
        lemma_forms_none_after(srcs, m, n, total - 1);
    }
}

/// Once covered, the merged forms stay the same under any extension.
proof fn lemma_forms_stable(srcs: Seq<Source>, m1: Map<u128, u32>, m2: Map<u128, u32>, dropped: Set<u128>, n: int)
    requires
        extends(m1, m2, dropped),
        forms_covered(srcs, m1, dropped, n),
    ensures
        forms_upto(srcs, m2, n) == forms_upto(srcs, m1, n),
        forms_covered(srcs, m2, dropped, n),
    decreases n,
{
    if n > 0 {
        lemma_forms_stable(srcs, m1, m2, dropped, n - 1);
        match source_form(srcs[n - 1].doc) {
            Some(Some((f, items))) => {
                lemma_remap_items_stable(items, (n - 1) as usize, m1, m2, dropped);
                if forms_upto(srcs, m1, n - 1) matches Some((None, _)) {
                    lemma_remap_entries_stable(f, (n - 1) as usize, m1, m2, dropped);
                }
            },
            _ => {},
        }
    }
}

/// `merged` with the first `n` of `pairs` merged in, each name whose
/// merged value is not there yet taking its value remapped under `m`.
spec fn merge_upto(merged: Seq<(Seq<u8>, ObjectView)>, pairs: Seq<(Seq<u8>, ObjectView)>, n: int, i: usize, m: Map<u128, u32>) -> Seq<(Seq<u8>, ObjectView)>
    decreases n,
{
    if n <= 0 {
        merged
    } else {
        let prev = merge_upto(merged, pairs, n - 1, i, m);
        if dict_get(prev, pairs[n - 1].0) is Some {
            prev
        } else {
            dict_insert(prev, pairs[n - 1].0, remap(pairs[n - 1].1, i, m))
        }
    }
}

/// The values merged in are covered.
spec fn merge_covered(merged: Seq<(Seq<u8>, ObjectView)>, pairs: Seq<(Seq<u8>, ObjectView)>, n: int, i: usize, m: Map<u128, u32>, dropped: Set<u128>) -> bool
    decreases n,
{
    if n <= 0 {
        true
    } else {
        &&& merge_covered(merged, pairs, n - 1, i, m, dropped)
        &&& (dict_get(merge_upto(merged, pairs, n - 1, i, m), pairs[n - 1].0) is None ==> covered(pairs[n - 1].1, i, m, dropped))
    }
}

proof fn lemma_merge_stable(merged: Seq<(Seq<u8>, ObjectView)>, pairs: Seq<(Seq<u8>, ObjectView)>, n: int, i: usize, m1: Map<u128, u32>, m2: Map<u128, u32>, dropped: Set<u128>)
    requires
        extends(m1, m2, dropped),
        merge_covered(merged, pairs, n, i, m1, dropped),
    ensures
        merge_upto(merged, pairs, n, i, m2) == merge_upto(merged, pairs, n, i, m1),
        merge_covered(merged, pairs, n, i, m2, dropped),
    decreases n,
{
    if n > 0 {
        lemma_merge_stable(merged, pairs, n - 1, i, m1, m2, dropped);
        if dict_get(merge_upto(merged, pairs, n - 1, i, m1), pairs[n - 1].0) is None {
            lemma_remap_stable(pairs[n - 1].1, i, m1, m2, dropped);
        }
    }
}

/// What a document brings to the merged named destinations: the entries
/// of its catalog's `/Dests` dictionary and the pairs of its `/Names
/// /Dests` tree, each where it has one; `None` when one cannot be
/// followed.
spec fn source_dests(doc: &Document) -> Option<(Option<Seq<(Seq<u8>, ObjectView)>>, Option<Seq<(Seq<u8>, ObjectView)>>)> {
    match crate::document::catalog_of(doc, doc.table().trailer) {
        Err(_) => None,
        Ok(cat) => {
            let od = match dict_get(cat, "Dests".spec_bytes()) {
                None => Some(None),
                Some(d) => match doc.followed(d) {
                    None => None,
                    Some(ObjectView::Dict(x)) => Some(Some(x)),
                    Some(_) => Some(None),
                },
            };
            let tp = match dict_get(cat, "Names".spec_bytes()) {
                None => Some(None),
                Some(n) => match doc.followed(n) {
                    None => None,
                    Some(ObjectView::Dict(names)) => match dict_get(names, "Dests".spec_bytes()) {
                        None => Some(None),
                        Some(t) => match name_tree_walk(doc, seq![t], Set::empty(), Seq::empty(), crate::pagetree::MAX_PAGE_TREE_STEPS as nat) {
                            None => None,
                            Some(p) => Some(Some(p)),
                        },
                    },
                    Some(_) => Some(None),
                },
            };
            match (od, tp) {
                (Some(a), Some(b)) => Some((a, b)),
                _ => None,
            }
        },
    }
}

/// The named destinations of the first `n` sources merged under `m`, the
/// first winning on a duplicate name, and whether any source had some.
spec fn dests_upto(srcs: Seq<Source>, m: Map<u128, u32>, n: int) -> Option<(bool, Seq<(Seq<u8>, ObjectView)>)>
    decreases n,
{
    if n <= 0 {
        Some((false, Seq::empty()))
    } else {
        match dests_upto(srcs, m, n - 1) {
            None => None,
            Some((found, merged)) => match source_dests(srcs[n - 1].doc) {
                None => None,
                Some((od, tp)) => {
                    let merged1 = match od {
                        Some(x) => merge_upto(merged, x, x.len() as int, (n - 1) as usize, m),
                        None => merged,
                    };
                    let merged2 = match tp {
                        Some(p) => merge_upto(merged1, p, p.len() as int, (n - 1) as usize, m),
                        None => merged1,
                    };
                    Some((found || od is Some || tp is Some, merged2))
                },
            },
        }
    }
}

/// The values merged from the first `n` sources are covered.
spec fn dests_covered(srcs: Seq<Source>, m: Map<u128, u32>, dropped: Set<u128>, n: int) -> bool
    decreases n,
{
    if n <= 0 {
        true
    } else {
        &&& dests_covered(srcs, m, dropped, n - 1)
        &&& match (dests_upto(srcs, m, n - 1), source_dests(srcs[n - 1].doc)) {
            (Some((_, merged)), Some((od, tp))) => {
                let merged1 = match od {
                    Some(x) => merge_upto(merged, x, x.len() as int, (n - 1) as usize, m),
                    None => merged,
                };
                &&& (od matches Some(x) ==> merge_covered(merged, x, x.len() as int, (n - 1) as usize, m, dropped))
                &&& (tp matches Some(p) ==> merge_covered(merged1, p, p.len() as int, (n - 1) as usize, m, dropped))
            },
            _ => true,
        }
    }
}

proof fn lemma_dests_stable(srcs: Seq<Source>, m1: Map<u128, u32>, m2: Map<u128, u32>, dropped: Set<u128>, n: int)
    requires
        extends(m1, m2, dropped),
        dests_covered(srcs, m1, dropped, n),
    ensures
        dests_upto(srcs, m2, n) == dests_upto(srcs, m1, n),
        dests_covered(srcs, m2, dropped, n),
    decreases n,
{
    if n > 0 {
        lemma_dests_stable(srcs, m1, m2, dropped, n - 1);
        match (dests_upto(srcs, m1, n - 1), source_dests(srcs[n - 1].doc)) {
            (Some((_, merged)), Some((od, tp))) => {
                let i = (n - 1) as usize;
                let merged1 = match od {
                    Some(x) => {
                        lemma_merge_stable(merged, x, x.len() as int, i, m1, m2, dropped);
                        merge_upto(merged, x, x.len() as int, i, m1)
                    },
                    None => merged,
                };
                match tp {
                    Some(p) => lemma_merge_stable(merged1, p, p.len() as int, i, m1, m2, dropped),
                    None => {},
                }
            },
            _ => {},
        }
    }
}

proof fn lemma_dests_none_after(srcs: Seq<Source>, m: Map<u128, u32>, n: int, total: int)
    requires
        0 <= n < total,
        n < srcs.len(),
        source_dests(srcs[n].doc) is None,
    ensures
        dests_upto(srcs, m, total) is None,
    decreases total - n,
{
    if total > n + 1 {
        lemma_dests_none_after(srcs, m, n, total - 1);
    }
}

/// The flat `/Names` array of a leaf holding `merged`: each name as a
/// string, then its value.
pub open spec fn leaf_of(merged: Seq<(Seq<u8>, ObjectView)>) -> Seq<ObjectView>
    decreases merged.len(),
{
    if merged.len() == 0 {
        Seq::empty()
    } else {
        leaf_of(merged.drop_last()) + seq![ObjectView::String(merged.last().0), merged.last().1]
    }
}

/// The leaf node of the merged destinations.
pub open spec fn dests_node(merged: Seq<(Seq<u8>, ObjectView)>) -> Seq<(Seq<u8>, ObjectView)> {
    dict_insert(Seq::empty(), "Names".spec_bytes(), ObjectView::Array(leaf_of(merged)))
}

/// Where the merged destinations go in the output: nowhere when no
/// source had any or the output has no catalog dictionary at
/// `catalog_num`; else the catalog loses its `/Dests` and its `/Names`
/// dictionary (held directly, or made anew; or, when held by reference,
/// the object referred to) gets `/Dests` set to the leaf node.
pub open spec fn named_dests_placed(before: Map<u32, Object>, after: Map<u32, Object>, catalog_num: u32, found: bool, merged: Seq<(Seq<u8>, ObjectView)>) -> bool {
    if !found || !before.contains_key(catalog_num) || !(before[catalog_num]@ is Dict) {
        after == before
    } else {
        let c1 = dict_remove(before[catalog_num]@->Dict_0, "Dests".spec_bytes());
        let node = ObjectView::Dict(dests_node(merged));
        &&& after.dom() == before.dom()
        &&& match dict_get(c1, "Names".spec_bytes()) {
            Some(ObjectView::Reference(r)) => {
                &&& after[catalog_num]@ == ObjectView::Dict(c1)
                &&& r.num != catalog_num && before.contains_key(r.num) ==> match before[r.num]@ {
                    ObjectView::Dict(nd) => after[r.num]@ == ObjectView::Dict(dict_insert(nd, "Dests".spec_bytes(), node)),
                    _ => after[r.num] == before[r.num],
                }
                &&& forall|k: u32| k != catalog_num && k != r.num && #[trigger] before.contains_key(k) ==> after[k] == before[k]
            },
            Some(ObjectView::Dict(nd)) => {
                &&& after[catalog_num]@ == ObjectView::Dict(dict_insert(c1, "Names".spec_bytes(), ObjectView::Dict(dict_insert(nd, "Dests".spec_bytes(), node))))
                &&& forall|k: u32| k != catalog_num && #[trigger] before.contains_key(k) ==> after[k] == before[k]
            },
            _ => {
                &&& after[catalog_num]@ == ObjectView::Dict(dict_insert(c1, "Names".spec_bytes(), ObjectView::Dict(dict_insert(Seq::empty(), "Dests".spec_bytes(), node))))
                &&& forall|k: u32| k != catalog_num && #[trigger] before.contains_key(k) ==> after[k] == before[k]
            },
        }
    }
}

/// The entries of `d` as name and value pairs.
fn entry_pairs(d: &Dict) -> (r: Vec<(Vec<u8>, Object)>)
    ensures
        pairs_view(r@) == d@,
{
    let entries = d.entries();
    proof { crate::object::lemma_entries_view(entries@); }
    let mut out: Vec<(Vec<u8>, Object)> = Vec::new();
    let mut k: usize = 0;
    while k < entries.len()
        invariant
            k <= entries@.len(),
            d@ == crate::object::entries_view(entries@),
            d@.len() == entries@.len(),
            forall|x: int| 0 <= x < entries@.len() ==> #[trigger] d@[x] == (entries@[x].0.0@, entries@[x].1@),
            pairs_view(out@) == d@.take(k as int),
            out@.len() == k,
        decreases entries@.len() - k,
    {
        let ghost before = out@;
        out.push((entries[k].0.0.clone(), copy_object(&entries[k].1)));
        proof {
            assert forall|x: int| 0 <= x < k + 1 implies #[trigger] pairs_view(out@)[x] == d@.take(k + 1)[x] by {
                if x < k {
                    assert(out@[x] == before[x]);
                    assert(pairs_view(before)[x] == d@.take(k as int)[x]);
                }
            }
            assert(pairs_view(out@) =~= d@.take(k + 1));
        }
        k = k + 1;
    }
    assert(d@.take(d@.len() as int) =~= d@);
    out
}

/// Once covered, an object is remapped the same under any extension.
proof fn lemma_remap_stable(o: ObjectView, i: usize, m1: Map<u128, u32>, m2: Map<u128, u32>, dropped: Set<u128>)
    requires
        extends(m1, m2, dropped),
        covered(o, i, m1, dropped),
    ensures
        remap(o, i, m2) == remap(o, i, m1),
        covered(o, i, m2, dropped),
    decreases size(o), 1nat,
{
    match o {
        ObjectView::Reference(r) => {
            let k = source_key_of(i, r);
            if m1.contains_key(k) {
                assert(m2.contains_key(k));
            }
        },
        ObjectView::Array(items) => lemma_remap_items_stable(items, i, m1, m2, dropped),
        ObjectView::Dict(d) => lemma_remap_entries_stable(d, i, m1, m2, dropped),
        ObjectView::Stream(d, _) => {
            crate::cleanup::lemma_dict_remove_smaller(d, "Length".spec_bytes());
            lemma_remap_entries_stable(dict_remove(d, "Length".spec_bytes()), i, m1, m2, dropped);
        },
        _ => {},
    }
}

proof fn lemma_remap_items_stable(s: Seq<ObjectView>, i: usize, m1: Map<u128, u32>, m2: Map<u128, u32>, dropped: Set<u128>)
    requires
        extends(m1, m2, dropped),
        covered_items(s, i, m1, dropped),
    ensures
        remap_items(s, i, m2) == remap_items(s, i, m1),
        covered_items(s, i, m2, dropped),
    decreases crate::cleanup::sizes(s), 2nat,
{
    if s.len() > 0 {
        crate::cleanup::lemma_size_positive(s[0]);
        lemma_remap_stable(s[0], i, m1, m2, dropped);
        lemma_remap_items_stable(s.subrange(1, s.len() as int), i, m1, m2, dropped);
    }
}

proof fn lemma_remap_entries_stable(d: Seq<(Seq<u8>, ObjectView)>, i: usize, m1: Map<u128, u32>, m2: Map<u128, u32>, dropped: Set<u128>)
    requires
        extends(m1, m2, dropped),
        covered_entries(d, i, m1, dropped),
    ensures
        remap_entries(d, i, m2) == remap_entries(d, i, m1),
        covered_entries(d, i, m2, dropped),
    decreases crate::cleanup::entry_sizes(d), 2nat,
{
    if d.len() > 0 {
        crate::cleanup::lemma_size_positive(d[0].1);
        lemma_remap_stable(d[0].1, i, m1, m2, dropped);
        lemma_remap_entries_stable(d.subrange(1, d.len() as int), i, m1, m2, dropped);
    }
}

/// The remapped items, item by item.
proof fn lemma_remap_items_index(s: Seq<ObjectView>, i: usize, m: Map<u128, u32>, dropped: Set<u128>)
    ensures
        remap_items(s, i, m).len() == s.len(),
        forall|j: int| 0 <= j < s.len() ==> #[trigger] remap_items(s, i, m)[j] == remap(s[j], i, m),
        covered_items(s, i, m, dropped) == forall|j: int| 0 <= j < s.len() ==> #[trigger] covered(s[j], i, m, dropped),
    decreases s.len(),
{
    if s.len() > 0 {
        let rest = s.subrange(1, s.len() as int);
        lemma_remap_items_index(rest, i, m, dropped);
        assert forall|j: int| 0 <= j < s.len() implies #[trigger] remap_items(s, i, m)[j] == remap(s[j], i, m) by {
            if j > 0 {
                assert(rest[j - 1] == s[j]);
            }
        }
        if !covered_items(s, i, m, dropped) {
            if covered(s[0], i, m, dropped) {
                let j = choose|j: int| 0 <= j < rest.len() && !covered(rest[j], i, m, dropped);
                assert(rest[j] == s[j + 1]);
            }
        } else {
            assert forall|j: int| 0 <= j < s.len() implies #[trigger] covered(s[j], i, m, dropped) by {
                if j > 0 {
                    assert(rest[j - 1] == s[j]);
                }
            }
        }
    }
}

/// The remapped entries, entry by entry.
proof fn lemma_remap_entries_index(d: Seq<(Seq<u8>, ObjectView)>, i: usize, m: Map<u128, u32>, dropped: Set<u128>)
    ensures
        remap_entries(d, i, m).len() == d.len(),
        forall|j: int| 0 <= j < d.len() ==> #[trigger] remap_entries(d, i, m)[j] == (d[j].0, remap(d[j].1, i, m)),
        covered_entries(d, i, m, dropped) == forall|j: int| 0 <= j < d.len() ==> #[trigger] covered(d[j].1, i, m, dropped),
    decreases d.len(),
{
    if d.len() > 0 {
        let rest = d.subrange(1, d.len() as int);
        lemma_remap_entries_index(rest, i, m, dropped);
        assert forall|j: int| 0 <= j < d.len() implies #[trigger] remap_entries(d, i, m)[j] == (d[j].0, remap(d[j].1, i, m)) by {
            if j > 0 {
                assert(rest[j - 1] == d[j]);
            }
        }
        if !covered_entries(d, i, m, dropped) {
            if covered(d[0].1, i, m, dropped) {
                let j = choose|j: int| 0 <= j < rest.len() && !covered(rest[j].1, i, m, dropped);
                assert(rest[j] == d[j + 1]);
            }
        } else {
            assert forall|j: int| 0 <= j < d.len() implies #[trigger] covered(d[j].1, i, m, dropped) by {
                if j > 0 {
                    assert(rest[j - 1] == d[j]);
                }
            }
        }
    }
}

impl<'d, 'a> Builder<'d, 'a> {
    /// The bookkeeping agrees with itself: one map and one dropped set per
    /// source, output numbers from 1 below `next`, queued copies of known
    /// sources.
    spec fn wf(&self) -> bool {
        &&& self.next >= 1
        &&& forall|k: u32| #[trigger] self.out@.contains_key(k) ==> 1 <= k < self.next
        &&& self.head <= self.queue@.len()
        &&& forall|j: int| 0 <= j < self.queue@.len() ==> (#[trigger] self.queue@[j]).0 < self.sources@.len()
            && 1 <= self.queue@[j].2 < self.next
        &&& forall|j1: int, j2: int| 0 <= j1 < j2 < self.queue@.len() ==> (#[trigger] self.queue@[j1]).2 < (#[trigger] self.queue@[j2]).2
    }

    /// How far the builder can still go: numbers left plus copies queued.
    spec fn work(&self) -> int {
        (u32::MAX - self.next) + (self.queue@.len() - self.head)
    }

    /// A builder over `documents`, their page trees read.
    fn new(documents: &Vec<&'d Document<'a>>) -> (r: Result<Self, Error>)
        ensures
            r matches Ok(b) ==> b.wf() && b.sources@.len() == documents@.len()
                && b.out@.len() == 0,
            r matches Ok(b) ==> forall|i: int| 0 <= i < documents@.len() ==> sourced(b.sources@[i], documents@[i]),
            r is Ok <==> forall|i: int| 0 <= i < documents@.len() ==> (#[trigger] page_walk(documents@[i])) is Some,
    {
        let mut sources: Vec<Source<'d, 'a>> = Vec::new();
        let mut dropped: BTreeSet<u128> = BTreeSet::new();
        let mut i: usize = 0;
        while i < documents.len()
            invariant
                i <= documents@.len(),
                sources@.len() == i,
                forall|j: int| 0 <= j < i ==> sourced(#[trigger] sources@[j], documents@[j]),
                forall|j: int| 0 <= j < i ==> (#[trigger] page_walk(documents@[j])) is Some,
            decreases documents@.len() - i,
        {
            let doc: &'d Document<'a> = documents[i];
            let (pages, nodes) = match walk(doc) {
                Err(e) => return Err(e),
                Ok(w) => w,
            };
            assert(page_walk(documents@[i as int]) is Some);
            let mut k: usize = 0;
            while k < pages.len()
                invariant
                    k <= pages@.len(),
                decreases pages@.len() - k,
            {
                if let Some(r) = pages[k].reference {
                    dropped.insert(source_key(i, r));
                }
                k = k + 1;
            }
            // Intermediate page-tree nodes are never copied: the output
            // has its own tree.
            let mut k: usize = 0;
            while k < nodes.len()
                invariant
                    k <= nodes@.len(),
                decreases nodes@.len() - k,
            {
                dropped.insert(source_key(i, nodes[k]));
                k = k + 1;
            }
            sources.push(Source { doc, pages });
            i = i + 1;
        }
        Ok(Builder {
            sources,
            map: BTreeMap::new(),
            dropped,
            queue: Vec::new(),
            head: 0,
            out: BTreeMap::new(),
            next: 1,
        })
    }

    /// A fresh output number.
    fn fresh_number(&mut self) -> (r: Result<u32, Error>)
        requires
            old(self).wf(),
        ensures
            final(self).wf(),
            final(self).sources == old(self).sources,
            final(self).out == old(self).out,
            final(self).queue == old(self).queue,
            final(self).head == old(self).head,
            match r {
                Ok(n) => n == old(self).next && final(self).next == old(self).next + 1,
                Err(_) => final(self).next == old(self).next && old(self).next == u32::MAX,
            },
            final(self).map == old(self).map,
            final(self).dropped == old(self).dropped,
    {
        let num = self.next;
        if num == u32::MAX {
            return Err(operation("too many objects for one file"));
        }
        self.next = num + 1;
        Ok(num)
    }

    /// Give a source object its output number without copying it, for
    /// objects the builder writes itself (kept pages).
    fn assign(&mut self, i: usize, r: ObjRef) -> (res: Result<u32, Error>)
        requires
            old(self).wf(),
            i < old(self).sources@.len(),
        ensures
            final(self).wf(),
            final(self).sources == old(self).sources,
            final(self).out == old(self).out,
            final(self).queue == old(self).queue,
            final(self).head == old(self).head,
            final(self).next >= old(self).next,
            res matches Ok(n) ==> n == old(self).next && final(self).next == n + 1,
    {
        let num = match self.fresh_number() {
            Err(e) => return Err(e),
            Ok(n) => n,
        };
        let key = source_key(i, r);
        self.map.insert(key, num);
        self.dropped.remove(&key);
        Ok(num)
    }

    /// Output object for a source reference: mapped, queued for copy, or
    /// `null` for a dropped page or page-tree node.
    fn map_ref(&mut self, i: usize, r: ObjRef) -> (res: Result<Object, Error>)
        requires
            old(self).wf(),
            i < old(self).sources@.len(),
        ensures
            final(self).wf(),
            final(self).sources == old(self).sources,
            final(self).out == old(self).out,
            final(self).head == old(self).head,
            final(self).next >= old(self).next,
            final(self).work() <= old(self).work(),
            final(self).queue@.len() >= old(self).queue@.len(),
            res matches Ok(o) ==> o@ is Null || o@ is Reference,
            res is Err ==> final(self).next == u32::MAX,
            res matches Ok(o) ==> o@ == remapped_ref(i, r, final(self).map@),
            res is Ok ==> final(self).map@.contains_key(source_key_of(i, r)) || final(self).dropped@.contains(source_key_of(i, r)),
            extends(old(self).map@, final(self).map@, old(self).dropped@),
            final(self).dropped == old(self).dropped,
            final(self).queue@.take(old(self).queue@.len() as int) == old(self).queue@,
    {
        proof { broadcast use vstd::std_specs::btree::group_btree_axioms; }
        let key = source_key(i, r);
        match self.map.get(&key) {
            Some(num) => return Ok(Object::Reference(ObjRef { num: *num, gen: 0 })),
            None => {},
        }
        if self.dropped.contains(&key) {
            return Ok(Object::Null);
        }
        let num = match self.fresh_number() {
            Err(e) => return Err(e),
            Ok(n) => n,
        };
        self.map.insert(key, num);
        let ghost q = self.queue@;
        self.queue.push((i, r, num));
        proof {
            assert(self.queue@.take(q.len() as int) =~= q);
            assert forall|k: u128| #[trigger] self.map@.contains_key(k) && !old(self).map@.contains_key(k) implies !old(self).dropped@.contains(k) by {
                if k != key {
                    assert(old(self).map@.contains_key(k));
                }
            }
        }
        Ok(Object::Reference(ObjRef { num, gen: 0 }))
    }

    /// A direct object of document `i`, its references remapped. A
    /// stream's `/Length` is left out: the writer sets it from the data.
    fn copy(&mut self, i: usize, obj: &Object) -> (res: Result<Object, Error>)
        requires
            old(self).wf(),
            i < old(self).sources@.len(),
        ensures
            final(self).wf(),
            final(self).sources == old(self).sources,
            final(self).out == old(self).out,
            final(self).head == old(self).head,
            final(self).next >= old(self).next,
            final(self).work() <= old(self).work(),
            final(self).queue@.len() >= old(self).queue@.len(),
            res matches Ok(o) ==> o@ == remap(obj@, i, final(self).map@) && covered(obj@, i, final(self).map@, final(self).dropped@),
            res is Err ==> final(self).next == u32::MAX,
            extends(old(self).map@, final(self).map@, old(self).dropped@),
            final(self).dropped == old(self).dropped,
            final(self).queue@.take(old(self).queue@.len() as int) == old(self).queue@,
        decreases size(obj@), 1nat,
    {
        match obj {
            Object::Reference(r) => {
                let res = self.map_ref(i, *r);
                assert(obj@ == ObjectView::Reference(*r));
                res
            },
            Object::Array(items) => {
                let ghost s = crate::object::items_view(items@);
                proof { crate::object::lemma_items_view(items@); }
                let mut out: Vec<Object> = Vec::new();
                let mut k: usize = 0;
                while k < items.len()
                    invariant
                        k <= items@.len(),
                        self.wf(),
                        i < self.sources@.len(),
                        self.sources == old(self).sources,
                        self.out == old(self).out,
                        self.head == old(self).head,
                        self.next >= old(self).next,
                        self.work() <= old(self).work(),
                        self.queue@.len() >= old(self).queue@.len(),
                        obj@ == ObjectView::Array(s),
                        s == crate::object::items_view(items@),
                        s.len() == items@.len(),
                        forall|j: int| 0 <= j < items@.len() ==> #[trigger] s[j] == items@[j]@,
                        out@.len() == k,
                        forall|j: int| 0 <= j < k ==> (#[trigger] out@[j])@ == remap(s[j], i, self.map@)
                            && covered(s[j], i, self.map@, self.dropped@),
                        extends(old(self).map@, self.map@, old(self).dropped@),
                        self.dropped == old(self).dropped,
                        self.queue@.take(old(self).queue@.len() as int) == old(self).queue@,
                    decreases items@.len() - k,
                {
                    proof { crate::cleanup::lemma_sizes_at(s, k as int); }
                    let ghost before = self.map@;
                    match self.copy(i, &items[k]) {
                        Err(e) => return Err(e),
                        Ok(o) => out.push(o),
                    }
                    proof {
                        assert forall|j: int| 0 <= j < k + 1 implies (#[trigger] out@[j])@ == remap(s[j], i, self.map@)
                            && covered(s[j], i, self.map@, self.dropped@) by {
                            if j < k {
                                lemma_remap_stable(s[j], i, before, self.map@, self.dropped@);
                            }
                        }
                    }
                    k = k + 1;
                }
                proof {
                    lemma_remap_items_index(s, i, self.map@, self.dropped@);
                    crate::object::lemma_items_view(out@);
                    assert forall|j: int| 0 <= j < s.len() implies #[trigger] crate::object::items_view(out@)[j] == remap_items(s, i, self.map@)[j] by {
                        assert(out@[j]@ == remap(s[j], i, self.map@));
                    }
                    assert(crate::object::items_view(out@) =~= remap_items(s, i, self.map@));
                    assert forall|j: int| 0 <= j < s.len() implies #[trigger] covered(s[j], i, self.map@, self.dropped@) by {
                        assert(out@[j]@ == remap(s[j], i, self.map@));
                    }
                    assert(covered_items(s, i, self.map@, self.dropped@));
                }
                Ok(Object::Array(out))
            },
            Object::Dict(d) => match self.copy_dict(i, d) {
                Err(e) => Err(e),
                Ok(c) => {
                    assert(obj@ == ObjectView::Dict(d@));
                    Ok(Object::Dict(c))
                },
            },
            Object::Stream { dict, data } => {
                let mut d = copy_dict(dict);
                let _ = d.remove(&Name::new("Length"));
                proof { crate::cleanup::lemma_dict_remove_smaller(dict@, "Length".spec_bytes()); }
                assert(d@ == dict_remove(dict@, "Length".spec_bytes()));
                match self.copy_dict(i, &d) {
                    Err(e) => Err(e),
                    Ok(c) => {
                        assert(obj@ == ObjectView::Stream(dict@, data@));
                        Ok(Object::Stream { dict: c, data: data.clone() })
                    },
                }
            },
            _ => {
                let c = copy_object(obj);
                assert(remap(obj@, i, self.map@) == obj@);
                assert(covered(obj@, i, self.map@, self.dropped@));
                Ok(c)
            },
        }
    }

    /// A dictionary of document `i`, its references remapped.
    fn copy_dict(&mut self, i: usize, dict: &Dict) -> (res: Result<Dict, Error>)
        requires
            old(self).wf(),
            i < old(self).sources@.len(),
        ensures
            final(self).wf(),
            final(self).sources == old(self).sources,
            final(self).out == old(self).out,
            final(self).head == old(self).head,
            final(self).next >= old(self).next,
            final(self).work() <= old(self).work(),
            final(self).queue@.len() >= old(self).queue@.len(),
            res matches Ok(d) ==> d@.len() == dict@.len(),
            res matches Ok(d) ==> d@ == remap_entries(dict@, i, final(self).map@) && covered_entries(dict@, i, final(self).map@, final(self).dropped@),
            res is Err ==> final(self).next == u32::MAX,
            extends(old(self).map@, final(self).map@, old(self).dropped@),
            final(self).dropped == old(self).dropped,
            final(self).queue@.take(old(self).queue@.len() as int) == old(self).queue@,
        decreases crate::cleanup::entry_sizes(dict@) + 1, 0nat,
    {
        let ghost s = dict@;
        let entries = dict.entries();
        proof { crate::object::lemma_entries_view(entries@); }
        let mut values: Vec<Object> = Vec::new();
        let mut k: usize = 0;
        while k < entries.len()
            invariant
                k <= entries@.len(),
                values@.len() == k,
                self.wf(),
                i < self.sources@.len(),
                self.sources == old(self).sources,
                self.out == old(self).out,
                self.head == old(self).head,
                self.next >= old(self).next,
                self.work() <= old(self).work(),
                self.queue@.len() >= old(self).queue@.len(),
                s == dict@,
                s == crate::object::entries_view(entries@),
                s.len() == entries@.len(),
                forall|j: int| 0 <= j < entries@.len() ==> #[trigger] s[j] == (entries@[j].0.0@, entries@[j].1@),
                forall|j: int| 0 <= j < k ==> (#[trigger] values@[j])@ == remap(s[j].1, i, self.map@)
                    && covered(s[j].1, i, self.map@, self.dropped@),
                extends(old(self).map@, self.map@, old(self).dropped@),
                self.dropped == old(self).dropped,
                self.queue@.take(old(self).queue@.len() as int) == old(self).queue@,
            decreases entries@.len() - k,
        {
            proof { crate::cleanup::lemma_entry_sizes_at(s, k as int); }
            let ghost before = self.map@;
            match self.copy(i, &entries[k].1) {
                Err(e) => return Err(e),
                Ok(o) => values.push(o),
            }
            proof {
                assert forall|j: int| 0 <= j < k + 1 implies (#[trigger] values@[j])@ == remap(s[j].1, i, self.map@)
                    && covered(s[j].1, i, self.map@, self.dropped@) by {
                    if j < k {
                        lemma_remap_stable(s[j].1, i, before, self.map@, self.dropped@);
                    }
                }
            }
            k = k + 1;
        }
        let r = dict.with_values(&values);
        proof {
            lemma_remap_entries_index(s, i, self.map@, self.dropped@);
            assert forall|j: int| 0 <= j < s.len() implies #[trigger] r@[j] == remap_entries(s, i, self.map@)[j] by {
                assert(values@[j]@ == remap(s[j].1, i, self.map@));
            }
            assert(r@ =~= remap_entries(s, i, self.map@));
            assert forall|j: int| 0 <= j < s.len() implies #[trigger] covered(s[j].1, i, self.map@, self.dropped@) by {
                assert(values@[j]@ == remap(s[j].1, i, self.map@));
            }
        }
        Ok(r)
    }

    /// Copy every queued object. A source object that cannot be read
    /// becomes `null`: the references to it stay valid.
    fn drain(&mut self) -> (res: Result<(), Error>)
        requires
            old(self).wf(),
        ensures
            final(self).wf(),
            final(self).sources == old(self).sources,
            final(self).next >= old(self).next,
            res is Ok ==> final(self).head == final(self).queue@.len(),
            res is Ok ==> forall|j: int| old(self).head <= j < final(self).queue@.len() ==> {
                let q = #[trigger] final(self).queue@[j];
                &&& final(self).out@.contains_key(q.2)
                &&& final(self).out@[q.2]@ == copied_of(final(self).sources@[q.0 as int].doc, q.1, q.0, final(self).map@)
            },
            extends(old(self).map@, final(self).map@, old(self).dropped@),
            final(self).dropped == old(self).dropped,
            final(self).queue@.take(old(self).queue@.len() as int) == old(self).queue@,
    {
        while self.head < self.queue.len()
            invariant
                self.wf(),
                self.sources == old(self).sources,
                self.next >= old(self).next,
                old(self).head <= self.head,
                old(self).queue@.len() <= self.queue@.len(),
                extends(old(self).map@, self.map@, old(self).dropped@),
                self.dropped == old(self).dropped,
                self.queue@.take(old(self).queue@.len() as int) == old(self).queue@,
                forall|j: int| old(self).head <= j < self.head ==> {
                    let q = #[trigger] self.queue@[j];
                    &&& self.out@.contains_key(q.2)
                    &&& self.out@[q.2]@ == copied_of(self.sources@[q.0 as int].doc, q.1, q.0, self.map@)
                    &&& copied_covered(self.sources@[q.0 as int].doc, q.1, q.0, self.map@, self.dropped@)
                },
            decreases self.work(),
        {
            let (i, r, num) = self.queue[self.head];
            let ghost h = self.head as int;
            let ghost before_map = self.map@;
            let ghost before_queue = self.queue@;
            let ghost before_out = self.out@;
            assert(1 <= num < self.next);
            self.head = self.head + 1;
            let doc = self.sources[i].doc;
            let copied = match doc.get(r) {
                Ok(Some(obj)) => {
                    let c = self.copy(i, &obj);
                    proof { lemma_prefix_trans(old(self).queue@, before_queue, self.queue@); }
                    match c {
                        Err(e) => return Err(e),
                        Ok(c) => c,
                    }
                },
                _ => Object::Null,
            };
            self.out.insert(num, copied);
            proof {
                assert forall|j: int| old(self).head <= j < self.head implies {
                    let q = #[trigger] self.queue@[j];
                    &&& self.out@.contains_key(q.2)
                    &&& self.out@[q.2]@ == copied_of(self.sources@[q.0 as int].doc, q.1, q.0, self.map@)
                    &&& copied_covered(self.sources@[q.0 as int].doc, q.1, q.0, self.map@, self.dropped@)
                } by {
                    let q = self.queue@[j];
                    assert(before_queue.take(before_queue.len() as int)[j] == q);
                    if j < h {
                        assert(q == before_queue[j]);
                        assert(q.2 < num);
                        let d = self.sources@[q.0 as int].doc;
                        match d.object_of(q.1) {
                            Ok(Some(v)) => lemma_remap_stable(v, q.0, before_map, self.map@, self.dropped@),
                            _ => {},
                        }
                    } else {
                        assert(q == (i, r, num));
                    }
                }
            }
        }
        Ok(())
    }

    /// Put `obj` in the output as object `num`.
    fn put(&mut self, num: u32, obj: Object)
        requires
            old(self).wf(),
            1 <= num < old(self).next,
        ensures
            final(self).wf(),
            final(self).sources == old(self).sources,
            final(self).next == old(self).next,
            final(self).out@ == old(self).out@.insert(num, obj),
            final(self).map == old(self).map,
            final(self).dropped == old(self).dropped,
            final(self).queue == old(self).queue,
            final(self).head == old(self).head,
    {
        self.out.insert(num, obj);
    }

    /// Build and write the document made of `keep`, pairs `(document,
    /// page index)` in output order, the pages `turn` selects turned.
    fn build(&mut self, keep: &Vec<(usize, usize)>, version: PdfVersion, turn: &Turn) -> (r: Result<Vec<u8>, Error>)
        requires
            old(self).wf(),
            old(self).sources@.len() > 0,
            forall|j: int| 0 <= j < keep@.len() ==> (#[trigger] keep@[j]).0 < old(self).sources@.len(),
        ensures
            r is Ok ==> forall|j: int| 0 <= j < keep@.len() ==> (#[trigger] keep@[j]).1
                < old(self).sources@[keep@[j].0 as int].pages@.len(),
            r matches Ok(b) ==> written_file(b@, version),
    {
        let root_num = match self.fresh_number() {
            Err(e) => return Err(e),
            Ok(n) => n,
        };
        let root_ref = ObjRef { num: root_num, gen: 0 };
        // Numbers first, so that references between kept pages (links,
        // annotations' /P) resolve whatever the order.
        let mut numbers: Vec<(u32, usize, Page)> = Vec::new();
        let mut j: usize = 0;
        while j < keep.len()
            invariant
                self.wf(),
                self.sources@.len() > 0,
                self.sources == old(self).sources,
                j <= keep@.len(),
                forall|x: int| 0 <= x < j ==> (#[trigger] keep@[x]).1 < self.sources@[keep@[x].0 as int].pages@.len(),
                root_num < self.next,
                root_num >= 1,
                forall|x: int| 0 <= x < keep@.len() ==> (#[trigger] keep@[x]).0 < self.sources@.len(),
                forall|x: int| 0 <= x < numbers@.len() ==> 1 <= (#[trigger] numbers@[x]).0 < self.next
                    && numbers@[x].1 < self.sources@.len(),
            decreases keep@.len() - j,
        {
            let (i, p) = keep[j];
            if p >= self.sources[i].pages.len() {
                return Err(Error::NoSuchPage { index: p, count: self.sources[i].pages.len() });
            }
            let page = self.sources[i].pages[p].clone();
            let num = match page.reference {
                Some(r) => match self.assign(i, r) {
                    Err(e) => return Err(e),
                    Ok(n) => n,
                },
                None => match self.fresh_number() {
                    Err(e) => return Err(e),
                    Ok(n) => n,
                },
            };
            numbers.push((num, i, page));
            j = j + 1;
        }
        let mut kids: Vec<Object> = Vec::new();
        let mut position: usize = 0;
        while position < numbers.len()
            invariant
                self.wf(),
                self.sources@.len() > 0,
                self.sources == old(self).sources,
                forall|x: int| 0 <= x < keep@.len() ==> (#[trigger] keep@[x]).1 < self.sources@[keep@[x].0 as int].pages@.len(),
                position <= numbers@.len(),
                root_num < self.next,
                root_num >= 1,
                forall|x: int| 0 <= x < numbers@.len() ==> 1 <= (#[trigger] numbers@[x]).0 < self.next
                    && numbers@[x].1 < self.sources@.len(),
            decreases numbers@.len() - position,
        {
            let num = numbers[position].0;
            let i = numbers[position].1;
            let mut dict = match self.copy_dict(i, &numbers[position].2.dict) {
                Err(e) => return Err(e),
                Ok(d) => d,
            };
            dict.insert(Name::new("Type"), Object::Name(Name::new("Page")));
            dict.insert(Name::new("Parent"), Object::Reference(root_ref));
            if position < turn.selected.len() && turn.selected[position] {
                turn_page(&mut dict, turn.degrees);
            }
            self.put(num, Object::Dict(dict));
            kids.push(Object::Reference(ObjRef { num, gen: 0 }));
            position = position + 1;
        }
        let mut pages_root = Dict::new();
        pages_root.insert(Name::new("Type"), Object::Name(Name::new("Pages")));
        let listed = kids.len() as u64;
        let count: i64 = if listed <= 9223372036854775807u64 {
            listed as i64
        } else {
            9223372036854775807i64
        };
        pages_root.insert(Name::new("Count"), Object::Integer(count));
        pages_root.insert(Name::new("Kids"), Object::Array(kids));
        self.put(root_num, Object::Dict(pages_root));

        // The catalog of the first document, its /Pages replaced.
        let catalog_num = match self.fresh_number() {
            Err(e) => return Err(e),
            Ok(n) => n,
        };
        let source_catalog = match self.sources[0].doc.catalog() {
            Err(e) => return Err(e),
            Ok(c) => c,
        };
        let mut catalog = match self.copy_dict(0, &source_catalog) {
            Err(e) => return Err(e),
            Ok(c) => c,
        };
        catalog.insert(Name::new("Pages"), Object::Reference(root_ref));
        if self.sources.len() > 1 {
            match self.merge_outlines(&mut catalog) {
                Err(e) => return Err(e),
                Ok(()) => {},
            }
            match self.merge_form_fields(&mut catalog) {
                Err(e) => return Err(e),
                Ok(()) => {},
            }
        }
        self.put(catalog_num, Object::Dict(catalog));
        let mut trailer = Dict::new();
        trailer.insert(Name::new("Root"), Object::Reference(ObjRef { num: catalog_num, gen: 0 }));
        let source_trailer = self.sources[0].doc.trailer();
        match source_trailer.get(&Name::new("Info")) {
            Some(Object::Reference(r)) => match self.map_ref(0, *r) {
                Err(e) => return Err(e),
                Ok(Object::Reference(info)) => trailer.insert(Name::new("Info"), Object::Reference(info)),
                Ok(_) => {},
            },
            _ => {},
        }
        match source_trailer.get(&Name::new("ID")) {
            Some(id) => trailer.insert(Name::new("ID"), copy_object(id)),
            None => {},
        }
        match self.drain() {
            Err(e) => return Err(e),
            Ok(()) => {},
        }
        if self.sources.len() > 1 {
            match self.merge_named_destinations(catalog_num) {
                Err(e) => return Err(e),
                Ok(()) => {},
            }
            match self.drain() {
                Err(e) => return Err(e),
                Ok(()) => {},
            }
        }
        clean_dead_destinations(&mut self.out, catalog_num);
        sweep(&mut self.out, &trailer);
        let objects = self.numbered_objects();
        let free: Vec<(u32, u16)> = Vec::new();
        let written = Writer::new(version).write_file(&objects, &free, &trailer);
        proof {
            if written is Ok {
                let fresh = choose|fresh: Seq<u8>| fresh.len() == 16 && crate::writer::produced(
                    written,
                    file_bytes(version, XrefStyle::Table, crate::writer::objects_view(objects@), free@, trailer@, fresh),
                );
                assert(free@ =~= Seq::<(u32, u16)>::empty());
                assert(file_bytes(version, XrefStyle::Table, crate::writer::objects_view(objects@), Seq::empty(), trailer@, fresh)
                    == Ok::<Seq<u8>, crate::writer::WriteFailure>(written->Ok_0@));
            }
        }
        written
    }

    /// Record that object `r` of source `i` is output object `num`.
    fn set_number(&mut self, i: usize, r: ObjRef, num: u32)
        requires
            old(self).wf(),
        ensures
            final(self).wf(),
            final(self).sources == old(self).sources,
            final(self).next == old(self).next,
            final(self).out == old(self).out,
            final(self).map@ == old(self).map@.insert(source_key_of(i, r), num),
            final(self).dropped == old(self).dropped,
            final(self).queue == old(self).queue,
            final(self).head == old(self).head,
    {
        self.map.insert(source_key(i, r), num);
    }

    /// Set `key` to `value` in output object `num`, when it is a
    /// dictionary.
    fn set_in(&mut self, num: u32, key: Name, value: Object)
        requires
            old(self).wf(),
        ensures
            final(self).wf(),
            final(self).sources == old(self).sources,
            final(self).next == old(self).next,
            final(self).map == old(self).map,
            final(self).dropped == old(self).dropped,
            final(self).queue == old(self).queue,
            final(self).head == old(self).head,
            final(self).out@.dom() == old(self).out@.dom(),
            forall|k: u32| k != num && #[trigger] old(self).out@.contains_key(k) ==> final(self).out@[k] == old(self).out@[k],
            old(self).out@.contains_key(num) ==> match old(self).out@[num]@ {
                ObjectView::Dict(d) => final(self).out@[num]@ == ObjectView::Dict(dict_insert(d, key.0@, value@)),
                _ => final(self).out@[num] == old(self).out@[num],
            },
    {
        let updated = match self.out.get(&num) {
            Some(Object::Dict(d)) => {
                let mut d2 = copy_dict(d);
                d2.insert(key, value);
                Some(d2)
            },
            _ => None,
        };
        proof { broadcast use vstd::std_specs::btree::group_btree_axioms; }
        if let Some(d2) = updated {
            assert(self.out@.contains_key(num));
            self.out.insert(num, Object::Dict(d2));
            proof { assert(self.out@.dom() =~= old(self).out@.dom()); }
        }
    }

    /// Chain the outline trees of the sources into one (12.3.3): the first
    /// items of each document follow the last items of the previous one,
    /// under a single `/Outlines` root.
    fn merge_outlines(&mut self, catalog: &mut Dict) -> (r: Result<(), Error>)
        requires
            old(self).wf(),
        ensures
            final(self).wf(),
            final(self).sources == old(self).sources,
            final(self).next >= old(self).next,
            r is Ok ==> final(catalog)@ == dict_remove(old(catalog)@, "Outlines".spec_bytes()) || exists|o: ObjRef|
                #![trigger final(self).out@[o.num]]
                o.num >= old(self).next && final(self).out@.contains_key(o.num) && final(self).out@[o.num]@ is Dict
                    && final(catalog)@ == dict_insert(old(catalog)@, "Outlines".spec_bytes(), ObjectView::Reference(o)),
    {
        let outlines_key = Name::new("Outlines");
        let root_num = match self.fresh_number() {
            Err(e) => return Err(e),
            Ok(n) => n,
        };
        let root_ref = ObjRef { num: root_num, gen: 0 };
        // (first, last) items of each document, in output numbering, and
        // the top-level items whose /Parent must become the new root.
        let mut chains: Vec<(ObjRef, ObjRef)> = Vec::new();
        let mut top_level: Vec<u32> = Vec::new();
        let mut count: i64 = 0;
        let mut i: usize = 0;
        while i < self.sources.len()
            invariant
                self.wf(),
                self.sources == old(self).sources,
                self.next >= old(self).next,
                1 <= root_num < self.next,
            decreases self.sources@.len() - i,
        {
            let doc = self.sources[i].doc;
            let cat = match doc.catalog() {
                Err(e) => return Err(e),
                Ok(c) => c,
            };
            let entry = match cat.get(&outlines_key) {
                Some(e) => copy_object(e),
                None => {
                    i = i + 1;
                    continue;
                },
            };
            if let Object::Reference(r) = entry {
                // The old root is never copied: its items point at the new one.
                self.set_number(i, r, root_num);
            }
            let root = match doc.resolve(&entry) {
                Err(e) => return Err(e),
                Ok(Object::Dict(d)) => d,
                Ok(_) => {
                    i = i + 1;
                    continue;
                },
            };
            let (first, last) = match (root.get(&Name::new("First")), root.get(&Name::new("Last"))) {
                (Some(Object::Reference(f)), Some(Object::Reference(l))) => (*f, *l),
                _ => {
                    i = i + 1;
                    continue;
                },
            };
            match root.get(&Name::new("Count")) {
                Some(Object::Integer(n)) => {
                    count = saturating_sum(count, *n);
                },
                _ => {},
            }
            // Walk the top-level chain in the source, bounded by a visited set.
            let mut seen: BTreeSet<u64> = BTreeSet::new();
            let mut item = first;
            let mut last_seen = first;
            let mut budget: usize = crate::pagetree::MAX_PAGE_TREE_STEPS;
            while budget > 0
                invariant
                    self.wf(),
                    self.sources == old(self).sources,
                    self.next >= old(self).next,
                    1 <= root_num < self.next,
                    i < self.sources@.len(),
                decreases budget,
            {
                budget = budget - 1;
                if !seen.insert(key_of(item)) {
                    break;
                }
                match self.map_ref(i, item) {
                    Err(e) => return Err(e),
                    Ok(Object::Reference(n)) => top_level.push(n.num),
                    Ok(_) => {},
                }
                last_seen = item;
                let next = match doc.get(item) {
                    Err(e) => return Err(e),
                    Ok(Some(Object::Dict(d))) => match d.get(&Name::new("Next")) {
                        Some(Object::Reference(n)) => Some(*n),
                        _ => None,
                    },
                    Ok(_) => None,
                };
                match next {
                    Some(n) => {
                        item = n;
                    },
                    None => {
                        break;
                    },
                }
            }
            let first_out = match self.map_ref(i, first) {
                Err(e) => return Err(e),
                Ok(Object::Reference(f)) => f,
                Ok(_) => {
                    i = i + 1;
                    continue;
                },
            };
            let last_out = match self.map_ref(i, last) {
                Err(e) => return Err(e),
                Ok(Object::Reference(l)) => l,
                Ok(_) => {
                    i = i + 1;
                    continue;
                },
            };
            // Prefer the last item actually reached over a wrong /Last.
            let reached_last = seen.contains(&key_of(last));
            let last_out = match self.map_ref(i, last_seen) {
                Err(e) => return Err(e),
                Ok(Object::Reference(l)) => if !reached_last {
                    l
                } else {
                    last_out
                },
                Ok(_) => last_out,
            };
            chains.push((first_out, last_out));
            i = i + 1;
        }
        if chains.len() == 0 {
            let _ = catalog.remove(&outlines_key);
            return Ok(());
        }
        match self.drain() {
            Err(e) => return Err(e),
            Ok(()) => {},
        }
        let mut w: usize = 0;
        while chains.len() - w > 1
            invariant
                chains@.len() > 0,
                w < chains@.len(),
                self.wf(),
                self.sources == old(self).sources,
                self.next >= old(self).next,
                1 <= root_num < self.next,
            decreases chains@.len() - w,
        {
            let prev_last = chains[w].1;
            let next_first = chains[w + 1].0;
            self.set_in(prev_last.num, Name::new("Next"), Object::Reference(next_first));
            self.set_in(next_first.num, Name::new("Prev"), Object::Reference(prev_last));
            w = w + 1;
        }
        let mut t: usize = 0;
        while t < top_level.len()
            invariant
                self.wf(),
                self.sources == old(self).sources,
                self.next >= old(self).next,
                1 <= root_num < self.next,
            decreases top_level@.len() - t,
        {
            self.set_in(top_level[t], Name::new("Parent"), Object::Reference(root_ref));
            t = t + 1;
        }
        let mut root = Dict::new();
        root.insert(Name::new("Type"), Object::Name(Name::new("Outlines")));
        root.insert(Name::new("First"), Object::Reference(chains[0].0));
        root.insert(Name::new("Last"), Object::Reference(chains[chains.len() - 1].1));
        root.insert(Name::new("Count"), Object::Integer(count));
        self.put(root_num, Object::Dict(root));
        catalog.insert(outlines_key, Object::Reference(root_ref));
        assert(self.out@[root_ref.num]@ is Dict);
        Ok(())
    }

    /// One `/AcroForm` holding the fields of every source (12.7.3): the
    /// dictionary of the first document that has one, its `/Fields`
    /// extended with the others'.
    fn merge_form_fields(&mut self, catalog: &mut Dict) -> (r: Result<(), Error>)
        requires
            old(self).wf(),
        ensures
            final(self).wf(),
            final(self).sources == old(self).sources,
            final(self).next >= old(self).next,
            forms_upto(old(self).sources@, final(self).map@, old(self).sources@.len() as int) is None ==> r is Err,
            r is Err ==> forms_upto(old(self).sources@, final(self).map@, old(self).sources@.len() as int) is None
                || final(self).next == u32::MAX,
            r is Ok ==> (forms_upto(old(self).sources@, final(self).map@, old(self).sources@.len() as int) matches Some((base, fields)) && match base {
                None => final(catalog)@ == old(catalog)@ && final(self).out == old(self).out,
                Some(b) => {
                    let n = (final(self).next - 1) as u32;
                    &&& old(self).next <= n
                    &&& final(self).out@ == old(self).out@.insert(n, final(self).out@[n])
                    &&& final(self).out@[n]@ == ObjectView::Dict(dict_insert(b, "Fields".spec_bytes(), ObjectView::Array(fields)))
                    &&& final(catalog)@ == dict_insert(old(catalog)@, "AcroForm".spec_bytes(), ObjectView::Reference(ObjRef { num: n, gen: 0 }))
                },
            }),
    {
        let key = Name::new("AcroForm");
        let mut base: Option<Dict> = None;
        let mut fields: Vec<Object> = Vec::new();
        let mut i: usize = 0;
        assert(crate::object::items_view(fields@) =~= Seq::<ObjectView>::empty());
        while i < self.sources.len()
            invariant
                self.wf(),
                self.sources == old(self).sources,
                self.next >= old(self).next,
                i <= self.sources@.len(),
                key.0@ == "AcroForm".spec_bytes(),
                extends(old(self).map@, self.map@, old(self).dropped@),
                self.dropped == old(self).dropped,
                self.out == old(self).out,
                forms_covered(self.sources@, self.map@, self.dropped@, i as int),
                forms_upto(self.sources@, self.map@, i as int) matches Some((b, f)) && (match base {
                    Some(d) => b == Some(d@),
                    None => b is None,
                }) && crate::object::items_view(fields@) == f,
            decreases self.sources@.len() - i,
        {
            let ghost srcs = self.sources@;
            let ghost m0 = self.map@;
            let doc = self.sources[i].doc;
            let cat = match doc.catalog() {
                Err(e) => {
                    proof { lemma_forms_none_after(srcs, self.map@, i as int, srcs.len() as int); }
                    return Err(e);
                },
                Ok(c) => c,
            };
            let entry = match cat.get(&key) {
                Some(e) => copy_object(e),
                None => {
                    i = i + 1;
                    continue;
                },
            };
            let form = match doc.resolve(&entry) {
                Err(e) => {
                    proof { lemma_forms_none_after(srcs, self.map@, i as int, srcs.len() as int); }
                    return Err(e);
                },
                Ok(Object::Dict(d)) => d,
                Ok(_) => {
                    i = i + 1;
                    continue;
                },
            };
            let items = match form.get(&Name::new("Fields")) {
                Some(f) => match doc.resolve(f) {
                    Err(e) => {
                        proof { lemma_forms_none_after(srcs, self.map@, i as int, srcs.len() as int); }
                        return Err(e);
                    },
                    Ok(Object::Array(items)) => items,
                    Ok(_) => Vec::new(),
                },
                None => Vec::new(),
            };
            let ghost iv = crate::object::items_view(items@);
            proof { crate::object::lemma_items_view(items@); }
            assert(source_form(doc) == Some(Some((form@, iv))));
            let ghost f_before = crate::object::items_view(fields@);
            let mut k: usize = 0;
            proof {
                lemma_remap_items_index(iv.take(0), i, self.map@, self.dropped@);
                assert(remap_items(iv.take(0), i, self.map@) =~= Seq::<ObjectView>::empty());
                assert(crate::object::items_view(fields@) + Seq::<ObjectView>::empty() =~= crate::object::items_view(fields@));
            }
            while k < items.len()
                invariant
                    self.wf(),
                    self.sources == old(self).sources,
                    self.sources@ == srcs,
                    self.next >= old(self).next,
                    i < self.sources@.len(),
                    k <= items@.len(),
                    iv == crate::object::items_view(items@),
                    iv.len() == items@.len(),
                    forall|x: int| 0 <= x < items@.len() ==> #[trigger] iv[x] == items@[x]@,
                    extends(old(self).map@, self.map@, old(self).dropped@),
                    self.dropped == old(self).dropped,
                    self.out == old(self).out,
                    forms_covered(srcs, self.map@, self.dropped@, i as int),
                    covered_items(iv.take(k as int), i, self.map@, self.dropped@),
                    forms_upto(srcs, self.map@, i as int) matches Some((b, f)) && (match base {
                        Some(d) => b == Some(d@),
                        None => b is None,
                    }) && crate::object::items_view(fields@) == f + remap_items(iv.take(k as int), i, self.map@),
                decreases items@.len() - k,
            {
                let ghost m1 = self.map@;
                let ghost fv = crate::object::items_view(fields@);
                let res = self.copy(i, &items[k]);
                proof {
                    lemma_forms_stable(srcs, m1, self.map@, self.dropped@, i as int);
                    lemma_remap_items_stable(iv.take(k as int), i, m1, self.map@, self.dropped@);
                }
                match res {
                    Err(e) => return Err(e),
                    Ok(o) => {
                        proof { crate::cleanup::lemma_items_view_push(fields@, o); }
                        fields.push(o);
                    },
                }
                proof {
                    let m2 = self.map@;
                    lemma_remap_items_index(iv.take(k as int), i, m2, self.dropped@);
                    lemma_remap_items_index(iv.take(k + 1), i, m2, self.dropped@);
                    assert(iv.take(k + 1)[k as int] == iv[k as int]);
                    assert(remap_items(iv.take(k + 1), i, m2) =~= remap_items(iv.take(k as int), i, m2).push(remap(iv[k as int], i, m2)));
                    assert forall|x: int| 0 <= x < k + 1 implies #[trigger] covered(iv.take(k + 1)[x], i, m2, self.dropped@) by {
                        if x < k {
                            assert(iv.take(k + 1)[x] == iv.take(k as int)[x]);
                        }
                    }
                }
                k = k + 1;
            }
            proof {
                assert(iv.take(iv.len() as int) =~= iv);
            }
            let ghost m3 = self.map@;
            let was_none = base.is_none();
            if base.is_none() {
                match self.copy_dict(i, &form) {
                    Err(e) => return Err(e),
                    Ok(d) => {
                        base = Some(d);
                    },
                }
                proof {
                    lemma_forms_stable(srcs, m3, self.map@, self.dropped@, i as int);
                    lemma_remap_items_stable(iv, i, m3, self.map@, self.dropped@);
                }
            }
            proof {
                lemma_forms_base_shape(srcs, m0, self.map@, i as int);
                assert(forms_upto(srcs, self.map@, (i + 1) as int) == match forms_upto(srcs, self.map@, i as int) {
                    None => None,
                    Some((b, f)) => Some((
                        if b is None { Some(remap_entries(form@, i, self.map@)) } else { b },
                        f + remap_items(iv, i, self.map@),
                    )),
                });
            }
            i = i + 1;
        }
        let mut form = match base {
            None => return Ok(()),
            Some(f) => f,
        };
        let ghost fv = crate::object::items_view(fields@);
        form.insert(Name::new("Fields"), Object::Array(fields));
        let num = match self.fresh_number() {
            Err(e) => return Err(e),
            Ok(n) => n,
        };
        self.put(num, Object::Dict(form));
        catalog.insert(key, Object::Reference(ObjRef { num, gen: 0 }));
        Ok(())
    }

    /// Merge `pairs`, from source `i`, into `merged`: each name not there
    /// yet takes its value, copied (see [`merge_upto`]).
    fn merge_pairs(&mut self, merged: &mut Dict, i: usize, pairs: &Vec<(Vec<u8>, Object)>) -> (r: Result<(), Error>)
        requires
            old(self).wf(),
            i < old(self).sources@.len(),
        ensures
            final(self).wf(),
            final(self).sources == old(self).sources,
            final(self).next >= old(self).next,
            final(self).out == old(self).out,
            final(self).dropped == old(self).dropped,
            extends(old(self).map@, final(self).map@, old(self).dropped@),
            r is Err ==> final(self).next == u32::MAX,
            r is Ok ==> final(merged)@ == merge_upto(old(merged)@, pairs_view(pairs@), pairs@.len() as int, i, final(self).map@)
                && merge_covered(old(merged)@, pairs_view(pairs@), pairs@.len() as int, i, final(self).map@, final(self).dropped@),
    {
        let ghost start = merged@;
        let ghost pv = pairs_view(pairs@);
        let mut k: usize = 0;
        while k < pairs.len()
            invariant
                self.wf(),
                self.sources == old(self).sources,
                self.next >= old(self).next,
                self.out == old(self).out,
                self.dropped == old(self).dropped,
                extends(old(self).map@, self.map@, old(self).dropped@),
                i < self.sources@.len(),
                k <= pairs@.len(),
                pv == pairs_view(pairs@),
                start == old(merged)@,
                merged@ == merge_upto(start, pv, k as int, i, self.map@),
                merge_covered(start, pv, k as int, i, self.map@, self.dropped@),
            decreases pairs@.len() - k,
        {
            let name = Name(pairs[k].0.clone());
            assert(pv[k as int] == (pairs@[k as int].0@, pairs@[k as int].1@));
            if !merged.contains_key(&name) {
                let ghost m1 = self.map@;
                match self.copy(i, &pairs[k].1) {
                    Err(e) => return Err(e),
                    Ok(o) => {
                        proof { lemma_merge_stable(start, pv, k as int, i, m1, self.map@, self.dropped@); }
                        merged.insert(name, o);
                    },
                }
            }
            k = k + 1;
        }
        Ok(())
    }

    /// One name tree of destinations for every source (12.3.2.3): the
    /// `/Dests` dictionaries of PDF 1.1 and the `/Names /Dests` trees are
    /// flattened into a single leaf node, sorted, the first document
    /// winning on a duplicate name. Runs after the first drain: the
    /// catalog's `/Names` dictionary may be an object already copied.
    fn merge_named_destinations(&mut self, catalog_num: u32) -> (r: Result<(), Error>)
        requires
            old(self).wf(),
        ensures
            final(self).wf(),
            final(self).sources == old(self).sources,
            final(self).next >= old(self).next,
            dests_upto(old(self).sources@, final(self).map@, old(self).sources@.len() as int) is None ==> r is Err,
            r is Err ==> dests_upto(old(self).sources@, final(self).map@, old(self).sources@.len() as int) is None
                || final(self).next == u32::MAX,
            r is Ok ==> (dests_upto(old(self).sources@, final(self).map@, old(self).sources@.len() as int) matches Some((found, merged))
                && named_dests_placed(old(self).out@, final(self).out@, catalog_num, found, merged)),
    {
        let mut merged = Dict::new();
        let mut found = false;
        let mut i: usize = 0;
        while i < self.sources.len()
            invariant
                self.wf(),
                self.sources == old(self).sources,
                self.next >= old(self).next,
                i <= self.sources@.len(),
                self.out == old(self).out,
                self.dropped == old(self).dropped,
                extends(old(self).map@, self.map@, old(self).dropped@),
                dests_upto(self.sources@, self.map@, i as int) == Some((found, merged@)),
                dests_covered(self.sources@, self.map@, self.dropped@, i as int),
            decreases self.sources@.len() - i,
        {
            let ghost srcs = self.sources@;
            let ghost m0 = self.map@;
            let ghost merged0 = merged@;
            let doc = self.sources[i].doc;
            let catalog = match doc.catalog() {
                Err(e) => {
                    proof { lemma_dests_none_after(srcs, self.map@, i as int, srcs.len() as int); }
                    return Err(e);
                },
                Ok(c) => c,
            };
            let old_dests = match catalog.get(&Name::new("Dests")) {
                Some(d) => match doc.resolve(d) {
                    Err(e) => {
                        proof { lemma_dests_none_after(srcs, self.map@, i as int, srcs.len() as int); }
                        return Err(e);
                    },
                    Ok(Object::Dict(dests)) => Some(dests),
                    Ok(_) => None,
                },
                None => None,
            };
            let ghost od: Option<Seq<(Seq<u8>, ObjectView)>> = match &old_dests {
                Some(d) => Some(d@),
                None => None,
            };
            if let Some(dests) = old_dests {
                found = true;
                let pairs = entry_pairs(&dests);
                match self.merge_pairs(&mut merged, i, &pairs) {
                    Err(e) => return Err(e),
                    Ok(()) => {},
                }
            }
            let ghost m1 = self.map@;
            let ghost merged1 = merged@;
            proof {
                lemma_dests_stable(srcs, m0, m1, self.dropped@, i as int);
            }
            let tree = match catalog.get(&Name::new("Names")) {
                Some(n) => match doc.resolve(n) {
                    Err(e) => {
                        proof { lemma_dests_none_after(srcs, self.map@, i as int, srcs.len() as int); }
                        return Err(e);
                    },
                    Ok(Object::Dict(names)) => match names.get(&Name::new("Dests")) {
                        Some(t) => Some(copy_object(t)),
                        None => None,
                    },
                    Ok(_) => None,
                },
                None => None,
            };
            let ghost mut tp: Option<Seq<(Seq<u8>, ObjectView)>> = None;
            if let Some(tree) = tree {
                found = true;
                let pairs = match name_tree_pairs(doc, &tree) {
                    Err(e) => {
                        proof { lemma_dests_none_after(srcs, self.map@, i as int, srcs.len() as int); }
                        return Err(e);
                    },
                    Ok(p) => p,
                };
                proof { tp = Some(pairs_view(pairs@)); }
                match self.merge_pairs(&mut merged, i, &pairs) {
                    Err(e) => return Err(e),
                    Ok(()) => {},
                }
                proof {
                    lemma_dests_stable(srcs, m1, self.map@, self.dropped@, i as int);
                    match od {
                        Some(x) => lemma_merge_stable(merged0, x, x.len() as int, i, m1, self.map@, self.dropped@),
                        None => {},
                    }
                }
            }
            proof {
                assert(source_dests(srcs[i as int].doc) == Some((od, tp)));
            }
            i = i + 1;
        }
        if !found {
            return Ok(());
        }
        let ghost mv = merged@;
        let mut leaf: Vec<Object> = Vec::new();
        let entries = merged.entries();
        proof { crate::object::lemma_entries_view(entries@); }
        let mut k: usize = 0;
        assert(crate::object::items_view(leaf@) =~= leaf_of(mv.take(0)));
        while k < entries.len()
            invariant
                k <= entries@.len(),
                mv == crate::object::entries_view(entries@),
                mv.len() == entries@.len(),
                forall|x: int| 0 <= x < entries@.len() ==> #[trigger] mv[x] == (entries@[x].0.0@, entries@[x].1@),
                crate::object::items_view(leaf@) == leaf_of(mv.take(k as int)),
            decreases entries@.len() - k,
        {
            let a = Object::String(entries[k].0.0.clone());
            proof { crate::cleanup::lemma_items_view_push(leaf@, a); }
            leaf.push(a);
            let b = copy_object(&entries[k].1);
            proof { crate::cleanup::lemma_items_view_push(leaf@, b); }
            leaf.push(b);
            proof {
                assert(mv.take(k + 1).drop_last() =~= mv.take(k as int));
                assert(mv.take(k + 1).last() == mv[k as int]);
                assert(crate::object::items_view(leaf@) =~= leaf_of(mv.take(k + 1)));
            }
            k = k + 1;
        }
        assert(mv.take(mv.len() as int) =~= mv);
        let mut node = Dict::new();
        node.insert(Name::new("Names"), Object::Array(leaf));
        assert(node@ == dests_node(mv));
        let mut catalog = match self.out.get(&catalog_num) {
            Some(Object::Dict(c)) => copy_dict(c),
            _ => return Ok(()),
        };
        proof { broadcast use vstd::std_specs::btree::group_btree_axioms; }
        assert(self.out@.contains_key(catalog_num));
        let ghost before = self.out@;
        assert(before == old(self).out@);
        let _ = catalog.remove(&Name::new("Dests"));
        let ghost c1 = catalog@;
        assert(c1 == dict_remove(before[catalog_num]@->Dict_0, "Dests".spec_bytes()));
        let names_entry = match catalog.get(&Name::new("Names")) {
            Some(o) => Some(copy_object(o)),
            None => None,
        };
        match names_entry {
            Some(Object::Reference(r)) => {
                self.set_in(r.num, Name::new("Dests"), Object::Dict(node));
            },
            Some(Object::Dict(mut names)) => {
                names.insert(Name::new("Dests"), Object::Dict(node));
                catalog.insert(Name::new("Names"), Object::Dict(names));
            },
            _ => {
                let mut names = Dict::new();
                names.insert(Name::new("Dests"), Object::Dict(node));
                catalog.insert(Name::new("Names"), Object::Dict(names));
            },
        }
        let ghost mid = self.out@;
        self.put(catalog_num, Object::Dict(catalog));
        proof {
            assert(self.out@.dom() =~= before.dom());
            assert(named_dests_placed(before, self.out@, catalog_num, found, mv));
        }
        Ok(())
    }

    /// The output objects in increasing numbers.
    fn numbered_objects(&self) -> (v: Vec<(ObjRef, Object)>)
        requires
            self.wf(),
        ensures
            crate::writer::objects_ok(crate::writer::objects_view(v@)),
    {
        let mut v: Vec<(ObjRef, Object)> = Vec::new();
        let mut n: u32 = 1;
        while n < self.next
            invariant
                1 <= n <= self.next,
                forall|x: int| 0 <= x < v@.len() ==> 1 <= (#[trigger] v@[x]).0.num < n,
                forall|x: int, y: int| 0 <= x < y < v@.len() ==> (#[trigger] v@[x]).0.num < (#[trigger] v@[y]).0.num,
            decreases self.next - n,
        {
            match self.out.get(&n) {
                Some(o) => v.push((ObjRef { num: n, gen: 0 }, copy_object(o))),
                None => {},
            }
            n = n + 1;
        }
        v
    }
}

/// `a + b`, held within `i64`.
fn saturating_sum(a: i64, b: i64) -> (r: i64)
    ensures
        r == if a + b > i64::MAX {
            i64::MAX as int
        } else if a + b < i64::MIN {
            i64::MIN as int
        } else {
            a + b
        },
{
    if b > 0 && a > i64::MAX - b {
        i64::MAX
    } else if b < 0 && a < i64::MIN - b {
        i64::MIN
    } else {
        a + b
    }
}

/// The `(name, value)` pairs of a leaf's `/Names` array from position `j`
/// on, taken two by two; a pair whose first item is not a string, and a
/// last item alone, give nothing.
pub open spec fn leaf_pairs(names: Seq<ObjectView>, j: int) -> Seq<(Seq<u8>, ObjectView)>
    decreases names.len() - j,
{
    if j < 0 || names.len() - j <= 1 {
        Seq::empty()
    } else {
        let rest = leaf_pairs(names, j + 2);
        match names[j] {
            ObjectView::String(t) => seq![(t, names[j + 1])] + rest,
            _ => rest,
        }
    }
}

/// The kids of a name tree node, to be taken in order: `None` when
/// `/Kids` cannot be followed.
pub open spec fn kids_step(doc: &Document, d: Seq<(Seq<u8>, ObjectView)>) -> Option<Seq<ObjectView>> {
    match dict_get(d, "Kids".spec_bytes()) {
        None => Some(Seq::empty()),
        Some(k) => match doc.followed(k) {
            None => None,
            Some(ObjectView::Array(items)) => Some(items.reverse()),
            Some(_) => Some(Seq::empty()),
        },
    }
}

/// The pairs a name tree node holds itself: `None` when `/Names` cannot
/// be followed.
pub open spec fn names_step(doc: &Document, d: Seq<(Seq<u8>, ObjectView)>) -> Option<Seq<(Seq<u8>, ObjectView)>> {
    match dict_get(d, "Names".spec_bytes()) {
        None => Some(Seq::empty()),
        Some(n) => match doc.followed(n) {
            None => None,
            Some(ObjectView::Array(names)) => Some(leaf_pairs(names, 0)),
            Some(_) => Some(Seq::empty()),
        },
    }
}

/// The walk through a name tree, depth first, from the nodes on `stack`
/// (the last one next), `visited` holding the references already taken
/// and `pairs` what was found so far: the pairs once the stack is empty,
/// `None` when a node cannot be followed or `budget` nodes do not
/// suffice.
pub open spec fn name_tree_walk(doc: &Document, stack: Seq<ObjectView>, visited: Set<u64>, pairs: Seq<(Seq<u8>, ObjectView)>, budget: nat) -> Option<Seq<(Seq<u8>, ObjectView)>>
    decreases budget,
{
    if stack.len() == 0 {
        Some(pairs)
    } else if budget == 0 {
        None
    } else {
        let node = stack.last();
        let rest = stack.drop_last();
        if node is Reference && visited.contains(ref_key(node->Reference_0)) {
            name_tree_walk(doc, rest, visited, pairs, (budget - 1) as nat)
        } else {
            let vis = if node is Reference {
                visited.insert(ref_key(node->Reference_0))
            } else {
                visited
            };
            match doc.followed(node) {
                None => None,
                Some(ObjectView::Dict(d)) => match kids_step(doc, d) {
                    None => None,
                    Some(kids) => match names_step(doc, d) {
                        None => None,
                        Some(found) => name_tree_walk(doc, rest + kids, vis, pairs + found, (budget - 1) as nat),
                    },
                },
                Some(_) => name_tree_walk(doc, rest, vis, pairs, (budget - 1) as nat),
            }
        }
    }
}

/// The pairs as values.
pub open spec fn pairs_view(v: Seq<(Vec<u8>, Object)>) -> Seq<(Seq<u8>, ObjectView)> {
    v.map_values(|e: (Vec<u8>, Object)| (e.0@, e.1@))
}

/// The objects as values.
pub open spec fn stack_view(v: Seq<Object>) -> Seq<ObjectView> {
    v.map_values(|o: Object| o@)
}

/// Every `(name, value)` pair of a name tree (7.9.6), in tree order.
/// Tolerant: a node reached twice is skipped, a malformed node ignored,
/// a last name without a value left out.
fn name_tree_pairs(doc: &Document, root: &Object) -> (r: Result<Vec<(Vec<u8>, Object)>, Error>)
    ensures
        match name_tree_walk(doc, seq![root@], Set::empty(), Seq::empty(), crate::pagetree::MAX_PAGE_TREE_STEPS as nat) {
            Some(p) => r matches Ok(v) && pairs_view(v@) == p,
            None => r is Err,
        },
{
    let mut pairs: Vec<(Vec<u8>, Object)> = Vec::new();
    let mut visited: BTreeSet<u64> = BTreeSet::new();
    let mut stack: Vec<Object> = Vec::new();
    stack.push(copy_object(root));
    let mut budget: usize = crate::pagetree::MAX_PAGE_TREE_STEPS;
    let ghost goal = name_tree_walk(doc, seq![root@], Set::empty(), Seq::empty(), crate::pagetree::MAX_PAGE_TREE_STEPS as nat);
    assert(stack_view(stack@) =~= seq![root@]);
    assert(pairs_view(pairs@) =~= Seq::<(Seq<u8>, ObjectView)>::empty());
    while stack.len() > 0
        invariant
            goal == name_tree_walk(doc, seq![root@], Set::empty(), Seq::empty(), crate::pagetree::MAX_PAGE_TREE_STEPS as nat),
            goal == name_tree_walk(doc, stack_view(stack@), visited@, pairs_view(pairs@), budget as nat),
        decreases budget,
    {
        assert(stack_view(stack@).len() == stack@.len());
        if budget == 0 {
            assert(goal is None);
            return Err(Error::BadStructure { message: string_of("the name tree does not end") });
        }
        let ghost st = stack_view(stack@);
        let ghost vis0 = visited@;
        let ghost found0 = pairs_view(pairs@);
        let ghost b0 = budget as nat;
        budget = budget - 1;
        let node = stack.pop().unwrap();
        assert(stack_view(stack@) =~= st.drop_last());
        assert(node@ == st.last());
        if let Object::Reference(r) = node {
            if !visited.insert(key_of(r)) {
                proof {
                    assert(visited@ =~= vis0);
                    assert(goal == name_tree_walk(doc, st.drop_last(), vis0, found0, (b0 - 1) as nat));
                }
                continue;
            }
        }
        let ghost vis1 = visited@;
        assert(vis1 == if st.last() is Reference { vis0.insert(ref_key(st.last()->Reference_0)) } else { vis0 });
        let dict = match doc.resolve(&node) {
            Err(e) => return Err(e),
            Ok(Object::Dict(d)) => d,
            Ok(_) => {
                assert(goal == name_tree_walk(doc, st.drop_last(), vis1, found0, (b0 - 1) as nat));
                continue;
            },
        };
        assert(doc.followed(st.last()) == Some(ObjectView::Dict(dict@)));
        let ghost before_kids = stack_view(stack@);
        match dict.get(&Name::new("Kids")) {
            Some(k) => match doc.resolve(k) {
                Err(e) => return Err(e),
                Ok(Object::Array(kids)) => {
                    proof { crate::object::lemma_items_view(kids@); }
                    let ghost kv = crate::object::items_view(kids@);
                    let mut j: usize = kids.len();
                    while j > 0
                        invariant
                            j <= kids@.len(),
                            kv == crate::object::items_view(kids@),
                            kv.len() == kids@.len(),
                            forall|x: int| 0 <= x < kids@.len() ==> #[trigger] kv[x] == kids@[x]@,
                            stack_view(stack@) == before_kids + kv.reverse().take(kids@.len() - j),
                        decreases j,
                    {
                        let ghost sv = stack_view(stack@);
                        stack.push(copy_object(&kids[j - 1]));
                        proof {
                            assert(kv.reverse().take(kids@.len() - j + 1) =~= kv.reverse().take(kids@.len() - j).push(kv[j - 1]));
                            assert(stack_view(stack@) =~= sv.push(kids@[j - 1]@));
                        }
                        j = j - 1;
                    }
                    assert(kv.reverse().take(kids@.len() as int) =~= kv.reverse());
                },
                Ok(_) => {
                    assert(before_kids + Seq::<ObjectView>::empty() =~= before_kids);
                },
            },
            None => {
                assert(before_kids + Seq::<ObjectView>::empty() =~= before_kids);
            },
        }
        let ghost before_names = pairs_view(pairs@);
        match dict.get(&Name::new("Names")) {
            Some(n) => match doc.resolve(n) {
                Err(e) => return Err(e),
                Ok(Object::Array(names)) => {
                    proof { crate::object::lemma_items_view(names@); }
                    let ghost nv = crate::object::items_view(names@);
                    let mut j: usize = 0;
                    while names.len() - j > 1
                        invariant
                            j <= names@.len(),
                            j % 2 == 0,
                            nv == crate::object::items_view(names@),
                            nv.len() == names@.len(),
                            forall|x: int| 0 <= x < names@.len() ==> #[trigger] nv[x] == names@[x]@,
                            before_names + leaf_pairs(nv, 0) == pairs_view(pairs@) + leaf_pairs(nv, j as int),
                        decreases names@.len() - j,
                    {
                        let ghost pv = pairs_view(pairs@);
                        if let Object::String(name) = &names[j] {
                            pairs.push((name.clone(), copy_object(&names[j + 1])));
                            proof {
                                assert(pairs_view(pairs@) =~= pv.push((nv[j as int]->String_0, nv[j + 1])));
                                assert(pv + leaf_pairs(nv, j as int) =~= pairs_view(pairs@) + leaf_pairs(nv, j + 2));
                            }
                        } else {
                            assert(leaf_pairs(nv, j as int) == leaf_pairs(nv, j + 2));
                        }
                        j = j + 2;
                    }
                    proof {
                        assert(leaf_pairs(nv, j as int) =~= Seq::<(Seq<u8>, ObjectView)>::empty());
                        assert(pairs_view(pairs@) + Seq::<(Seq<u8>, ObjectView)>::empty() =~= pairs_view(pairs@));
                        assert(before_names + Seq::<(Seq<u8>, ObjectView)>::empty() =~= before_names);
                    }
                },
                Ok(_) => {
                    assert(before_names + Seq::<(Seq<u8>, ObjectView)>::empty() =~= before_names);
                },
            },
            None => {
                assert(before_names + Seq::<(Seq<u8>, ObjectView)>::empty() =~= before_names);
            },
        }
    }
    assert(stack_view(stack@).len() == stack@.len());
    assert(pairs_view(pairs@) == goal->Some_0);
    Ok(pairs)
}

/// The whole part of the digits of `t` from `k` up to the first `.`,
/// other bytes skipped, held at 2^31 once it reaches it, `v` being the
/// value of the digits before `k`.
pub open spec fn whole_part(t: Seq<u8>, k: int, v: int) -> int
    decreases t.len() - k,
{
    if k < 0 || k >= t.len() || t[k] == 46u8 {
        v
    } else if 48u8 <= t[k] <= 57u8 {
        let w = v * 10 + (t[k] - 48u8);
        whole_part(t, k + 1, if w > 2147483648 { 2147483648 } else { w })
    } else {
        whole_part(t, k + 1, v)
    }
}

/// The whole degrees of a real number's text: its sign, then the whole
/// part of its digits, toward zero, held within `i32`.
pub open spec fn real_degrees_of(t: Seq<u8>) -> int {
    if t.len() > 0 && t[0] == 45u8 {
        -whole_part(t, 1, 0)
    } else {
        let w = whole_part(t, 0, 0);
        if w > 2147483647 {
            2147483647
        } else {
            w
        }
    }
}

proof fn lemma_whole_part_bounded(t: Seq<u8>, k: int, v: int)
    requires
        0 <= v <= 2147483648,
    ensures
        0 <= whole_part(t, k, v) <= 2147483648,
    decreases t.len() - k,
{
    if !(k < 0 || k >= t.len() || t[k] == 46u8) {
        if 48u8 <= t[k] <= 57u8 {
            let w = v * 10 + (t[k] - 48u8);
            lemma_whole_part_bounded(t, k + 1, if w > 2147483648 { 2147483648 } else { w });
        } else {
            lemma_whole_part_bounded(t, k + 1, v);
        }
    }
}

/// The whole degrees of a real number's text (an optional `-`, digits
/// with at most one `.`), toward zero, held within `i32`.
fn real_degrees(text: &Vec<u8>) -> (d: i32)
    ensures
        d == real_degrees_of(text@),
{
    let mut k: usize = 0;
    let negative = text.len() > 0 && text[0] == 45u8;
    if negative {
        k = 1;
    }
    let ghost start = k as int;
    let mut value: i64 = 0;
    while k < text.len() && text[k] != 46u8
        invariant
            0 <= value <= 2147483648,
            start <= k <= text@.len(),
            whole_part(text@, start, 0) == whole_part(text@, k as int, value as int),
        decreases text@.len() - k,
    {
        let c = text[k];
        if c >= 48u8 && c <= 57u8 {
            value = value * 10 + (c - 48u8) as i64;
            if value > 2147483648 {
                value = 2147483648;
            }
        }
        k = k + 1;
    }
    proof { lemma_whole_part_bounded(text@, k as int, value as int); }
    if negative {
        (0 - value) as i32
    } else if value > 2147483647 {
        2147483647i32
    } else {
        value as i32
    }
}

/// `x` brought into `0..360`.
pub fn degrees_in_turn(x: i64) -> (r: i64)
    requires
        -4294967296 <= x <= 4294967296,
    ensures
        0 <= r < 360,
        (x - r) % 360 == 0,
        r == x % 360,
{
    let r = if x >= 0 {
        x % 360
    } else {
        let m = (0 - x) % 360;
        if m == 0 {
            0
        } else {
            360 - m
        }
    };
    assert(r == x % 360) by (nonlinear_arith)
        requires
            0 <= r < 360,
            (x - r) % 360 == 0,
    ;
    r
}

/// The `/Rotate` of a page dictionary as whole degrees: an integer
/// within `i32`, the whole part of a real number, 0 otherwise.
pub open spec fn current_rotation(d: Seq<(Seq<u8>, ObjectView)>) -> int {
    match dict_get(d, "Rotate".spec_bytes()) {
        Some(ObjectView::Integer(i)) => if -2147483648 <= i <= 2147483647 {
            i as int
        } else {
            0
        },
        Some(ObjectView::Real(t)) => real_degrees_of(t),
        _ => 0,
    }
}

/// A page dictionary turned by `degrees`: its `/Rotate` set to the sum
/// brought into `0..360`, or taken out when that is 0.
pub open spec fn turned_view(d: Seq<(Seq<u8>, ObjectView)>, degrees: i32) -> Seq<(Seq<u8>, ObjectView)> {
    let t = (current_rotation(d) + degrees) % 360;
    if t == 0 {
        dict_remove(d, "Rotate".spec_bytes())
    } else {
        dict_insert(d, "Rotate".spec_bytes(), ObjectView::Integer(t as i64))
    }
}

/// Turn a page dictionary by `degrees` clockwise, added to its current
/// `/Rotate` and brought into `0..360` (7.7.3.3); a turn of 0 leaves no
/// `/Rotate`.
fn turn_page(page: &mut Dict, degrees: i32)
    ensures
        final(page)@ == turned_view(old(page)@, degrees),
{
    let rotate = Name::new("Rotate");
    let current: i32 = match page.get(&rotate) {
        Some(Object::Integer(i)) => if -2147483648 <= *i && *i <= 2147483647 {
            *i as i32
        } else {
            0
        },
        Some(Object::Real(t)) => real_degrees(t),
        _ => 0,
    };
    let turned = degrees_in_turn(current as i64 + degrees as i64);
    if turned == 0 {
        let _ = page.remove(&rotate);
    } else {
        page.insert(rotate, Object::Integer(turned));
    }
}


/// `b` is a whole file as the writer lays it out, in `version`, with a
/// classic cross-reference table and no free entry: the header, every
/// object once, one section, a trailer with a fresh `/ID` string.
pub open spec fn written_file(b: Seq<u8>, version: PdfVersion) -> bool {
    exists|objs: Seq<(ObjRef, ObjectView)>, trailer: Seq<(Seq<u8>, ObjectView)>, fresh: Seq<u8>|
        #![trigger file_bytes(version, XrefStyle::Table, objs, Seq::empty(), trailer, fresh)]
        fresh.len() == 16 && file_bytes(version, XrefStyle::Table, objs, Seq::empty(), trailer, fresh)
            == Ok::<Seq<u8>, crate::writer::WriteFailure>(b)
}

/// No page turned.
fn no_turn() -> (t: Turn)
    ensures
        t.selected@.len() == 0,
        t.degrees == 0,
{
    Turn { selected: Vec::new(), degrees: 0 }
}

/// `doc` alone, as the list of sources of a builder.
fn single<'d, 'a>(doc: &'d Document<'a>) -> (v: Vec<&'d Document<'a>>)
    ensures
        v@.len() == 1,
        v@[0] == doc,
{
    let mut v: Vec<&'d Document<'a>> = Vec::new();
    v.push(doc);
    v
}

/// The later of two versions (the first when they are equal).
pub open spec fn later_version(a: PdfVersion, b: PdfVersion) -> PdfVersion {
    if crate::writer::version_lt(a, b) {
        b
    } else {
        a
    }
}

/// The latest version among `docs`, the first one on a tie.
pub open spec fn latest_version(docs: Seq<Document>) -> PdfVersion
    decreases docs.len(),
{
    if docs.len() <= 1 {
        docs[0].version_of()
    } else {
        later_version(latest_version(docs.drop_last()), docs.last().version_of())
    }
}

/// A merged file takes the latest version of its sources: no source has a
/// later version than it, and it is the version of one of them.
pub proof fn law_merged_version(docs: Seq<Document>)
    requires
        docs.len() > 0,
    ensures
        forall|i: int| 0 <= i < docs.len() ==> ({
            let v = latest_version(docs);
            let w = #[trigger] docs[i].version_of();
            v.major > w.major || (v.major == w.major && v.minor >= w.minor)
        }),
        exists|i: int| 0 <= i < docs.len() && latest_version(docs) == #[trigger] docs[i].version_of(),
    decreases docs.len(),
{
    if docs.len() > 1 {
        let rest = docs.drop_last();
        law_merged_version(rest);
        let v = latest_version(rest);
        let w = docs.last().version_of();
        assert forall|i: int| 0 <= i < docs.len() implies ({
            let v2 = latest_version(docs);
            let w2 = #[trigger] docs[i].version_of();
            v2.major > w2.major || (v2.major == w2.major && v2.minor >= w2.minor)
        }) by {
            if i < docs.len() - 1 {
                assert(docs[i] == rest[i]);
                let w2 = rest[i].version_of();
                assert(v.major > w2.major || (v.major == w2.major && v.minor >= w2.minor));
            }
        }
        let j = choose|j: int| 0 <= j < rest.len() && v == #[trigger] rest[j].version_of();
        if crate::writer::version_lt(v, w) {
            assert(latest_version(docs) == docs[docs.len() - 1].version_of());
        } else {
            assert(docs[j] == rest[j]);
            assert(latest_version(docs) == docs[j].version_of());
        }
    } else {
        assert(latest_version(docs) == docs[0].version_of());
    }
}

/// The later of two versions.
fn later(a: PdfVersion, b: PdfVersion) -> (v: PdfVersion)
    ensures
        v == later_version(a, b),
{
    if b.major > a.major || (b.major == a.major && b.minor > a.minor) {
        b
    } else {
        a
    }
}

/// Concatenate `documents` in order: every page of the first, then of the
/// second, and so on. The catalog, information dictionary and `/ID` come
/// from the first document; outlines are chained, named destinations and
/// form fields are merged (the first document wins on a name clash).
#[verifier::spinoff_prover]
pub fn merge(documents: &[Document]) -> (r: Result<Vec<u8>, Error>)
    ensures
        documents@.len() == 0 ==> (r matches Err(Error::BadOperation { message })
            && message@ == "no document to merge"@),
        r matches Ok(b) ==> written_file(b@, latest_version(documents@)),
        r is Ok ==> forall|i: int| 0 <= i < documents@.len() ==> ({
            let v = latest_version(documents@);
            let w = #[trigger] documents@[i].version_of();
            v.major > w.major || (v.major == w.major && v.minor >= w.minor)
        }),
        r is Ok ==> forall|i: int| 0 <= i < documents@.len() ==> (#[trigger] page_walk(&documents@[i])) is Some,
        (exists|i: int| 0 <= i < documents@.len() && (#[trigger] page_walk(&documents@[i])) is None) ==> r is Err,
{
    if documents.len() == 0 {
        return Err(operation("no document to merge"));
    }
    proof { law_merged_version(documents@); }
    let mut docs: Vec<&Document> = Vec::new();
    let mut k: usize = 0;
    while k < documents.len()
        invariant
            k <= documents@.len(),
            docs@.len() == k,
            forall|j: int| 0 <= j < k ==> *(#[trigger] docs@[j]) == documents@[j],
        decreases documents@.len() - k,
    {
        docs.push(&documents[k]);
        k = k + 1;
    }
    let mut builder = match Builder::new(&docs) {
        Err(e) => {
            proof {
                let i = choose|i: int| 0 <= i < docs@.len() && (#[trigger] page_walk(docs@[i])) is None;
                assert(*docs@[i] == documents@[i]);
            }
            return Err(e);
        },
        Ok(b) => b,
    };
    assert forall|i: int| 0 <= i < documents@.len() implies (#[trigger] page_walk(&documents@[i])) is Some by {
        assert(*docs@[i] == documents@[i]);
        assert(page_walk(docs@[i]) is Some);
    }
    let mut keep: Vec<(usize, usize)> = Vec::new();
    let mut i: usize = 0;
    while i < builder.sources.len()
        invariant
            i <= builder.sources@.len(),
            forall|j: int| 0 <= j < keep@.len() ==> (#[trigger] keep@[j]).0 < builder.sources@.len(),
        decreases builder.sources@.len() - i,
    {
        let mut p: usize = 0;
        while p < builder.sources[i].pages.len()
            invariant
                i < builder.sources@.len(),
                p <= builder.sources@[i as int].pages@.len(),
                forall|j: int| 0 <= j < keep@.len() ==> (#[trigger] keep@[j]).0 < builder.sources@.len(),
            decreases builder.sources@[i as int].pages@.len() - p,
        {
            keep.push((i, p));
            p = p + 1;
        }
        i = i + 1;
    }
    let mut version = documents[0].version();
    let mut k: usize = 1;
    assert(documents@.take(1).len() == 1);
    while k < documents.len()
        invariant
            1 <= k <= documents@.len(),
            version == latest_version(documents@.take(k as int)),
        decreases documents@.len() - k,
    {
        assert(documents@.take(k + 1).drop_last() =~= documents@.take(k as int));
        version = later(version, documents[k].version());
        k = k + 1;
    }
    assert(documents@.take(documents@.len() as int) =~= documents@);
    builder.build(&keep, version, &no_turn())
}

/// A document holding only the pages at `indices` (0-based), in that
/// order. Reordering is extracting in another order. Every index must
/// exist and appear once.
pub fn extract_pages(doc: &Document, indices: &[usize]) -> (r: Result<Vec<u8>, Error>)
    ensures
        r is Ok ==> indices@.len() > 0,
        r is Ok ==> forall|j: int, k: int| 0 <= j < k < indices@.len() ==> indices@[j] != indices@[k],
        r matches Ok(b) ==> written_file(b@, doc.version_of()),
        match page_walk(doc) {
            None => r is Err,
            Some((ps, _)) => (r is Ok ==> selection_ok(indices@, ps.len() as int, false)) && (!selection_ok(
                indices@,
                ps.len() as int,
                false,
            ) ==> (r matches Err(e) && selection_refusal_is(e, indices@, ps.len() as usize, false))),
        },
{
    let docs = single(doc);
    let mut builder = match Builder::new(&docs) {
        Err(e) => return Err(e),
        Ok(b) => b,
    };
    match check_selection(indices, builder.sources[0].pages.len(), false) {
        Err(e) => return Err(e),
        Ok(()) => {},
    }
    let mut keep: Vec<(usize, usize)> = Vec::new();
    let mut k: usize = 0;
    while k < indices.len()
        invariant
            k <= indices@.len(),
            forall|j: int| 0 <= j < keep@.len() ==> (#[trigger] keep@[j]).0 == 0,
        decreases indices@.len() - k,
    {
        keep.push((0, indices[k]));
        k = k + 1;
    }
    builder.build(&keep, doc.version(), &no_turn())
}

/// The document without the pages at `indices` (0-based). At least one
/// page must remain.
pub fn delete_pages(doc: &Document, indices: &[usize]) -> (r: Result<Vec<u8>, Error>)
    ensures
        r is Ok ==> forall|j: int, k: int| 0 <= j < k < indices@.len() ==> indices@[j] != indices@[k],
        r matches Ok(b) ==> written_file(b@, doc.version_of()),
        match page_walk(doc) {
            None => r is Err,
            Some((ps, _)) => (r is Ok ==> selection_ok(indices@, ps.len() as int, true)) && (!selection_ok(
                indices@,
                ps.len() as int,
                true,
            ) ==> (r matches Err(e) && selection_refusal_is(e, indices@, ps.len() as usize, true))),
        },
{
    let docs = single(doc);
    let mut builder = match Builder::new(&docs) {
        Err(e) => return Err(e),
        Ok(b) => b,
    };
    let count = builder.sources[0].pages.len();
    match check_selection(indices, count, true) {
        Err(e) => return Err(e),
        Ok(()) => {},
    }
    let mut dropped: Vec<bool> = Vec::new();
    let mut p: usize = 0;
    while p < count
        invariant
            p <= count,
            dropped@.len() == p,
        decreases count - p,
    {
        dropped.push(false);
        p = p + 1;
    }
    let mut k: usize = 0;
    while k < indices.len()
        invariant
            k <= indices@.len(),
            dropped@.len() == count,
            forall|j: int| 0 <= j < indices@.len() ==> indices@[j] < count,
        decreases indices@.len() - k,
    {
        dropped.set(indices[k], true);
        k = k + 1;
    }
    let mut keep: Vec<(usize, usize)> = Vec::new();
    let mut p: usize = 0;
    while p < count
        invariant
            p <= count,
            dropped@.len() == count,
            forall|j: int| 0 <= j < keep@.len() ==> (#[trigger] keep@[j]).0 == 0,
        decreases count - p,
    {
        if !dropped[p] {
            keep.push((0, p));
        }
        p = p + 1;
    }
    if keep.len() == 0 {
        return Err(operation("deleting every page would leave no page"));
    }
    builder.build(&keep, doc.version(), &no_turn())
}

/// The document with the pages at `indices` (0-based) turned by `degrees`
/// clockwise, a multiple of 90, added to their current `/Rotate` and
/// normalised into `0..360` (7.7.3.3). An empty selection turns nothing.
pub fn rotate(doc: &Document, indices: &[usize], degrees: i32) -> (r: Result<Vec<u8>, Error>)
    ensures
        degrees % 90 != 0 ==> (r matches Err(Error::BadOperation { message })
            && message@ == "rotation must be a multiple of 90 degrees, not "@ + signed_decimal(degrees as int)),
        r is Ok ==> forall|j: int, k: int| 0 <= j < k < indices@.len() ==> indices@[j] != indices@[k],
        r matches Ok(b) ==> written_file(b@, doc.version_of()),
        r is Ok ==> degrees % 90 == 0,
        degrees % 90 == 0 ==> match page_walk(doc) {
            None => r is Err,
            Some((ps, _)) => (r is Ok ==> selection_ok(indices@, ps.len() as int, true)) && (!selection_ok(
                indices@,
                ps.len() as int,
                true,
            ) ==> (r matches Err(e) && selection_refusal_is(e, indices@, ps.len() as usize, true))),
        },
{
    let magnitude: i64 = if degrees >= 0 {
        degrees as i64
    } else {
        0 - (degrees as i64)
    };
    if magnitude % 90 != 0 {
        assert(degrees % 90 != 0) by (nonlinear_arith)
            requires
                magnitude % 90 != 0,
                magnitude == degrees || magnitude == -degrees,
        ;
        let mut message = string_of("rotation must be a multiple of 90 degrees, not ");
        push_signed(&mut message, degrees as i64);
        return Err(Error::BadOperation { message });
    }
    assert(degrees % 90 == 0) by (nonlinear_arith)
        requires
            magnitude % 90 == 0,
            magnitude == degrees || magnitude == -degrees,
    ;
    let docs = single(doc);
    let mut builder = match Builder::new(&docs) {
        Err(e) => return Err(e),
        Ok(b) => b,
    };
    let count = builder.sources[0].pages.len();
    match check_selection(indices, count, true) {
        Err(e) => return Err(e),
        Ok(()) => {},
    }
    let mut selected: Vec<bool> = Vec::new();
    let mut keep: Vec<(usize, usize)> = Vec::new();
    let mut p: usize = 0;
    while p < count
        invariant
            p <= count,
            selected@.len() == p,
            forall|j: int| 0 <= j < keep@.len() ==> (#[trigger] keep@[j]).0 == 0,
        decreases count - p,
    {
        selected.push(false);
        keep.push((0, p));
        p = p + 1;
    }
    let mut k: usize = 0;
    while k < indices.len()
        invariant
            k <= indices@.len(),
            selected@.len() == count,
            forall|j: int| 0 <= j < indices@.len() ==> indices@[j] < count,
        decreases indices@.len() - k,
    {
        selected.set(indices[k], true);
        k = k + 1;
    }
    builder.build(&keep, doc.version(), &Turn { selected, degrees })
}

/// One document per range of `ranges` (0-based, end excluded), each
/// holding those pages in order. Ranges may overlap or leave pages out;
/// an empty range or one past the last page is an error.
pub fn split(doc: &Document, ranges: &[Range<usize>]) -> (r: Result<Vec<Vec<u8>>, Error>)
    ensures
        r matches Ok(parts) ==> parts@.len() == ranges@.len(),
        r matches Ok(parts) ==> forall|k: int| 0 <= k < parts@.len() ==> written_file(
            (#[trigger] parts@[k])@,
            doc.version_of(),
        ),
        ranges@.len() > 0 && ranges@[0].start >= ranges@[0].end ==> (r matches Err(Error::BadOperation { message })
            && message@ == "empty page range "@ + decimal(ranges@[0].start as nat) + ".."@ + decimal(ranges@[0].end as nat)),
        r is Ok ==> match page_walk(doc) {
            Some((ps, _)) => forall|k: int| 0 <= k < ranges@.len() ==> (#[trigger] ranges@[k]).start < ranges@[k].end
                <= ps.len(),
            None => ranges@.len() == 0,
        },
        ranges@.len() > 0 && page_walk(doc) is None ==> r is Err,
{
    let mut parts: Vec<Vec<u8>> = Vec::new();
    let mut k: usize = 0;
    while k < ranges.len()
        invariant
            k <= ranges@.len(),
            parts@.len() == k,
            k > 0 ==> ranges@[0].start < ranges@[0].end,
            forall|j: int| 0 <= j < k ==> written_file((#[trigger] parts@[j])@, doc.version_of()),
            k > 0 ==> page_walk(doc) is Some,
            page_walk(doc) matches Some((ps, _)) ==> forall|j: int| 0 <= j < k ==> (#[trigger] ranges@[j]).start
                < ranges@[j].end <= ps.len(),
        decreases ranges@.len() - k,
    {
        let start = ranges[k].start;
        let end = ranges[k].end;
        if start >= end {
            let mut message = string_of("empty page range ");
            push_decimal(&mut message, start as u64);
            push_str(&mut message, "..");
            push_decimal(&mut message, end as u64);
            return Err(Error::BadOperation { message });
        }
        let mut indices: Vec<usize> = Vec::new();
        let mut p: usize = start;
        while p < end
            invariant
                start <= p <= end,
                indices@.len() == p - start,
                forall|i: int| 0 <= i < indices@.len() ==> #[trigger] indices@[i] == start + i,
            decreases end - p,
        {
            indices.push(p);
            p = p + 1;
        }
        match extract_pages(doc, indices.as_slice()) {
            Err(e) => return Err(e),
            Ok(part) => {
                assert(indices@[indices@.len() - 1] == end - 1);
                parts.push(part);
            },
        }
        k = k + 1;
    }
    Ok(parts)
}

} // verus!
