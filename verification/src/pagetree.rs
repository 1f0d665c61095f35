//! The pages of a document in reading order, read from its page tree
//! (ISO 32000-2, 7.7.3), the inheritable attributes (table 30) resolved
//! into each page.

use crate::document::{catalog_of, structure_failure_is, structure_is, Document};
use crate::object::{
    copy_dict, copy_object, dict_get, dict_insert, dict_remove, entries_view, items_view, lemma_items_view, Dict,
    Name, ObjRef, Object, ObjectView,
};
use crate::text::string_of;
use crate::Error;
use std::collections::BTreeSet;
use vstd::prelude::*;
use vstd::string::StringSliceAdditionalSpecFns;

verus! {

/// How many nodes a walk through a page tree takes at most. A tree that
/// reaches its own arrays again through direct dictionaries never ends;
/// it is refused once this many nodes have been taken.
pub const MAX_PAGE_TREE_STEPS: usize = 16777216;

/// A page of a source document, its inheritable attributes resolved.
#[derive(Debug)]
pub struct Page {
    /// The page object, when the page tree holds it by reference (the
    /// normal case). `None` for a page dictionary written directly in a
    /// `/Kids` array.
    pub reference: Option<ObjRef>,
    /// The page dictionary with the inherited attributes filled in and
    /// `/Parent` left out: what the page is, independently of the tree.
    pub dict: Dict,
}

impl Clone for Page {
    fn clone(&self) -> (r: Page)
        ensures
            r.reference == self.reference,
            r.dict@ == self.dict@,
    {
        Page { reference: self.reference, dict: copy_dict(&self.dict) }
    }
}

/// The key under which a walk remembers `r`: one number per reference.
pub open spec fn ref_key(r: ObjRef) -> u64 {
    (r.num * 65536 + r.gen) as u64
}

pub fn key_of(r: ObjRef) -> (k: u64)
    ensures
        k == ref_key(r),
{
    (r.num as u64) * 65536 + (r.gen as u64)
}

proof fn lemma_ref_key_injective(a: ObjRef, b: ObjRef)
    requires
        ref_key(a) == ref_key(b),
    ensures
        a == b,
{
}

/// What the references of a walk's result are: each page held by
/// reference is a dictionary of the document without `/Kids`, each
/// intermediate node one with `/Kids`, and no reference comes twice.
pub open spec fn walk_refs_ok(doc: &Document, pages: Seq<Page>, nodes: Seq<ObjRef>) -> bool {
    &&& forall|i: int| 0 <= i < pages.len() && (#[trigger] pages[i]).reference is Some ==> {
        &&& doc.object_of(pages[i].reference->0) matches Ok(Some(ObjectView::Dict(d)))
        &&& dict_get(d, "Kids".spec_bytes()) is None
    }
    &&& forall|i: int| 0 <= i < nodes.len() ==> {
        &&& doc.object_of(#[trigger] nodes[i]) matches Ok(Some(ObjectView::Dict(d)))
        &&& dict_get(d, "Kids".spec_bytes()) is Some
    }
    &&& forall|i: int, j: int| 0 <= i < j < pages.len() && (#[trigger] pages[i]).reference is Some
        ==> (#[trigger] pages[j]).reference != pages[i].reference
    &&& forall|i: int, j: int| 0 <= i < j < nodes.len() ==> #[trigger] nodes[i] != #[trigger] nodes[j]
    &&& forall|i: int, j: int| 0 <= i < pages.len() && 0 <= j < nodes.len()
        ==> (#[trigger] pages[i]).reference != Some(#[trigger] nodes[j])
}

/// The key of the `k`-th attribute a page inherits from its ancestors
/// (table 30): `/Resources`, `/MediaBox`, `/CropBox`, `/Rotate`.
pub open spec fn inheritable_key(k: int) -> Seq<u8> {
    if k == 0 {
        "Resources".spec_bytes()
    } else if k == 1 {
        "MediaBox".spec_bytes()
    } else if k == 2 {
        "CropBox".spec_bytes()
    } else {
        "Rotate".spec_bytes()
    }
}

/// The four inheritable keys differ from one another.
proof fn lemma_inheritable_keys_differ()
    ensures
        "Resources".spec_bytes() != "MediaBox".spec_bytes(),
        "Resources".spec_bytes() != "CropBox".spec_bytes(),
        "Resources".spec_bytes() != "Rotate".spec_bytes(),
        "MediaBox".spec_bytes() != "CropBox".spec_bytes(),
        "MediaBox".spec_bytes() != "Rotate".spec_bytes(),
        "CropBox".spec_bytes() != "Rotate".spec_bytes(),
{
    reveal_strlit("Resources");
    reveal_strlit("MediaBox");
    reveal_strlit("CropBox");
    reveal_strlit("Rotate");
    assert(vstd::string::is_ascii("Resources"));
    assert(vstd::string::is_ascii("MediaBox"));
    assert(vstd::string::is_ascii("CropBox"));
    assert(vstd::string::is_ascii("Rotate"));
    vstd::string::is_ascii_spec_bytes("Resources");
    vstd::string::is_ascii_spec_bytes("MediaBox");
    vstd::string::is_ascii_spec_bytes("CropBox");
    vstd::string::is_ascii_spec_bytes("Rotate");
    assert("Resources".spec_bytes()[0] != "MediaBox".spec_bytes()[0]);
    assert("Resources".spec_bytes()[0] != "CropBox".spec_bytes()[0]);
    assert("Resources".spec_bytes()[1] != "Rotate".spec_bytes()[1]);
    assert("MediaBox".spec_bytes()[0] != "CropBox".spec_bytes()[0]);
    assert("MediaBox".spec_bytes()[0] != "Rotate".spec_bytes()[0]);
    assert("CropBox".spec_bytes()[0] != "Rotate".spec_bytes()[0]);
}

/// `/Parent` is not inherited.
proof fn lemma_parent_not_inheritable()
    ensures
        "Parent".spec_bytes() != "Resources".spec_bytes(),
        "Parent".spec_bytes() != "MediaBox".spec_bytes(),
        "Parent".spec_bytes() != "CropBox".spec_bytes(),
        "Parent".spec_bytes() != "Rotate".spec_bytes(),
{
    reveal_strlit("Parent");
    reveal_strlit("Resources");
    reveal_strlit("MediaBox");
    reveal_strlit("CropBox");
    reveal_strlit("Rotate");
    assert(vstd::string::is_ascii("Parent"));
    assert(vstd::string::is_ascii("Resources"));
    assert(vstd::string::is_ascii("MediaBox"));
    assert(vstd::string::is_ascii("CropBox"));
    assert(vstd::string::is_ascii("Rotate"));
    vstd::string::is_ascii_spec_bytes("Parent");
    vstd::string::is_ascii_spec_bytes("Resources");
    vstd::string::is_ascii_spec_bytes("MediaBox");
    vstd::string::is_ascii_spec_bytes("CropBox");
    vstd::string::is_ascii_spec_bytes("Rotate");
    assert("Parent".spec_bytes()[0] != "Resources".spec_bytes()[0]);
    assert("Parent".spec_bytes()[0] != "MediaBox".spec_bytes()[0]);
    assert("Parent".spec_bytes()[0] != "CropBox".spec_bytes()[0]);
    assert("Parent".spec_bytes()[0] != "Rotate".spec_bytes()[0]);
}

/// The key `k` is one of the first `j` inheritable attributes.
spec fn among_first(k: Seq<u8>, j: int) -> bool {
    exists|i: int| 0 <= i < j && inheritable_key(i) == k
}

proof fn lemma_inherited_upto(attrs: Seq<(Seq<u8>, ObjectView)>, d: Seq<(Seq<u8>, ObjectView)>, j: int, k: Seq<u8>)
    requires
        crate::object::keys_sorted(attrs),
        0 <= j <= 4,
    ensures
        crate::object::keys_sorted(inherited_upto(attrs, d, j)),
        dict_get(inherited_upto(attrs, d, j), k) == if among_first(k, j) && dict_get(d, k) is Some {
            dict_get(d, k)
        } else {
            dict_get(attrs, k)
        },
    decreases j,
{
    if j > 0 {
        lemma_inherited_upto(attrs, d, j - 1, k);
        lemma_inheritable_keys_differ();
        let before = inherited_upto(attrs, d, j - 1);
        let key = inheritable_key(j - 1);
        assert(among_first(k, j) <==> among_first(k, j - 1) || key == k) by {
            if among_first(k, j) {
                let i = choose|i: int| 0 <= i < j && inheritable_key(i) == k;
                if i < j - 1 {
                    assert(among_first(k, j - 1));
                }
            }
            if key == k {
                assert(0 <= j - 1 < j && inheritable_key(j - 1) == k);
            }
            if among_first(k, j - 1) {
                let i = choose|i: int| 0 <= i < j - 1 && inheritable_key(i) == k;
                assert(0 <= i < j && inheritable_key(i) == k);
            }
        }
        if key == k && among_first(k, j - 1) {
            let i = choose|i: int| 0 <= i < j - 1 && inheritable_key(i) == k;
            assert(inheritable_key(i) != inheritable_key(j - 1));
        }
        match dict_get(d, key) {
            Some(v) => {
                crate::object::law_insert_keeps_keys_sorted(before, key, v);
                crate::object::law_get_after_insert(before, key, v, k);
            },
            None => {},
        }
    }
}

/// The attributes a page inherits are exactly `/Resources`, `/MediaBox`,
/// `/CropBox` and `/Rotate` (table 30): passing a node of the page tree,
/// each of these four keys the node has replaces what came from above, and
/// every other key keeps what came from above.
pub proof fn law_inherited_attributes(attrs: Seq<(Seq<u8>, ObjectView)>, d: Seq<(Seq<u8>, ObjectView)>, k: Seq<u8>)
    requires
        crate::object::keys_sorted(attrs),
    ensures
        crate::object::keys_sorted(inherited_upto(attrs, d, 4)),
        dict_get(inherited_upto(attrs, d, 4), k) == if (k == "Resources".spec_bytes() || k == "MediaBox".spec_bytes()
            || k == "CropBox".spec_bytes() || k == "Rotate".spec_bytes()) && dict_get(d, k) is Some {
            dict_get(d, k)
        } else {
            dict_get(attrs, k)
        },
{
    lemma_inherited_upto(attrs, d, 4, k);
    if k == "Resources".spec_bytes() {
        assert(inheritable_key(0) == k);
    }
    if k == "MediaBox".spec_bytes() {
        assert(inheritable_key(1) == k);
    }
    if k == "CropBox".spec_bytes() {
        assert(inheritable_key(2) == k);
    }
    if k == "Rotate".spec_bytes() {
        assert(inheritable_key(3) == k);
    }
    if among_first(k, 4) {
        let i = choose|i: int| 0 <= i < 4 && inheritable_key(i) == k;
        assert(i == 0 || i == 1 || i == 2 || i == 3);
    }
}

proof fn lemma_filled_upto(page: Seq<(Seq<u8>, ObjectView)>, attrs: Seq<(Seq<u8>, ObjectView)>, j: int, k: Seq<u8>)
    requires
        crate::object::keys_sorted(page),
        crate::object::keys_sorted(attrs),
        0 <= j <= attrs.len(),
    ensures
        crate::object::keys_sorted(filled_upto(page, attrs, j)),
        dict_get(filled_upto(page, attrs, j), k) == if dict_get(page, k) is Some {
            dict_get(page, k)
        } else {
            dict_get(attrs.take(j), k)
        },
    decreases j,
{
    crate::object::lemma_key_position(attrs.take(j), k);
    if j > 0 {
        lemma_filled_upto(page, attrs, j - 1, k);
        let before = filled_upto(page, attrs, j - 1);
        let e = attrs[j - 1];
        let t0 = attrs.take(j - 1);
        let t1 = attrs.take(j);
        crate::object::lemma_key_position(t0, k);
        assert(t1 =~= t0.push(e));
        // The key of the new entry comes after every earlier one.
        assert forall|x: int| 0 <= x < t0.len() implies (#[trigger] t0[x]).0 != e.0 by {
            assert(t0[x] == attrs[x]);
            assert(crate::object::bytes_lt(attrs[x].0, attrs[j - 1].0));
            crate::object::lemma_bytes_lt_irreflexive(attrs[x].0);
        }
        crate::object::lemma_key_position(t1, k);
        if k != e.0 {
            assert(dict_get(t1, k) == dict_get(t0, k)) by {
                if crate::object::key_position(t0, k) < t0.len() {
                    assert(crate::object::key_position(t1, k) <= crate::object::key_position(t0, k));
                    assert(t1[crate::object::key_position(t0, k)] == t0[crate::object::key_position(t0, k)]);
                } else {
                    assert forall|x: int| 0 <= x < t1.len() implies (#[trigger] t1[x]).0 != k by {
                        if x < t0.len() {
                            assert(t1[x] == t0[x]);
                        }
                    }
                    crate::object::lemma_key_position_found(t1, k, t1.len() as int);
                }
            }
        } else {
            assert(dict_get(t0, k) is None) by {
                if crate::object::key_position(t0, k) < t0.len() {
                    assert(t0[crate::object::key_position(t0, k)].0 == k);
                }
            }
            assert(dict_get(t1, k) == Some(e.1)) by {
                assert forall|x: int| 0 <= x < t0.len() implies (#[trigger] t1[x]).0 != k by {
                    assert(t1[x] == t0[x]);
                }
                crate::object::lemma_key_position_found(t1, k, t0.len() as int);
            }
        }
        if dict_get(before, e.0) is None {
            crate::object::law_insert_keeps_keys_sorted(before, e.0, e.1);
            crate::object::law_get_after_insert(before, e.0, e.1, k);
        }
    } else {
        assert(attrs.take(0).len() == 0);
    }
}

/// What a page dictionary holds once read from its tree: its own value
/// for every key it has, but `/Parent`, and for every key it lacks the
/// value inherited from its ancestors, if any.
pub proof fn law_page_entry(d: Seq<(Seq<u8>, ObjectView)>, attrs: Seq<(Seq<u8>, ObjectView)>, k: Seq<u8>)
    requires
        crate::object::keys_sorted(d),
        crate::object::keys_sorted(attrs),
    ensures
        dict_get(page_entry(d, attrs), k) == if k != "Parent".spec_bytes() && dict_get(d, k) is Some {
            dict_get(d, k)
        } else {
            dict_get(attrs, k)
        },
{
    let p = "Parent".spec_bytes();
    crate::object::law_get_after_remove(d, p, k);
    lemma_filled_upto(dict_remove(d, p), attrs, attrs.len() as int, k);
    assert(attrs.take(attrs.len() as int) =~= attrs);
}

/// The attributes a page inherits from its ancestors (table 30).
fn inheritable(k: usize) -> (s: &'static str)
    requires
        k < 4,
    ensures
        s.spec_bytes() == inheritable_key(k as int),
{
    if k == 0 {
        "Resources"
    } else if k == 1 {
        "MediaBox"
    } else if k == 2 {
        "CropBox"
    } else {
        "Rotate"
    }
}

/// `attrs` with the first `k` inheritable attributes of `dict` set over
/// it, each where `dict` has it.
pub open spec fn inherited_upto(attrs: Seq<(Seq<u8>, ObjectView)>, dict: Seq<(Seq<u8>, ObjectView)>, k: int) -> Seq<(Seq<u8>, ObjectView)>
    decreases k,
{
    if k <= 0 {
        attrs
    } else {
        let before = inherited_upto(attrs, dict, k - 1);
        match dict_get(dict, inheritable_key(k - 1)) {
            Some(v) => dict_insert(before, inheritable_key(k - 1), v),
            None => before,
        }
    }
}

/// `inherited` with the inheritable attributes of `dict` set over it.
fn inherit(inherited: Dict, dict: &Dict) -> (attrs: Dict)
    ensures
        attrs@ == inherited_upto(inherited@, dict@, 4),
{
    let ghost start = inherited@;
    let mut attrs = inherited;
    let mut k: usize = 0;
    while k < 4
        invariant
            k <= 4,
            attrs@ == inherited_upto(start, dict@, k as int),
        decreases 4 - k,
    {
        let key = inheritable(k);
        match dict.get(&Name::new(key)) {
            Some(value) => attrs.insert(Name::new(key), copy_object(value)),
            None => {},
        }
        k = k + 1;
    }
    attrs
}

/// `page` with each of the first `k` entries of `attrs` whose key it lacks
/// filled in, in order.
pub open spec fn filled_upto(page: Seq<(Seq<u8>, ObjectView)>, attrs: Seq<(Seq<u8>, ObjectView)>, k: int) -> Seq<(Seq<u8>, ObjectView)>
    decreases k,
{
    if k <= 0 {
        page
    } else {
        let before = filled_upto(page, attrs, k - 1);
        if dict_get(before, attrs[k - 1].0) is None {
            dict_insert(before, attrs[k - 1].0, attrs[k - 1].1)
        } else {
            before
        }
    }
}

/// The page dictionary: `dict` without `/Parent`, each attribute of
/// `attrs` it lacks filled in.
fn page_dict(dict: Dict, attrs: &Dict) -> (page: Dict)
    ensures
        page@ == filled_upto(dict_remove(dict@, "Parent".spec_bytes()), attrs@, attrs@.len() as int),
{
    let mut page = dict;
    let _ = page.remove(&Name::new("Parent"));
    let ghost start = page@;
    let entries = attrs.entries();
    proof { crate::object::lemma_entries_view(entries@); }
    let mut k: usize = 0;
    while k < entries.len()
        invariant
            k <= entries@.len(),
            entries_view(entries@) == attrs@,
            attrs@.len() == entries@.len(),
            forall|j: int| 0 <= j < entries@.len() ==> #[trigger] attrs@[j] == (entries@[j].0.0@, entries@[j].1@),
            page@ == filled_upto(start, attrs@, k as int),
        decreases entries@.len() - k,
    {
        let key = &entries[k].0;
        if !page.contains_key(key) {
            page.insert(Name(key.0.clone()), copy_object(&entries[k].1));
        }
        k = k + 1;
    }
    page
}

/// A page as a walk yields it: its reference, if any, and its dictionary.
pub type PageView = (Option<ObjRef>, Seq<(Seq<u8>, ObjectView)>);

/// What a walk holds of a page.
pub open spec fn page_view(p: Page) -> PageView {
    (p.reference, p.dict@)
}

/// What a walk holds of its pages.
pub open spec fn pages_view(ps: Seq<Page>) -> Seq<PageView> {
    ps.map_values(|p: Page| page_view(p))
}

/// The nodes a walk still has to take, each with the attributes it
/// inherits; the last one is taken next.
pub open spec fn stack_view(s: Seq<(Object, Dict)>) -> Seq<(ObjectView, Seq<(Seq<u8>, ObjectView)>)> {
    s.map_values(|e: (Object, Dict)| (e.0@, e.1@))
}

/// The dictionary a walk takes from `node`, with its reference: a
/// reference not seen before that leads to a dictionary, or a dictionary
/// written in place. `Ok(None)` when the node is skipped; `Err` when the
/// object cannot be read.
pub open spec fn taken(doc: &Document, node: ObjectView, visited: Set<u64>) -> Result<Option<(Option<ObjRef>, Seq<(Seq<u8>, ObjectView)>)>, ()> {
    match node {
        ObjectView::Reference(r) => if visited.contains(ref_key(r)) {
            Ok(None)
        } else {
            match doc.object_of(r) {
                Err(_) => Err(()),
                Ok(Some(ObjectView::Dict(d))) => Ok(Some((Some(r), d))),
                Ok(_) => Ok(None),
            }
        },
        ObjectView::Dict(d) => Ok(Some((None, d))),
        _ => Ok(None),
    }
}

/// The references seen once `node` is taken.
pub open spec fn visited_after(node: ObjectView, visited: Set<u64>) -> Set<u64> {
    match node {
        ObjectView::Reference(r) => visited.insert(ref_key(r)),
        _ => visited,
    }
}

/// The kids of a node as they wait to be taken, the first one last so
/// that it is taken next, each inheriting `attrs`.
pub open spec fn kids_on_stack(items: Seq<ObjectView>, attrs: Seq<(Seq<u8>, ObjectView)>) -> Seq<(ObjectView, Seq<(Seq<u8>, ObjectView)>)> {
    Seq::new(items.len(), |i: int| (items[items.len() - 1 - i], attrs))
}

/// A page dictionary as the walk yields it: `/Parent` left out, each
/// inherited attribute it lacks filled in.
pub open spec fn page_entry(d: Seq<(Seq<u8>, ObjectView)>, attrs: Seq<(Seq<u8>, ObjectView)>) -> Seq<(Seq<u8>, ObjectView)> {
    filled_upto(dict_remove(d, "Parent".spec_bytes()), attrs, attrs.len() as int)
}

/// A depth-first walk of a page tree, in reading order, from the nodes of
/// `stack`, at most `budget` nodes more: each node with `/Kids` is an
/// intermediate node whose kids come next in order, each other dictionary
/// is a page; a reference already seen is skipped, as is a kid that is
/// not a dictionary. The pages and intermediate nodes found, or `None`
/// when an object cannot be read, the budget runs out, or no page is
/// found.
pub open spec fn walk_from(
    doc: &Document,
    stack: Seq<(ObjectView, Seq<(Seq<u8>, ObjectView)>)>,
    visited: Set<u64>,
    pages: Seq<PageView>,
    nodes: Seq<ObjRef>,
    budget: nat,
) -> Option<(Seq<PageView>, Seq<ObjRef>)>
    decreases budget,
{
    if stack.len() == 0 {
        if pages.len() == 0 {
            None
        } else {
            Some((pages, nodes))
        }
    } else if budget == 0 {
        None
    } else {
        let node = stack.last().0;
        let inherited = stack.last().1;
        let rest = stack.drop_last();
        let b = (budget - 1) as nat;
        let v2 = visited_after(node, visited);
        match taken(doc, node, visited) {
            Err(_) => None,
            Ok(None) => walk_from(doc, rest, v2, pages, nodes, b),
            Ok(Some((reference, d))) => {
                let attrs = inherited_upto(inherited, d, 4);
                match dict_get(d, "Kids".spec_bytes()) {
                    Some(k) => {
                        let nodes2 = match reference {
                            Some(r) => nodes.push(r),
                            None => nodes,
                        };
                        match doc.followed(k) {
                            None => None,
                            Some(ObjectView::Array(items)) => walk_from(
                                doc,
                                rest + kids_on_stack(items, attrs),
                                v2,
                                pages,
                                nodes2,
                                b,
                            ),
                            Some(_) => walk_from(doc, rest, v2, pages, nodes2, b),
                        }
                    },
                    None => walk_from(doc, rest, v2, pages.push((reference, page_entry(d, attrs))), nodes, b),
                }
            },
        }
    }
}

/// What page `d` holds, `e`, once read under the inherited attributes
/// `inherited`: its own entries but `/Parent`, and the inherited value of
/// every key it lacks.
pub open spec fn page_inherits(e: Seq<(Seq<u8>, ObjectView)>, d: Seq<(Seq<u8>, ObjectView)>, inherited: Seq<(Seq<u8>, ObjectView)>) -> bool {
    forall|k: Seq<u8>| #[trigger] dict_get(e, k) == if k != "Parent".spec_bytes() && dict_get(d, k) is Some {
        dict_get(d, k)
    } else {
        dict_get(inherited, k)
    }
}

/// A page reached in a walk of its page tree holds its own entries, but
/// `/Parent`, and for every key it lacks the value it inherits from the
/// nodes above it; the walk goes on with the rest of the tree.
pub proof fn law_walk_reaches_page(
    doc: &Document,
    stack: Seq<(ObjectView, Seq<(Seq<u8>, ObjectView)>)>,
    visited: Set<u64>,
    pages: Seq<PageView>,
    nodes: Seq<ObjRef>,
    budget: nat,
    reference: Option<ObjRef>,
    d: Seq<(Seq<u8>, ObjectView)>,
)
    requires
        budget > 0,
        stack.len() > 0,
        taken(doc, stack.last().0, visited) == Ok::<Option<(Option<ObjRef>, Seq<(Seq<u8>, ObjectView)>)>, ()>(Some((reference, d))),
        dict_get(d, "Kids".spec_bytes()) is None,
        crate::object::keys_sorted(d),
        crate::object::keys_sorted(stack.last().1),
    ensures
        exists|e: Seq<(Seq<u8>, ObjectView)>|
            {
                &&& #[trigger] page_inherits(e, d, stack.last().1)
                &&& walk_from(doc, stack, visited, pages, nodes, budget) == walk_from(
                    doc,
                    stack.drop_last(),
                    visited_after(stack.last().0, visited),
                    pages.push((reference, e)),
                    nodes,
                    (budget - 1) as nat,
                )
            },
{
    let inherited = stack.last().1;
    let attrs = inherited_upto(inherited, d, 4);
    let e = page_entry(d, attrs);
    law_inherited_attributes(inherited, d, "Parent".spec_bytes());
    assert forall|k: Seq<u8>| #[trigger] dict_get(e, k) == if k != "Parent".spec_bytes() && dict_get(d, k) is Some {
        dict_get(d, k)
    } else {
        dict_get(inherited, k)
    } by {
        lemma_parent_not_inheritable();
        law_inherited_attributes(inherited, d, k);
        law_page_entry(d, attrs, k);
    }
    assert(page_inherits(e, d, inherited));
}

/// What the kids of node `d` inherit, `attrs`, when the node itself
/// inherits `inherited`: `/Resources`, `/MediaBox`, `/CropBox` and
/// `/Rotate` from the node where it has them, everything else as it came
/// from above.
pub open spec fn kids_inherit(attrs: Seq<(Seq<u8>, ObjectView)>, d: Seq<(Seq<u8>, ObjectView)>, inherited: Seq<(Seq<u8>, ObjectView)>) -> bool {
    forall|k: Seq<u8>| #[trigger] dict_get(attrs, k) == if (k == "Resources".spec_bytes() || k == "MediaBox".spec_bytes()
        || k == "CropBox".spec_bytes() || k == "Rotate".spec_bytes()) && dict_get(d, k) is Some {
        dict_get(d, k)
    } else {
        dict_get(inherited, k)
    }
}

/// An intermediate node reached in a walk puts its kids next, in order,
/// each inheriting `/Resources`, `/MediaBox`, `/CropBox` and `/Rotate`
/// from the node where it has them and from above otherwise, and nothing
/// else from the node.
pub proof fn law_walk_reaches_node(
    doc: &Document,
    stack: Seq<(ObjectView, Seq<(Seq<u8>, ObjectView)>)>,
    visited: Set<u64>,
    pages: Seq<PageView>,
    nodes: Seq<ObjRef>,
    budget: nat,
    reference: Option<ObjRef>,
    d: Seq<(Seq<u8>, ObjectView)>,
    items: Seq<ObjectView>,
)
    requires
        budget > 0,
        stack.len() > 0,
        taken(doc, stack.last().0, visited) == Ok::<Option<(Option<ObjRef>, Seq<(Seq<u8>, ObjectView)>)>, ()>(Some((reference, d))),
        dict_get(d, "Kids".spec_bytes()) matches Some(k) && doc.followed(k) == Some(ObjectView::Array(items)),
        crate::object::keys_sorted(stack.last().1),
    ensures
        exists|attrs: Seq<(Seq<u8>, ObjectView)>|
            {
                &&& #[trigger] kids_inherit(attrs, d, stack.last().1)
                &&& walk_from(doc, stack, visited, pages, nodes, budget) == walk_from(
                    doc,
                    stack.drop_last() + Seq::new(items.len(), |i: int| (items[items.len() - 1 - i], attrs)),
                    visited_after(stack.last().0, visited),
                    pages,
                    match reference {
                        Some(r) => nodes.push(r),
                        None => nodes,
                    },
                    (budget - 1) as nat,
                )
            },
{
    let inherited = stack.last().1;
    let attrs = inherited_upto(inherited, d, 4);
    assert forall|k: Seq<u8>| #[trigger] dict_get(attrs, k) == if (k == "Resources".spec_bytes() || k
        == "MediaBox".spec_bytes() || k == "CropBox".spec_bytes() || k == "Rotate".spec_bytes())
        && dict_get(d, k) is Some {
        dict_get(d, k)
    } else {
        dict_get(inherited, k)
    } by {
        law_inherited_attributes(inherited, d, k);
    }
    assert(kids_inherit(attrs, d, inherited));
    assert(kids_on_stack(items, attrs) =~= Seq::new(items.len(), |i: int| (items[items.len() - 1 - i], attrs)));
}

/// The pages of `doc` in reading order and the intermediate nodes of its
/// page tree, from the `/Pages` root of its catalog (see [`walk_from`]);
/// `None` when the catalog or the tree cannot be read or holds no page.
pub open spec fn page_walk(doc: &Document) -> Option<(Seq<PageView>, Seq<ObjRef>)> {
    match catalog_of(doc, doc.table().trailer) {
        Ok(c) => match dict_get(c, "Pages".spec_bytes()) {
            Some(root) => walk_from(
                doc,
                seq![(root, Seq::<(Seq<u8>, ObjectView)>::empty())],
                Set::empty(),
                Seq::empty(),
                Seq::empty(),
                MAX_PAGE_TREE_STEPS as nat,
            ),
            None => None,
        },
        Err(_) => None,
    }
}

/// The pages of `doc` and the references of the intermediate nodes of its
/// page tree. Tolerant: a node without `/Type` is a page unless it has
/// `/Kids`, a kid that is not a dictionary is skipped, a node reached
/// twice (loop, or a page listed twice) is taken once.
pub fn walk(doc: &Document) -> (r: Result<(Vec<Page>, Vec<ObjRef>), Error>)
    ensures
        catalog_of(doc, doc.table().trailer) matches Err(f) ==> (r matches Err(e) && structure_failure_is(e, f)),
        catalog_of(doc, doc.table().trailer) matches Ok(c) ==> (dict_get(c, "Pages".spec_bytes()) is None
            ==> (r matches Err(e) && structure_is(e, "catalog has no /Pages"@))),
        r matches Ok((pages, nodes)) ==> pages@.len() > 0 && walk_refs_ok(doc, pages@, nodes@),
        match page_walk(doc) {
            Some((ps, ns)) => r matches Ok((pages, nodes)) && pages_view(pages@) == ps && nodes@ == ns,
            None => r is Err,
        },
{
    let catalog = match doc.catalog() {
        Err(e) => return Err(e),
        Ok(c) => c,
    };
    let root = match catalog.get(&Name::new("Pages")) {
        Some(o) => copy_object(o),
        None => return Err(Error::BadStructure { message: string_of("catalog has no /Pages") }),
    };
    let mut pages: Vec<Page> = Vec::new();
    let mut nodes: Vec<ObjRef> = Vec::new();
    let mut visited: BTreeSet<u64> = BTreeSet::new();
    let mut stack: Vec<(Object, Dict)> = Vec::new();
    stack.push((root, Dict::new()));
    let mut budget: usize = MAX_PAGE_TREE_STEPS;
    assert(stack_view(stack@) =~= seq![(root@, Seq::<(Seq<u8>, ObjectView)>::empty())]);
    assert(pages_view(pages@) =~= Seq::<PageView>::empty());
    assert(visited@ =~= Set::<u64>::empty());
    while stack.len() > 0
        invariant
            catalog_of(doc, doc.table().trailer) matches Ok(c) && dict_get(c, "Pages".spec_bytes()) is Some,
            walk_refs_ok(doc, pages@, nodes@),
            forall|i: int| 0 <= i < pages@.len() && (#[trigger] pages@[i]).reference is Some
                ==> visited@.contains(ref_key(pages@[i].reference->0)),
            forall|i: int| 0 <= i < nodes@.len() ==> visited@.contains(ref_key(#[trigger] nodes@[i])),
            walk_from(doc, stack_view(stack@), visited@, pages_view(pages@), nodes@, budget as nat) == page_walk(doc),
        decreases budget,
    {
        let ghost st = stack_view(stack@);
        let ghost vis = visited@;
        let ghost pv = pages_view(pages@);
        let ghost nd = nodes@;
        let ghost bud = budget as nat;
        if budget == 0 {
            return Err(Error::BadStructure { message: string_of("the page tree does not end") });
        }
        budget = budget - 1;
        let (node, inherited) = stack.pop().unwrap();
        assert(stack_view(stack@) =~= st.drop_last());
        assert(st.last() == (node@, inherited@));
        let (reference, dict) = match node {
            Object::Reference(r) => {
                let ghost before = visited@;
                if !visited.insert(key_of(r)) {
                    proof {
                        assert(vis.insert(ref_key(r)) =~= vis);
                    }
                    continue;
                }
                proof {
                    assert forall|i: int| 0 <= i < pages@.len() && (#[trigger] pages@[i]).reference is Some
                        implies pages@[i].reference != Some(r) by {
                        if pages@[i].reference == Some(r) {
                            assert(before.contains(ref_key(r)));
                        }
                    }
                    assert forall|j: int| 0 <= j < nodes@.len() implies #[trigger] nodes@[j] != r by {
                        if nodes@[j] == r {
                            assert(before.contains(ref_key(r)));
                        }
                    }
                }
                match doc.get(r) {
                    Err(e) => return Err(e),
                    Ok(Some(Object::Dict(d))) => (Some(r), d),
                    Ok(_) => continue,
                }
            },
            Object::Dict(d) => (None, d),
            _ => continue,
        };
        assert(taken(doc, node@, vis) == Ok::<Option<(Option<ObjRef>, Seq<(Seq<u8>, ObjectView)>)>, ()>(Some((reference, dict@))));
        assert(visited@ == visited_after(node@, vis));
        let ghost rest = stack_view(stack@);
        let attrs = inherit(inherited, &dict);
        let has_kids = dict.contains_key(&Name::new("Kids"));
        if has_kids {
            if let Some(r) = reference {
                let ghost old_nodes = nodes@;
                nodes.push(r);
                proof {
                    assert forall|i: int, j: int| 0 <= i < j < nodes@.len() implies #[trigger] nodes@[i] != #[trigger] nodes@[j] by {
                        if j == nodes@.len() - 1 {
                            assert(old_nodes[i] == nodes@[i]);
                        }
                    }
                }
            }
            let kids = match dict.get(&Name::new("Kids")) {
                Some(k) => doc.resolve(k),
                None => Ok(Object::Null),
            };
            match kids {
                Err(e) => return Err(e),
                Ok(Object::Array(items)) => {
                    let ghost iv = items_view(items@);
                    proof { lemma_items_view(items@); }
                    let mut k: usize = items.len();
                    assert(stack_view(stack@) =~= rest + kids_on_stack(iv, attrs@).take(0));
                    while k > 0
                        invariant
                            k <= items@.len(),
                            iv == items_view(items@),
                            iv.len() == items@.len(),
                            forall|i: int| 0 <= i < items@.len() ==> #[trigger] iv[i] == items@[i]@,
                            stack_view(stack@) == rest + kids_on_stack(iv, attrs@).take(items@.len() - k),
                        decreases k,
                    {
                        let ghost before = stack@;
                        stack.push((copy_object(&items[k - 1]), copy_dict(&attrs)));
                        assert(stack_view(stack@) =~= stack_view(before).push((iv[k - 1], attrs@)));
                        assert(kids_on_stack(iv, attrs@).take(items@.len() - k + 1) =~= kids_on_stack(iv, attrs@).take(
                            items@.len() - k,
                        ).push((iv[k - 1], attrs@)));
                        k = k - 1;
                    }
                    assert(kids_on_stack(iv, attrs@).take(items@.len() as int) =~= kids_on_stack(iv, attrs@));
                },
                Ok(_) => {},
            }
        } else {
            let page = page_dict(dict, &attrs);
            let ghost old_pages = pages@;
            pages.push(Page { reference, dict: page });
            assert(pages_view(pages@) =~= pv.push((reference, page_entry(dict@, attrs@))));
            proof {
                assert forall|i: int, j: int| 0 <= i < j < pages@.len() && (#[trigger] pages@[i]).reference is Some
                    implies (#[trigger] pages@[j]).reference != pages@[i].reference by {
                    if j == pages@.len() - 1 {
                        assert(old_pages[i] == pages@[i]);
                    }
                }
            }
        }
    }
    if pages.len() == 0 {
        return Err(Error::BadStructure { message: string_of("the page tree holds no page") });
    }
    Ok((pages, nodes))
}

/// The pages of `doc` in reading order, inheritable attributes resolved
/// (7.7.3.4): exactly the pages [`page_walk`] finds, and an error exactly
/// when it finds none. Tolerant: a node without `/Type` is a page unless it has
/// `/Kids`, a kid that is not a dictionary is skipped, a node reached
/// twice (loop, or a page listed twice) is taken once.
pub fn pages(doc: &Document) -> (r: Result<Vec<Page>, Error>)
    ensures
        catalog_of(doc, doc.table().trailer) matches Err(f) ==> (r matches Err(e) && structure_failure_is(e, f)),
        catalog_of(doc, doc.table().trailer) matches Ok(c) ==> (dict_get(c, "Pages".spec_bytes()) is None
            ==> (r matches Err(e) && structure_is(e, "catalog has no /Pages"@))),
        r matches Ok(p) ==> p@.len() > 0 && exists|nodes: Seq<ObjRef>| walk_refs_ok(doc, p@, nodes),
        match page_walk(doc) {
            Some((ps, _)) => r matches Ok(p) && pages_view(p@) == ps,
            None => r is Err,
        },
{
    match walk(doc) {
        Ok((p, nodes)) => Ok(p),
        Err(e) => Err(e),
    }
}

} // verus!
