use std::ops::Range;

use std::collections::BTreeMap;

use fyp_core::object::{Dict, Name, ObjRef, Object};
use fyp_core::ops::{
    check_selection, clean_dead_destinations, is_dead_action, is_dead_annotation, is_dead_dest,
    is_dead_target, ranges_every, sweep,
};
use fyp_core::Error;

#[test]
fn ranges() {
    assert_eq!(ranges_every(0, 3), Vec::<Range<usize>>::new());
    assert_eq!(ranges_every(7, 0), Vec::<Range<usize>>::new());
    assert_eq!(ranges_every(7, 3), vec![0..3, 3..6, 6..7]);
    assert_eq!(ranges_every(6, 3), vec![0..3, 3..6]);
    assert_eq!(ranges_every(2, 5), vec![0..2]);
}

#[test]
fn selections() {
    assert!(check_selection(&[0, 2, 1], 3, false).is_ok());
    assert!(check_selection(&[], 3, true).is_ok());
    assert!(matches!(
        check_selection(&[], 3, false),
        Err(Error::BadOperation { .. })
    ));
    assert_eq!(
        check_selection(&[0, 3], 3, false),
        Err(Error::NoSuchPage { index: 3, count: 3 })
    );
    assert!(matches!(
        check_selection(&[1, 1], 3, false),
        Err(Error::BadOperation { message }) if message.contains("more than once")
    ));
}

#[test]
fn selection_errors_come_in_order() {
    assert_eq!(
        check_selection(&[1, 1, 9], 3, false),
        Err(Error::BadOperation { message: "page 1 selected more than once".to_string() })
    );
    assert_eq!(
        check_selection(&[9, 1, 1], 3, false),
        Err(Error::NoSuchPage { index: 9, count: 3 })
    );
    assert_eq!(
        check_selection(&[], 0, false),
        Err(Error::BadOperation { message: "no page selected".to_string() })
    );
}

#[test]
fn ranges_cover_every_page_once() {
    let r = ranges_every(10, 4);
    assert_eq!(r, vec![0..4, 4..8, 8..10]);
    assert_eq!(ranges_every(usize::MAX, usize::MAX), vec![0..usize::MAX]);
    assert_eq!(ranges_every(1, 1), vec![0..1]);
}

#[test]
fn dead_destination_predicates() {
    let mut snapshot = BTreeMap::new();
    snapshot.insert(
        5,
        Object::Array(vec![Object::Null, Object::Name(Name::new("Fit"))]),
    );
    snapshot.insert(
        6,
        Object::Array(vec![Object::Reference(ObjRef { num: 9, gen: 0 })]),
    );
    let dead = Object::Reference(ObjRef { num: 5, gen: 0 });
    let alive = Object::Reference(ObjRef { num: 6, gen: 0 });
    assert!(is_dead_dest(&dead, &snapshot));
    assert!(!is_dead_dest(&alive, &snapshot));
    assert!(!is_dead_dest(&Object::String(b"name".to_vec()), &snapshot));
    let mut goto = Dict::new();
    goto.insert(Name::new("S"), Object::Name(Name::new("GoTo")));
    goto.insert(Name::new("D"), dead.clone());
    assert!(is_dead_action(&Object::Dict(goto.clone()), &snapshot));
    goto.insert(Name::new("D"), alive.clone());
    assert!(!is_dead_action(&Object::Dict(goto.clone()), &snapshot));
    goto.remove(&Name::new("D"));
    assert!(is_dead_action(&Object::Dict(goto.clone()), &snapshot));
    goto.insert(Name::new("S"), Object::Name(Name::new("URI")));
    assert!(!is_dead_action(&Object::Dict(goto), &snapshot));
    let mut link = Dict::new();
    link.insert(Name::new("Subtype"), Object::Name(Name::new("Link")));
    assert!(is_dead_annotation(&Object::Dict(link.clone()), &snapshot));
    link.insert(Name::new("Dest"), alive);
    assert!(!is_dead_annotation(&Object::Dict(link), &snapshot));
    let mut text = Dict::new();
    text.insert(Name::new("Subtype"), Object::Name(Name::new("Text")));
    assert!(!is_dead_annotation(&Object::Dict(text), &snapshot));
    assert!(is_dead_annotation(&Object::Null, &snapshot));
}

#[test]
fn sweep_keeps_the_reachable_objects() {
    let mut out = BTreeMap::new();
    out.insert(1, Object::Reference(ObjRef { num: 2, gen: 0 }));
    out.insert(2, Object::Integer(0));
    out.insert(3, Object::Integer(0));
    let mut trailer = Dict::new();
    trailer.insert(
        Name::new("Root"),
        Object::Reference(ObjRef { num: 1, gen: 0 }),
    );
    sweep(&mut out, &trailer);
    assert_eq!(out.keys().copied().collect::<Vec<_>>(), vec![1, 2]);
}

#[test]
fn named_targets_that_lead_nowhere_are_dead() {
    let mut snapshot = BTreeMap::new();
    snapshot.insert(5, Object::Array(vec![Object::Null]));
    snapshot.insert(7, Object::Null);
    let dead = Object::Reference(ObjRef { num: 5, gen: 0 });
    let mut holder = Dict::new();
    holder.insert(Name::new("D"), dead.clone());
    assert!(is_dead_target(&dead, &snapshot));
    assert!(is_dead_target(&Object::Dict(holder), &snapshot));
    assert!(is_dead_target(&Object::Reference(ObjRef { num: 7, gen: 0 }), &snapshot));
    assert!(is_dead_target(&Object::Reference(ObjRef { num: 8, gen: 0 }), &snapshot));
    assert!(!is_dead_target(&Object::Array(vec![Object::Integer(1)]), &snapshot));
    assert!(!is_dead_target(&Object::Dict(Dict::new()), &snapshot));
}

#[test]
fn dead_links_and_destinations_are_cleaned() {
    let dead = Object::Reference(ObjRef { num: 5, gen: 0 });
    let alive = Object::Reference(ObjRef { num: 6, gen: 0 });
    let mut out = BTreeMap::new();
    out.insert(5, Object::Array(vec![Object::Null, Object::Name(Name::new("Fit"))]));
    out.insert(6, Object::Array(vec![Object::Integer(1)]));
    let mut dead_link = Dict::new();
    dead_link.insert(Name::new("Subtype"), Object::Name(Name::new("Link")));
    dead_link.insert(Name::new("Dest"), dead.clone());
    let mut live_link = Dict::new();
    live_link.insert(Name::new("Subtype"), Object::Name(Name::new("Link")));
    live_link.insert(Name::new("Dest"), alive.clone());
    let mut page = Dict::new();
    page.insert(
        Name::new("Annots"),
        Object::Array(vec![Object::Dict(dead_link), Object::Dict(live_link.clone()), Object::Null]),
    );
    out.insert(2, Object::Dict(page));
    let mut dests = Dict::new();
    dests.insert(Name::new("gone"), dead.clone());
    dests.insert(Name::new("here"), alive.clone());
    out.insert(3, Object::Dict(dests));
    let mut names = Dict::new();
    names.insert(
        Name::new("Names"),
        Object::Array(vec![
            Object::String(b"a".to_vec()),
            dead.clone(),
            Object::String(b"b".to_vec()),
            alive.clone(),
            Object::String(b"c".to_vec()),
        ]),
    );
    let mut catalog = Dict::new();
    catalog.insert(Name::new("Dests"), Object::Reference(ObjRef { num: 3, gen: 0 }));
    catalog.insert(Name::new("Names"), Object::Dict(names));
    out.insert(1, Object::Dict(catalog));
    clean_dead_destinations(&mut out, 1);

    let mut expected_page = Dict::new();
    expected_page.insert(Name::new("Annots"), Object::Array(vec![Object::Dict(live_link)]));
    assert_eq!(out[&2], Object::Dict(expected_page));
    let mut expected_dests = Dict::new();
    expected_dests.insert(Name::new("here"), alive.clone());
    assert_eq!(out[&3], Object::Dict(expected_dests));
    let mut expected_names = Dict::new();
    expected_names.insert(
        Name::new("Names"),
        Object::Array(vec![
            Object::String(b"b".to_vec()),
            alive,
            Object::String(b"c".to_vec()),
        ]),
    );
    let mut expected_catalog = Dict::new();
    expected_catalog.insert(Name::new("Dests"), Object::Reference(ObjRef { num: 3, gen: 0 }));
    expected_catalog.insert(Name::new("Names"), Object::Dict(expected_names));
    assert_eq!(out[&1], Object::Dict(expected_catalog));
}

#[test]
fn sweep_follows_references_through_nested_values_and_cycles() {
    let mut out = BTreeMap::new();
    let mut a = Dict::new();
    a.insert(
        Name::new("Kids"),
        Object::Array(vec![Object::Reference(ObjRef { num: 3, gen: 0 })]),
    );
    out.insert(1, Object::Dict(a));
    out.insert(2, Object::Integer(7));
    out.insert(3, Object::Reference(ObjRef { num: 1, gen: 0 }));
    out.insert(4, Object::Reference(ObjRef { num: 2, gen: 0 }));
    let mut trailer = Dict::new();
    trailer.insert(Name::new("Root"), Object::Reference(ObjRef { num: 1, gen: 0 }));
    trailer.insert(Name::new("Info"), Object::Reference(ObjRef { num: 9, gen: 0 }));
    sweep(&mut out, &trailer);
    assert_eq!(out.keys().copied().collect::<Vec<_>>(), vec![1, 3]);
}
