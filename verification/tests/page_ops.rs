use std::collections::BTreeSet;

use fyp_core::document::Document;
use fyp_core::object::{Dict, Name, ObjRef, Object};
use fyp_core::ops::{self, Page};
use fyp_core::Error;

const DEPTH: usize = 64;

/// One-section PDF where `objects[i]` is object `i + 1`.
fn build(objects: &[String]) -> Vec<u8> {
    let mut out = b"%PDF-1.7\n".to_vec();
    let mut offsets = Vec::new();
    for (i, body) in objects.iter().enumerate() {
        offsets.push(out.len());
        out.extend_from_slice(format!("{} 0 obj\n{body}\nendobj\n", i + 1).as_bytes());
    }
    let startxref = out.len();
    let size = offsets.len() + 1;
    out.extend_from_slice(format!("xref\n0 {size}\n0000000000 65535 f \n").as_bytes());
    for offset in &offsets {
        out.extend_from_slice(format!("{offset:010} 00000 n \n").as_bytes());
    }
    out.extend_from_slice(
        format!("trailer\n<< /Size {size} /Root 1 0 R >>\nstartxref\n{startxref}\n%%EOF\n")
            .as_bytes(),
    );
    out
}

fn s(text: &str) -> String {
    text.to_string()
}

/// The references reachable from the trailer that lead to no object.
fn dangling_references(doc: &Document<'_>) -> Vec<String> {
    fn walk(doc: &Document<'_>, obj: &Object, seen: &mut BTreeSet<ObjRef>, out: &mut Vec<String>) {
        match obj {
            Object::Reference(r) => {
                if !seen.insert(*r) {
                    return;
                }
                match doc.get(*r) {
                    Ok(Some(o)) => walk(doc, &o, seen, out),
                    _ => out.push(format!("{} {}", r.num, r.gen)),
                }
            }
            Object::Array(items) => items.iter().for_each(|i| walk(doc, i, seen, out)),
            Object::Dict(d) | Object::Stream { dict: d, .. } => {
                d.entries().iter().for_each(|(_, v)| walk(doc, v, seen, out));
            }
            _ => {}
        }
    }
    let mut out = Vec::new();
    let mut seen = BTreeSet::new();
    for (_, value) in doc.trailer().entries() {
        walk(doc, value, &mut seen, &mut out);
    }
    out
}

/// Open a result and check what every operation guarantees.
fn check_output<'o>(name: &str, out: &'o [u8], expected_pages: usize) -> Document<'o> {
    let doc = Document::open(out).unwrap_or_else(|e| panic!("{name}: reopen: {e:?}"));
    assert!(doc.reconstructed().is_none(), "{name}: output needed repair");
    assert!(doc.encryption().is_none(), "{name}: output is encrypted");
    assert_eq!(doc.page_count(), Ok(expected_pages), "{name}: /Count");
    let pages = ops::pages(&doc).unwrap_or_else(|e| panic!("{name}: pages: {e:?}"));
    assert_eq!(pages.len(), expected_pages, "{name}: pages in the tree");
    let dangling = dangling_references(&doc);
    assert!(dangling.is_empty(), "{name}: dangling references {dangling:?}");
    doc
}

/// Two objects are equal once references are followed on both sides.
fn deep_equal(da: &Document<'_>, a: &Object, db: &Document<'_>, b: &Object, depth: usize) -> bool {
    if depth == 0 {
        return true;
    }
    let (Ok(a), Ok(b)) = (da.resolve(a), db.resolve(b)) else {
        return false;
    };
    match (&a, &b) {
        (Object::Array(x), Object::Array(y)) => {
            x.len() == y.len()
                && x.iter().zip(y.iter()).all(|(p, q)| deep_equal(da, p, db, q, depth - 1))
        }
        (Object::Dict(x), Object::Dict(y)) => dicts_equal(da, x, db, y, depth),
        (Object::Stream { dict: x, data: p }, Object::Stream { dict: y, data: q }) => {
            let mut x = x.clone();
            let mut y = y.clone();
            x.remove(&Name::new("Length"));
            y.remove(&Name::new("Length"));
            p == q && dicts_equal(da, &x, db, &y, depth)
        }
        _ => a == b,
    }
}

fn dicts_equal(da: &Document<'_>, x: &Dict, db: &Document<'_>, y: &Dict, depth: usize) -> bool {
    x.len() == y.len()
        && x.entries().iter().all(|(k, v)| match y.get(k) {
            Some(w) => deep_equal(da, v, db, w, depth - 1),
            None => false,
        })
}

/// A kept page equals its source model: same dictionary, references
/// followed on both sides, `/Parent` and `/Type` aside.
fn same_page(name: &str, src_doc: &Document<'_>, src: &Page, out_doc: &Document<'_>, out: &Page) {
    let strip = |p: &Page| {
        let mut d = p.dict.clone();
        d.remove(&Name::new("Parent"));
        d.remove(&Name::new("Type"));
        d
    };
    let (a, b) = (strip(src), strip(out));
    for (key, va) in a.entries() {
        let vb = b
            .get(key)
            .unwrap_or_else(|| panic!("{name}: page lost /{}", key.as_str_lossy()));
        assert!(
            deep_equal(src_doc, va, out_doc, vb, DEPTH),
            "{name}: /{} differs",
            key.as_str_lossy()
        );
    }
    for (key, _) in b.entries() {
        assert!(a.contains_key(key), "{name}: page gained /{}", key.as_str_lossy());
    }
}

#[test]
fn inherited_attributes_are_resolved_into_each_page() {
    let file = build(&[
        s("<< /Type /Catalog /Pages 2 0 R >>"),
        s("<< /Type /Pages /Kids [3 0 R] /Count 2 /MediaBox [0 0 100 100] /Rotate 90 >>"),
        s("<< /Type /Pages /Parent 2 0 R /Kids [4 0 R] /Count 2 /Resources << /ProcSet [/PDF] >> /MediaBox [0 0 200 200] >>"),
        s("<< /Type /Pages /Parent 3 0 R /Kids [5 0 R 6 0 R] /Count 2 >>"),
        s("<< /Type /Page /Parent 4 0 R /Rotate 180 >>"),
        s("<< /Type /Page /Parent 4 0 R >>"),
    ]);
    let doc = Document::open(&file).expect("open");
    let pages = ops::pages(&doc).expect("pages");
    assert_eq!(pages.len(), 2);
    let media = Object::Array(vec![
        Object::Integer(0),
        Object::Integer(0),
        Object::Integer(200),
        Object::Integer(200),
    ]);
    assert_eq!(pages[0].dict.get(&Name::new("MediaBox")), Some(&media));
    assert_eq!(pages[0].dict.get(&Name::new("Rotate")), Some(&Object::Integer(180)));
    assert_eq!(pages[1].dict.get(&Name::new("Rotate")), Some(&Object::Integer(90)));
    assert!(pages[1].dict.contains_key(&Name::new("Resources")));
    assert_eq!(pages[1].reference, Some(ObjRef { num: 6, gen: 0 }));
    // Extract page 6 alone: the tree is flat and the page carries it all.
    let out = ops::extract_pages(&doc, &[1]).expect("extract");
    let again = check_output("inherited", &out, 1);
    let page = &ops::pages(&again).unwrap()[0];
    assert_eq!(page.dict.get(&Name::new("MediaBox")), Some(&media));
    assert_eq!(page.dict.get(&Name::new("Rotate")), Some(&Object::Integer(90)));
    let root = again.catalog().unwrap();
    let pages_root = again.resolve(root.get(&Name::new("Pages")).unwrap()).unwrap();
    let kids = pages_root.as_dict().unwrap().get(&Name::new("Kids")).unwrap();
    assert!(matches!(kids, Object::Array(k) if k.len() == 1));
    // Rotating the page that inherits 90 by 270 lands on 0: no /Rotate.
    let out = ops::rotate(&doc, &[1], 270).expect("rotate");
    let again = Document::open(&out).unwrap();
    assert_eq!(ops::pages(&again).unwrap()[1].dict.get(&Name::new("Rotate")), None);
}

#[test]
fn links_to_dropped_pages_are_cleaned() {
    let file = build(&[
        s("<< /Type /Catalog /Pages 2 0 R /Outlines 9 0 R /Names << /Dests << /Names [(to3) [3 0 R /Fit] (to4) [4 0 R /XYZ 0 0 0]] >> >> /Dests << /old3 [3 0 R /Fit] /old4 [4 0 R /Fit] >> >>"),
        s("<< /Type /Pages /Kids [3 0 R 4 0 R] /Count 2 /MediaBox [0 0 10 10] >>"),
        s("<< /Type /Page /Parent 2 0 R /Annots [5 0 R 6 0 R] >>"),
        s("<< /Type /Page /Parent 2 0 R /Annots [7 0 R 8 0 R] >>"),
        s("<< /Type /Annot /Subtype /Link /Rect [0 0 1 1] /P 3 0 R /Dest [4 0 R /Fit] >>"),
        s("<< /Type /Annot /Subtype /Text /Rect [0 0 1 1] /P 3 0 R /Contents (note) >>"),
        s("<< /Type /Annot /Subtype /Link /Rect [0 0 1 1] /P 4 0 R /Dest [3 0 R /Fit] >>"),
        s("<< /Type /Annot /Subtype /Link /Rect [0 0 1 1] /P 4 0 R /A << /S /GoTo /D [3 0 R /Fit] >> >>"),
        s("<< /Type /Outlines /First 10 0 R /Last 10 0 R /Count 1 >>"),
        s("<< /Title (page four) /Parent 9 0 R /Dest [4 0 R /Fit] >>"),
    ]);
    let doc = Document::open(&file).expect("open");
    assert_eq!(dangling_references(&doc), Vec::<String>::new());

    let out = ops::extract_pages(&doc, &[0]).expect("extract");
    let again = check_output("links", &out, 1);
    let page = &ops::pages(&again).unwrap()[0];
    let annots = match page.dict.get(&Name::new("Annots")) {
        Some(Object::Array(a)) => a.clone(),
        other => panic!("{other:?}"),
    };
    assert_eq!(annots.len(), 1);
    let note = again.resolve(&annots[0]).unwrap();
    assert_eq!(
        note.as_dict().unwrap().get(&Name::new("Subtype")),
        Some(&Object::Name(Name::new("Text")))
    );
    let catalog = again.catalog().unwrap();
    let item = again
        .resolve(
            again
                .resolve(catalog.get(&Name::new("Outlines")).unwrap())
                .unwrap()
                .as_dict()
                .unwrap()
                .get(&Name::new("First"))
                .unwrap(),
        )
        .unwrap();
    assert!(item.as_dict().unwrap().get(&Name::new("Dest")).is_none());
    assert_eq!(
        item.as_dict().unwrap().get(&Name::new("Title")),
        Some(&Object::String(b"page four".to_vec()))
    );
    let names = again.resolve(catalog.get(&Name::new("Names")).unwrap()).unwrap();
    let dests = names.as_dict().unwrap().get(&Name::new("Dests")).unwrap();
    let leaf = dests.as_dict().unwrap().get(&Name::new("Names")).unwrap();
    assert!(
        matches!(leaf, Object::Array(a) if a.len() == 2 && a[0] == Object::String(b"to3".to_vec()))
    );
    let old: Dict = catalog
        .get(&Name::new("Dests"))
        .and_then(Object::as_dict)
        .cloned()
        .unwrap();
    assert_eq!(
        old.entries().iter().map(|(k, _)| k.as_str_lossy()).collect::<Vec<_>>(),
        ["old3"]
    );

    // Keep page 4 only: both its links pointed at page 3, both go.
    let out = ops::extract_pages(&doc, &[1]).expect("extract");
    let again = check_output("links", &out, 1);
    let page = &ops::pages(&again).unwrap()[0];
    assert!(matches!(page.dict.get(&Name::new("Annots")), Some(Object::Array(a)) if a.is_empty()));

    // Both pages, swapped: everything survives, every link still lands.
    let out = ops::extract_pages(&doc, &[1, 0]).expect("extract");
    let again = check_output("links", &out, 2);
    let pages = ops::pages(&again).unwrap();
    for page in &pages {
        let Some(Object::Array(annots)) = page.dict.get(&Name::new("Annots")) else {
            panic!("annotations lost");
        };
        assert_eq!(annots.len(), 2);
    }
}

#[test]
fn page_tree_loops_and_direct_kids_are_tolerated() {
    let file = build(&[
        s("<< /Type /Catalog /Pages 2 0 R >>"),
        s("<< /Type /Pages /Kids [3 0 R] /Count 1 >>"),
        s("<< /Type /Pages /Parent 2 0 R /Kids [3 0 R 2 0 R << /Type /Page /MediaBox [0 0 5 5] >> 4 0 R 4 0 R] /Count 1 >>"),
        s("<< /Type /Page /Parent 3 0 R /MediaBox [0 0 7 7] >>"),
    ]);
    let doc = Document::open(&file).expect("open");
    let pages = ops::pages(&doc).expect("pages");
    assert_eq!(pages.len(), 2);
    assert_eq!(pages[0].reference, None);
    assert_eq!(pages[1].reference, Some(ObjRef { num: 4, gen: 0 }));
    let out = ops::extract_pages(&doc, &[0, 1]).expect("extract");
    let again = check_output("loop", &out, 2);
    let out_pages = ops::pages(&again).unwrap();
    same_page("loop", &doc, &pages[0], &again, &out_pages[0]);
    same_page("loop", &doc, &pages[1], &again, &out_pages[1]);
    // No page at all: an error, not a panic.
    let empty = build(&[
        s("<< /Type /Catalog /Pages 2 0 R >>"),
        s("<< /Type /Pages /Kids [] /Count 0 >>"),
    ]);
    let doc = Document::open(&empty).expect("open");
    assert!(matches!(ops::pages(&doc), Err(Error::BadStructure { .. })));
    assert!(matches!(ops::extract_pages(&doc, &[0]), Err(Error::BadStructure { .. })));
}

fn one_page() -> Vec<u8> {
    build(&[
        s("<< /Type /Catalog /Pages 2 0 R >>"),
        s("<< /Type /Pages /Kids [3 0 R] /Count 1 >>"),
        s("<< /Type /Page /Parent 2 0 R /MediaBox [0 0 612 792] >>"),
    ])
}

#[test]
fn selection_and_rotation_errors_are_clear() {
    let bytes = one_page();
    let doc = Document::open(&bytes).expect("open");
    assert_eq!(
        ops::extract_pages(&doc, &[1]).map(|_| ()),
        Err(Error::NoSuchPage { index: 1, count: 1 })
    );
    assert!(matches!(
        ops::extract_pages(&doc, &[0, 0]).map(|_| ()),
        Err(Error::BadOperation { message }) if message.contains("more than once")
    ));
    assert!(matches!(ops::extract_pages(&doc, &[]).map(|_| ()), Err(Error::BadOperation { .. })));
    assert_eq!(
        ops::delete_pages(&doc, &[0]).map(|_| ()),
        Err(Error::BadOperation { message: "deleting every page would leave no page".to_string() })
    );
    assert_eq!(
        ops::rotate(&doc, &[0], 45).map(|_| ()),
        Err(Error::BadOperation { message: "rotation must be a multiple of 90 degrees, not 45".to_string() })
    );
    assert_eq!(
        ops::rotate(&doc, &[0], -100).map(|_| ()),
        Err(Error::BadOperation { message: "rotation must be a multiple of 90 degrees, not -100".to_string() })
    );
    assert_eq!(
        ops::split(&doc, std::slice::from_ref(&(0..0))).map(|_| ()),
        Err(Error::BadOperation { message: "empty page range 0..0".to_string() })
    );
    assert_eq!(
        ops::split(&doc, std::slice::from_ref(&(0..2))).map(|_| ()),
        Err(Error::NoSuchPage { index: 1, count: 1 })
    );
    assert_eq!(
        ops::merge(&[]).map(|_| ()),
        Err(Error::BadOperation { message: "no document to merge".to_string() })
    );
    // Rotation wraps: 90 then 270 is back to 0, -90 is 270.
    let turned = ops::rotate(&doc, &[0], 90).unwrap();
    let doc2 = Document::open(&turned).unwrap();
    assert_eq!(ops::pages(&doc2).unwrap()[0].dict.get(&Name::new("Rotate")), Some(&Object::Integer(90)));
    let back = ops::rotate(&doc2, &[0], 270).unwrap();
    let doc3 = Document::open(&back).unwrap();
    assert_eq!(ops::pages(&doc3).unwrap()[0].dict.get(&Name::new("Rotate")), None);
    let minus = ops::rotate(&doc3, &[0], -90).unwrap();
    let doc4 = Document::open(&minus).unwrap();
    assert_eq!(ops::pages(&doc4).unwrap()[0].dict.get(&Name::new("Rotate")), Some(&Object::Integer(270)));
}

#[test]
fn delete_split_and_merge_keep_the_right_pages() {
    let file = build(&[
        s("<< /Type /Catalog /Pages 2 0 R >>"),
        s("<< /Type /Pages /Kids [3 0 R 4 0 R 5 0 R] /Count 3 >>"),
        s("<< /Type /Page /Parent 2 0 R /MediaBox [0 0 1 1] >>"),
        s("<< /Type /Page /Parent 2 0 R /MediaBox [0 0 2 2] >>"),
        s("<< /Type /Page /Parent 2 0 R /MediaBox [0 0 3 3] >>"),
    ]);
    let doc = Document::open(&file).expect("open");
    let width = |p: &Page| match p.dict.get(&Name::new("MediaBox")) {
        Some(Object::Array(a)) => a[2].clone(),
        other => panic!("{other:?}"),
    };
    let out = ops::delete_pages(&doc, &[1]).expect("delete");
    let again = check_output("delete", &out, 2);
    let kept: Vec<Object> = ops::pages(&again).unwrap().iter().map(width).collect();
    assert_eq!(kept, vec![Object::Integer(1), Object::Integer(3)]);

    let parts = ops::split(&doc, &ops::ranges_every(3, 2)).expect("split");
    assert_eq!(parts.len(), 2);
    check_output("split 0", &parts[0], 2);
    check_output("split 1", &parts[1], 1);

    let other = one_page();
    let docs = [Document::open(&file).unwrap(), Document::open(&other).unwrap()];
    let merged = ops::merge(&docs).expect("merge");
    let again = check_output("merge", &merged, 4);
    let widths: Vec<Object> = ops::pages(&again).unwrap().iter().map(width).collect();
    assert_eq!(
        widths,
        vec![Object::Integer(1), Object::Integer(2), Object::Integer(3), Object::Integer(612)]
    );
}

/// A flat five-page document, one page turned and one with a resource
/// dictionary by reference.
fn flat_five() -> Vec<u8> {
    build(&[
        s("<< /Type /Catalog /Pages 2 0 R >>"),
        s("<< /Type /Pages /Kids [3 0 R 4 0 R 5 0 R 6 0 R 7 0 R] /Count 5 /MediaBox [0 0 612 792] >>"),
        s("<< /Type /Page /Parent 2 0 R /Rotate 90 >>"),
        s("<< /Type /Page /Parent 2 0 R /Resources 8 0 R >>"),
        s("<< /Type /Page /Parent 2 0 R /MediaBox [0 0 300 300] >>"),
        s("<< /Type /Page /Parent 2 0 R /Rotate 270 >>"),
        s("<< /Type /Page /Parent 2 0 R >>"),
        s("<< /ProcSet [/PDF /Text] >>"),
    ])
}

/// A nested tree of four pages: inherited attributes at two levels.
fn nested_four() -> Vec<u8> {
    build(&[
        s("<< /Type /Catalog /Pages 2 0 R >>"),
        s("<< /Type /Pages /Kids [3 0 R 4 0 R] /Count 4 /MediaBox [0 0 100 100] /Rotate 180 >>"),
        s("<< /Type /Pages /Parent 2 0 R /Kids [5 0 R 6 0 R] /Count 2 /CropBox [0 0 50 50] >>"),
        s("<< /Type /Pages /Parent 2 0 R /Kids [7 0 R 8 0 R] /Count 2 >>"),
        s("<< /Type /Page /Parent 3 0 R >>"),
        s("<< /Type /Page /Parent 3 0 R /Rotate 0 >>"),
        s("<< /Type /Page /Parent 4 0 R /MediaBox [0 0 10 10] >>"),
        s("<< /Type /Page /Parent 4 0 R >>"),
    ])
}

/// The inline sources the page operations are checked on.
fn sources() -> Vec<(String, Vec<u8>)> {
    vec![(s("flat"), flat_five()), (s("nested"), nested_four()), (s("one"), one_page())]
}

fn rotation(page: &Page) -> i64 {
    match page.dict.get(&Name::new("Rotate")) {
        Some(Object::Integer(i)) => *i,
        None => 0,
        other => panic!("/Rotate is {other:?}"),
    }
}

#[test]
fn extracting_every_page_in_order_gives_an_equivalent_document() {
    for (name, bytes) in sources() {
        let doc = Document::open(&bytes).expect("open");
        let pages = ops::pages(&doc).expect("pages");
        let all: Vec<usize> = (0..pages.len()).collect();
        let out = ops::extract_pages(&doc, &all).unwrap_or_else(|e| panic!("{name}: {e:?}"));
        let again = check_output(&name, &out, pages.len());
        let out_pages = ops::pages(&again).unwrap();
        for (src, dst) in pages.iter().zip(&out_pages) {
            same_page(&name, &doc, src, &again, dst);
        }
        let twice = ops::extract_pages(&again, &all).unwrap();
        assert_eq!(twice, out, "{name}: not stable");
    }
}

#[test]
fn extract_reorders_and_drops_pages() {
    for (name, bytes) in sources() {
        let doc = Document::open(&bytes).expect("open");
        let pages = ops::pages(&doc).expect("pages");
        if pages.len() < 3 {
            continue;
        }
        let pick = [pages.len() - 1, 0, 1];
        let out = ops::extract_pages(&doc, &pick).unwrap_or_else(|e| panic!("{name}: {e:?}"));
        let again = check_output(&name, &out, 3);
        let out_pages = ops::pages(&again).unwrap();
        for (i, &p) in pick.iter().enumerate() {
            same_page(&name, &doc, &pages[p], &again, &out_pages[i]);
        }
    }
}

#[test]
fn delete_rotate_and_split() {
    for (name, bytes) in sources() {
        let doc = Document::open(&bytes).expect("open");
        let pages = ops::pages(&doc).expect("pages");
        let n = pages.len();
        if n > 1 {
            let out = ops::delete_pages(&doc, &[0]).unwrap_or_else(|e| panic!("{name}: {e:?}"));
            let again = check_output(&name, &out, n - 1);
            let out_pages = ops::pages(&again).unwrap();
            same_page(&name, &doc, &pages[1], &again, &out_pages[0]);
        }
        let last = n - 1;
        let before = rotation(&pages[last]);
        let out = ops::rotate(&doc, &[last], 90).unwrap_or_else(|e| panic!("{name}: {e:?}"));
        let again = check_output(&name, &out, n);
        let out_pages = ops::pages(&again).unwrap();
        assert_eq!(rotation(&out_pages[last]), (before + 90).rem_euclid(360), "{name}");
        for p in 0..last {
            assert_eq!(rotation(&out_pages[p]), rotation(&pages[p]), "{name}: page {p}");
        }
        let ranges = ops::ranges_every(n, 2);
        let parts = ops::split(&doc, &ranges).unwrap_or_else(|e| panic!("{name}: {e:?}"));
        assert_eq!(parts.len(), ranges.len(), "{name}");
        for (part, range) in parts.iter().zip(&ranges) {
            let again = check_output(&name, part, range.len());
            let out_pages = ops::pages(&again).unwrap();
            for (i, p) in range.clone().enumerate() {
                same_page(&name, &doc, &pages[p], &again, &out_pages[i]);
            }
        }
    }
}

#[test]
fn merge_three_files_of_different_structure() {
    // A classic table, a nested tree, and a cross-reference stream.
    let nested = nested_four();
    let flat = flat_five();
    let flat_doc = Document::open(&flat).expect("open");
    let stream = fyp_core::writer::Writer::new(flat_doc.version())
        .xref_style(fyp_core::writer::XrefStyle::Stream)
        .write(&flat_doc)
        .expect("rewrite with a stream");
    let files = [one_page(), nested, stream];
    let docs: Vec<Document<'_>> = files.iter().map(|b| Document::open(b).expect("open")).collect();
    let out = ops::merge(&docs).expect("merge");
    let again = check_output("merge", &out, 1 + 4 + 5);
    let out_pages = ops::pages(&again).unwrap();
    let mut at = 0;
    for doc in &docs {
        for src in ops::pages(doc).unwrap() {
            same_page("merge", doc, &src, &again, &out_pages[at]);
            at += 1;
        }
    }
    let numbers: BTreeSet<u32> = out_pages.iter().filter_map(|p| p.reference.map(|r| r.num)).collect();
    assert_eq!(numbers.len(), 10);
    assert!(out.starts_with(b"%PDF-1.7\n"));
}
