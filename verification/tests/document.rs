use std::collections::BTreeMap;
use std::io::Write;

use fyp_core::document::Document;
use fyp_core::filters::DecodeLimits;
use fyp_core::object::{Name, ObjRef, Object};
use fyp_core::xref::{SectionKind, XrefEntry};
use fyp_core::Error;

const CATALOG: &str = "<< /Type /Catalog /Pages 2 0 R >>";
const PAGES: &str = "<< /Type /Pages /Kids [3 0 R] /Count 1 >>";
const PAGE: &str = "<< /Type /Page /Parent 2 0 R /MediaBox [0 0 10 10] >>";

/// One-section PDF where `objects[i]` becomes object `i + 1`. `patch`
/// may alter the offsets written to the xref to simulate broken tables.
fn build(objects: &[&str], patch: impl FnOnce(&mut [usize])) -> Vec<u8> {
    let mut out = b"%PDF-1.7\n".to_vec();
    let mut offsets = Vec::new();
    for (i, body) in objects.iter().enumerate() {
        offsets.push(out.len());
        out.extend_from_slice(format!("{} 0 obj\n{body}\nendobj\n", i + 1).as_bytes());
    }
    patch(offsets.as_mut_slice());
    let startxref = out.len();
    let size = offsets.len() + 1;
    out.extend_from_slice(format!("xref\n0 {size}\n0000000000 65535 f \n").as_bytes());
    for offset in &offsets {
        out.extend_from_slice(format!("{offset:010} 00000 n \n").as_bytes());
    }
    out.extend_from_slice(
        format!("trailer\n<< /Size {size} /Root 1 0 R >>\nstartxref\n{startxref}\n%%EOF\n").as_bytes(),
    );
    out
}

/// A stream object body with the given dictionary entries and raw data.
fn stream(extra: &str, data: &[u8]) -> Vec<u8> {
    let mut out = format!("<< {extra} /Length {} >>\nstream\n", data.len()).into_bytes();
    out.extend_from_slice(data);
    out.extend_from_slice(b"\nendstream");
    out
}

fn zlib(data: &[u8]) -> Vec<u8> {
    let mut enc = flate2::write::ZlibEncoder::new(Vec::new(), flate2::Compression::best());
    enc.write_all(data).expect("compress");
    enc.finish().expect("finish")
}

/// PDF whose objects are given as raw bodies, with an uncompressed
/// cross-reference stream (`/W [1 4 2]`) as the last object.
fn build_with_xref_stream(objects: &[(u32, Vec<u8>)], rows: &[Option<(u8, u64, u64)>], size: u32) -> Vec<u8> {
    let mut out = b"%PDF-1.5\n".to_vec();
    let mut offsets = BTreeMap::new();
    for (num, body) in objects {
        offsets.insert(*num, out.len());
        out.extend_from_slice(format!("{num} 0 obj\n").as_bytes());
        out.extend_from_slice(body);
        out.extend_from_slice(b"\nendobj\n");
    }
    let xref_num = size - 1;
    let startxref = out.len();
    let mut data = vec![0, 0, 0, 0, 0, 0xff, 0xff];
    for (i, row) in rows.iter().enumerate() {
        let num = u32::try_from(i + 1).unwrap();
        let (t, f2, f3) = row.unwrap_or_else(|| match offsets.get(&num) {
            Some(&off) => (1, u64::try_from(off).unwrap(), 0),
            None => (0, 0, 0),
        });
        data.push(t);
        data.extend_from_slice(&u32::try_from(f2).unwrap().to_be_bytes());
        data.extend_from_slice(&u16::try_from(f3).unwrap().to_be_bytes());
    }
    data.push(1);
    data.extend_from_slice(&u32::try_from(startxref).unwrap().to_be_bytes());
    data.extend_from_slice(&[0, 0]);
    out.extend_from_slice(format!("{xref_num} 0 obj\n").as_bytes());
    out.extend_from_slice(&stream(&format!("/Type /XRef /Size {size} /W [1 4 2] /Root 1 0 R"), &data));
    out.extend_from_slice(format!("\nendobj\nstartxref\n{startxref}\n%%EOF\n").as_bytes());
    out
}

/// Object stream body holding `objects` as `(num, source)`.
fn object_stream(objects: &[(u32, &str)], flate: bool) -> Vec<u8> {
    let mut header = String::new();
    let mut body = String::new();
    for (num, src) in objects {
        header.push_str(&format!("{num} {} ", body.len()));
        body.push_str(src);
        body.push('\n');
    }
    let content = format!("{header}\n{body}");
    let first = header.len() + 1;
    let n = objects.len();
    if flate {
        stream(&format!("/Type /ObjStm /N {n} /First {first} /Filter /FlateDecode"), &zlib(content.as_bytes()))
    } else {
        stream(&format!("/Type /ObjStm /N {n} /First {first}"), content.as_bytes())
    }
}

#[test]
fn indirect_count_is_resolved() {
    let file = build(&[CATALOG, "<< /Type /Pages /Kids [] /Count 3 0 R >>", "2"], |_| {});
    let doc = Document::open(&file).expect("open");
    assert_eq!(doc.page_count(), Ok(2));
}

#[test]
fn sound_table_is_used_as_is() {
    let file = build(&[CATALOG, "<< /Type /Pages /Kids [] /Count 0 >>"], |_| {});
    let doc = Document::open(&file).expect("open");
    assert_eq!(doc.reconstructed(), None);
    assert_eq!(doc.xref().kind(), SectionKind::Table);
}

#[test]
fn wrong_offsets_trigger_reconstruction() {
    let file = build(&[CATALOG, "<< /Type /Pages /Kids [] /Count 0 >>"], |o| o.swap(0, 1));
    let doc = Document::open(&file).expect("open");
    assert!(matches!(doc.reconstructed(), Some(Error::BadXref { .. })), "{:?}", doc.reconstructed());
    assert_eq!(doc.xref().kind(), SectionKind::Reconstructed);
    assert!(matches!(doc.get(ObjRef { num: 1, gen: 0 }), Ok(Some(Object::Dict(_)))));
    assert_eq!(doc.page_count(), Ok(0));
    for patch in [(|o: &mut [usize]| o[1] += 3) as fn(&mut [usize]), |o| o[1] = 999_999_999] {
        let file = build(&[CATALOG, "<< /Type /Pages /Kids [] /Count 0 >>"], patch);
        let doc = Document::open(&file).expect("open");
        assert!(matches!(doc.reconstructed(), Some(Error::BadXref { .. })));
        assert_eq!(doc.page_count(), Ok(0));
    }
}

#[test]
fn unlisted_free_or_other_generation_is_null() {
    let file = build(&[CATALOG], |_| {});
    let doc = Document::open(&file).expect("open");
    assert_eq!(doc.get(ObjRef { num: 1, gen: 1 }), Ok(None));
    assert_eq!(doc.get(ObjRef { num: 0, gen: 65535 }), Ok(None));
    assert_eq!(doc.get(ObjRef { num: 9, gen: 0 }), Ok(None));
    assert_eq!(doc.resolve(&Object::Reference(ObjRef { num: 9, gen: 0 })), Ok(Object::Null));
    assert_eq!(doc.resolve(&Object::Integer(7)), Ok(Object::Integer(7)));
}

#[test]
fn broken_page_tree_is_an_error() {
    let negative = build(&[CATALOG, "<< /Type /Pages /Kids [] /Count -1 >>"], |_| {});
    let no_pages = build(&["<< /Type /Catalog >>"], |_| {});
    let root_not_dict = build(&["[1 2 3]"], |_| {});
    for file in [negative, no_pages, root_not_dict] {
        let doc = Document::open(&file).expect("open");
        let count = doc.page_count();
        assert!(matches!(count, Err(Error::BadStructure { .. })), "{count:?}");
    }
    let no_root = b"%PDF-1.7\nxref\n0 1\n0000000000 65535 f \ntrailer\n<< /Size 1 >>\nstartxref\n9\n%%EOF\n";
    let err = Document::open(no_root).map(|_| ()).unwrap_err();
    assert!(
        matches!(&err, Error::Unrecoverable { declared } if matches!(**declared, Error::BadStructure { .. })),
        "{err:?}"
    );
}

#[test]
fn missing_startxref_is_repaired_when_objects_exist() {
    let file = b"%PDF-1.7\n1 0 obj << >> endobj\n";
    let doc = Document::open(file).expect("open");
    assert_eq!(doc.reconstructed(), Some(&Error::MissingStartxref));
    assert!(matches!(doc.catalog(), Err(Error::BadStructure { .. })));
    assert!(matches!(doc.get(ObjRef { num: 1, gen: 0 }), Ok(Some(Object::Dict(_)))));
    let empty = b"%PDF-1.7\nnothing here\n";
    assert_eq!(
        Document::open(empty).map(|_| ()),
        Err(Error::Unrecoverable { declared: Box::new(Error::MissingStartxref) })
    );
    assert_eq!(Document::open(b"not a pdf").map(|_| ()), Err(Error::BadHeader));
}

#[test]
fn decoded_applies_filters_with_document_limits() {
    let hex: String = zlib(b"payload").iter().map(|b| format!("{b:02x}")).collect::<String>() + ">";
    let body = String::from_utf8_lossy(&stream("/Filter [/ASCIIHexDecode /FlateDecode]", hex.as_bytes())).into_owned();
    let file = build(&[CATALOG, &body], |_| {});
    let doc = Document::open(&file).expect("open");
    let obj = doc.get(ObjRef { num: 2, gen: 0 }).unwrap().unwrap();
    assert_eq!(doc.decoded(&obj).unwrap(), b"payload");
    assert!(matches!(doc.decoded(&Object::Integer(1)), Err(Error::BadStructure { .. })));
    let tight = DecodeLimits { max_output: 3 };
    let doc = Document::open_with_limits(&file, tight).expect("open");
    assert_eq!(doc.limits(), tight);
    assert!(matches!(doc.decoded(&obj), Err(Error::LimitExceeded { limit: 3, .. })));
}

#[test]
fn objects_come_out_of_a_flate_object_stream() {
    let objstm = object_stream(&[(1, CATALOG), (2, PAGES)], true);
    let file = build_with_xref_stream(&[(3, PAGE.into()), (4, objstm)], &[Some((2, 4, 0)), Some((2, 4, 1)), None, None], 6);
    let doc = Document::open(&file).expect("open");
    assert_eq!(doc.xref().get(1), Some(XrefEntry::InStream { stream_num: 4, index: 0 }));
    assert_eq!(doc.page_count(), Ok(1));
    let catalog = doc.get(ObjRef { num: 1, gen: 0 }).unwrap().unwrap();
    assert_eq!(catalog.as_dict().unwrap().get(&Name::new("Type")), Some(&Object::Name(Name::new("Catalog"))));
    assert_eq!(doc.get(ObjRef { num: 1, gen: 1 }), Ok(None));
    let _ = doc.get(ObjRef { num: 2, gen: 0 }).unwrap();
    assert!(matches!(doc.get(ObjRef { num: 5, gen: 0 }), Ok(Some(Object::Stream { .. }))));
}

#[test]
fn wrong_index_falls_back_to_the_object_number_list() {
    let objstm = object_stream(&[(1, CATALOG), (2, PAGES)], false);
    let file = build_with_xref_stream(&[(3, PAGE.into()), (4, objstm)], &[Some((2, 4, 1)), Some((2, 4, 9)), None, None], 6);
    let doc = Document::open(&file).expect("open");
    assert_eq!(doc.page_count(), Ok(1));
    assert!(matches!(doc.get(ObjRef { num: 2, gen: 0 }), Ok(Some(Object::Dict(_)))));
}

#[test]
fn object_stream_cannot_be_nested_or_hold_a_stream() {
    let objstm = object_stream(&[(1, CATALOG), (2, PAGES)], true);
    let outer = object_stream(&[(8, "<< >>")], false);
    let free = Some((0, 0, 0));
    let file = build_with_xref_stream(
        &[(3, PAGE.into()), (4, objstm.clone()), (9, outer)],
        &[Some((2, 4, 0)), Some((2, 4, 1)), None, Some((2, 9, 0)), free, free, free, Some((2, 9, 0)), None],
        11,
    );
    let doc = Document::open(&file).expect("open");
    assert!(
        matches!(doc.reconstructed(), Some(Error::BadXref { message, .. }) if message.contains("object stream 4")),
        "{:?}",
        doc.reconstructed()
    );
    assert!(matches!(doc.xref().get(4), Some(XrefEntry::InUse { .. })));
    assert!(matches!(doc.get(ObjRef { num: 1, gen: 0 }), Ok(Some(Object::Dict(_)))));
    assert_eq!(doc.page_count(), Ok(1));
    let inner = String::from_utf8_lossy(&stream("/Length 1", b"x")).into_owned();
    let objstm = object_stream(&[(1, &inner), (2, PAGES)], false);
    let file = build_with_xref_stream(&[(3, PAGE.into()), (4, objstm)], &[Some((2, 4, 0)), Some((2, 4, 1)), None, None], 6);
    let doc = Document::open(&file).expect("open");
    let err = doc.get(ObjRef { num: 1, gen: 0 });
    assert!(matches!(err, Err(Error::BadObjectStream { stream_num: 4, .. })), "{err:?}");
    assert!(matches!(doc.get(ObjRef { num: 2, gen: 0 }), Ok(Some(Object::Dict(_)))));
}

#[test]
fn malformed_object_streams() {
    let cases: Vec<(&str, Vec<u8>)> = vec![
        ("not a stream", b"<< /Type /ObjStm /N 1 /First 4 >>".to_vec()),
        ("no /N", stream("/Type /ObjStm /First 4", b"1 0 << >>")),
        ("no /First", stream("/Type /ObjStm /N 1", b"1 0 << >>")),
        ("/First beyond data", stream("/Type /ObjStm /N 1 /First 400", b"1 0 << >>")),
        ("negative /N", stream("/Type /ObjStm /N -1 /First 4", b"1 0 << >>")),
        ("offset beyond data", stream("/Type /ObjStm /N 1 /First 6", b"1 900 << >>")),
        ("header without offset", stream("/Type /ObjStm /N 1 /First 2", b"1 << >>")),
        ("object missing", stream("/Type /ObjStm /N 1 /First 4", b"7 0 << >>")),
        ("garbage object", stream("/Type /ObjStm /N 1 /First 4", b"1 0 >>")),
    ];
    for (what, objstm) in cases {
        let file = build_with_xref_stream(&[(3, PAGE.into()), (4, objstm)], &[Some((2, 4, 0)), None, None, None], 6);
        let doc = Document::open(&file).expect("open");
        let got = doc.get(ObjRef { num: 1, gen: 0 });
        assert!(matches!(got, Err(Error::BadObjectStream { stream_num: 4, .. })), "{what}: {got:?}");
    }
    let objstm = stream("/Type /ObjStm /N 4000000000 /First 4", b"1 0 << /A 1 >>");
    let file = build_with_xref_stream(&[(3, PAGE.into()), (4, objstm)], &[Some((2, 4, 0)), None, None, None], 6);
    let doc = Document::open(&file).expect("open");
    assert!(matches!(doc.get(ObjRef { num: 1, gen: 0 }), Ok(Some(Object::Dict(_)))));
    let file = build_with_xref_stream(&[(3, PAGE.into())], &[Some((2, 40, 0)), Some((0, 0, 0)), None, Some((0, 0, 0))], 6);
    let doc = Document::open(&file).expect("open");
    assert!(matches!(doc.reconstructed(), Some(Error::BadXref { .. })));
    assert_eq!(doc.get(ObjRef { num: 1, gen: 0 }), Ok(None));
}

#[test]
fn object_stream_that_inflates_past_the_limit() {
    let zeros = vec![b' '; 1 << 20];
    let mut content = b"1 0 ".to_vec();
    content.extend_from_slice(&zeros);
    content.extend_from_slice(b"<< /Type /Catalog >>");
    let objstm = stream("/Type /ObjStm /N 1 /First 4 /Filter /FlateDecode", &zlib(&content));
    let file = build_with_xref_stream(&[(3, PAGE.into()), (4, objstm)], &[Some((2, 4, 0)), None, None, None], 6);
    let limits = DecodeLimits { max_output: 4096 };
    let doc = Document::open_with_limits(&file, limits).expect("open");
    assert!(matches!(doc.get(ObjRef { num: 1, gen: 0 }), Err(Error::LimitExceeded { limit: 4096, .. })));
    let doc = Document::open(&file).expect("open");
    assert!(matches!(doc.get(ObjRef { num: 1, gen: 0 }), Ok(Some(Object::Dict(_)))));
}

#[test]
fn section_is_located_near_a_wrong_startxref() {
    let file = build(&[CATALOG, "<< /Type /Pages /Kids [] /Count 0 >>"], |_| {});
    let at = file.windows(4).position(|w| w == b"xref").unwrap();
    assert!(fyp_core::document::section_starts_at(&file, at));
    assert!(!fyp_core::document::section_starts_at(&file, at + 1));
    assert_eq!(fyp_core::document::locate_section(&file, at, 0), at);
    assert_eq!(fyp_core::document::locate_section(&file, at + 5, 0), at);
    assert_eq!(fyp_core::document::locate_section(&file, at - 7, 0), at);
    assert_eq!(fyp_core::document::locate_section(&file, 100_000, 0), 100_000);
}
