use fyp_core::object::{Name, Object};
use fyp_core::xref::{SectionKind, XrefEntry};
use fyp_core::filters::DecodeLimits;
use fyp_core::recover::reconstruct;
use std::time::{Duration, Instant};
use std::io::Write;
use fyp_core::object::ObjRef;
use fyp_core::recover::{
    boundary_after, boundary_before, find_between, find_from, header_before, next_header_start,
    object_end, on_comment_line, parse_digits, stream_keyword_between,
};

#[test]
fn header_shapes() {
    let input = b"1 0 obj";
    assert_eq!(header_before(input, 4), Some((0, ObjRef { num: 1, gen: 0 })));
    let input = b">>12 3 obj";
    assert_eq!(header_before(input, 7), Some((2, ObjRef { num: 12, gen: 3 })));
    assert_eq!(header_before(b"x1 0 obj", 5), None);
    assert_eq!(header_before(b"1 obj", 2), None);
    assert_eq!(header_before(b"1 0obj", 3), None);
    assert_eq!(header_before(b"obj", 0), None);
    assert_eq!(header_before(b"99999999999 0 obj", 14), None);
    assert_eq!(header_before(b"1 70000 obj", 8), None);
    assert!(boundary_after(b"obj<<", 3));
    assert!(boundary_after(b"obj", 3));
    assert!(!boundary_after(b"objx", 3));
    assert!(on_comment_line(b"% see 1 0 obj", 6));
    assert!(!on_comment_line(b"%\n1 0 obj", 2));
}

#[test]
fn searching_from_and_between_offsets() {
    assert_eq!(find_from(b"obj obj", 1, b"obj"), Some(4));
    assert_eq!(find_from(b"obj", 4, b"obj"), None);
    assert_eq!(find_between(b"obj obj", 1, 6, b"obj"), None);
    assert_eq!(find_between(b"obj obj", 1, 7, b"obj"), Some(4));
    assert_eq!(find_between(b"obj", 2, 1, b"obj"), None);
    assert!(boundary_before(b"1 0 obj", 0));
    assert!(boundary_before(b" 1", 1));
    assert!(!boundary_before(b"x1", 1));
    assert_eq!(parse_digits(b"00042"), Some(42));
    assert_eq!(parse_digits(b""), Some(0));
    assert_eq!(parse_digits(b"18446744073709551615"), Some(u64::MAX));
    assert_eq!(parse_digits(b"18446744073709551616"), None);
}

#[test]
fn headers_and_object_ends_are_found() {
    let file = b"%PDF-1.7\n% 9 0 obj\n1 0 obj\n<< >>\nendobj\n2 0 obj\n<< /Length 3 >>\nstream\nabc endobj\nendstream\nendobj\n";
    let first = next_header_start(file, 0);
    // The scan finds headers by shape; the one on the comment line too.
    assert_eq!(first, 11);
    let second = next_header_start(file, 19);
    assert_eq!(&file[second..second + 7], b"1 0 obj");
    let after = second + 7;
    let end = object_end(file, after);
    assert_eq!(&file[end - 6..end], b"endobj");
    let third = next_header_start(file, end);
    assert_eq!(&file[third..third + 7], b"2 0 obj");
    // The `endobj` inside the stream data does not end the object.
    let end = object_end(file, third + 7);
    assert_eq!(end, file.len() - 1);
    assert!(stream_keyword_between(file, third, file.len()).is_some());
    assert_eq!(next_header_start(file, end), file.len());
    assert_eq!(object_end(b"1 0 obj << >>", 7), 13);
}

const RC_CATALOG: &str = "<< /Type /Catalog /Pages 2 0 R >>";
const RC_PAGES: &str = "<< /Type /Pages /Kids [3 0 R] /Count 1 >>";
const RC_PAGE: &str = "<< /Type /Page /Parent 2 0 R /MediaBox [0 0 595 842] >>";

fn rebuild(input: &[u8]) -> fyp_core::xref::Xref {
    fyp_core::recover::reconstruct(input, fyp_core::filters::DecodeLimits::default()).expect("objects found")
}

fn scanned(input: &str) -> Vec<u8> {
    format!("%PDF-1.7\n{input}").into_bytes()
}

fn root_of(xref: &fyp_core::xref::Xref) -> Option<fyp_core::object::ObjRef> {
    match xref.trailer().get(&fyp_core::object::Name::new("Root")) {
        Some(fyp_core::object::Object::Reference(r)) => Some(*r),
        _ => None,
    }
}

fn zlib_bytes(data: &[u8]) -> Vec<u8> {
    let mut enc = flate2::write::ZlibEncoder::new(Vec::new(), flate2::Compression::best());
    enc.write_all(data).expect("compress");
    enc.finish().expect("finish")
}

#[test]
fn last_definition_wins_and_trailer_is_found() {
    let file = scanned(&format!(
        "1 0 obj\n{RC_CATALOG}\nendobj\n2 0 obj\n{RC_PAGES}\nendobj\n3 0 obj\n<< /Type /Page /MediaBox [0 0 1 1] >>\nendobj\n\
         trailer\n<< /Size 4 /Root 1 0 R /Info 9 0 R /Prev 5 >>\n\
         3 0 obj\n{RC_PAGE}\nendobj\ntrailer\n<< /Size 4 /Root 1 0 R >>\nstartxref\n0\n%%EOF\n"
    ));
    let xref = rebuild(&file);
    assert_eq!(xref.kind(), SectionKind::Reconstructed);
    assert_eq!(xref.object_count(), 3);
    let last_page = fyp_core::parser::find(&file, RC_PAGE.as_bytes()).unwrap() - "3 0 obj\n".len();
    assert_eq!(xref.get(3), Some(XrefEntry::InUse { offset: last_page, gen: 0 }));
    assert_eq!(root_of(&xref), Some(ObjRef { num: 1, gen: 0 }));
    assert!(xref.trailer().contains_key(&Name::new("Info")));
    assert!(!xref.trailer().contains_key(&Name::new("Prev")));
    assert_eq!(xref.trailer().get(&Name::new("Size")), Some(&Object::Integer(4)));
}

#[test]
fn catalog_fallback_when_no_trailer_or_root_is_dangling() {
    let file = scanned(&format!("2 0 obj\n{RC_PAGES}\nendobj\n1 0 obj\n{RC_CATALOG}\nendobj\n3 0 obj\n{RC_PAGE}\nendobj\n"));
    assert_eq!(root_of(&rebuild(&file)), Some(ObjRef { num: 1, gen: 0 }));
    let dangling = scanned(&format!("1 0 obj\n{RC_CATALOG}\nendobj\ntrailer\n<< /Root 42 0 R >>\n"));
    assert_eq!(root_of(&rebuild(&dangling)), Some(ObjRef { num: 1, gen: 0 }));
    let none = scanned("5 0 obj\n<< /A 1 >>\nendobj\n");
    let xref = rebuild(&none);
    assert_eq!(root_of(&xref), None);
    assert_eq!(xref.get(5), Some(XrefEntry::InUse { offset: 9, gen: 0 }));
}

#[test]
fn missing_endobj_and_generations() {
    let file = scanned("1 2 obj\n<< /A 1 >>\n2 0 obj\n[1 2 3]\nendobj\n3 0 obj\n(str)\n");
    let xref = rebuild(&file);
    assert_eq!(xref.get(1), Some(XrefEntry::InUse { offset: 9, gen: 2 }));
    assert!(matches!(xref.get(2), Some(XrefEntry::InUse { gen: 0, .. })));
    assert!(matches!(xref.get(3), Some(XrefEntry::InUse { gen: 0, .. })));
    assert_eq!(xref.object_count(), 3);
}

#[test]
fn headers_inside_strings_streams_and_comments_are_not_objects() {
    let data = b"9 0 obj\n<< /A 1 >>\nendobj\n8 0 obj";
    let file = scanned(&format!(
        "1 0 obj\n<< /Type /Catalog /T (see 7 0 obj here) /U <41> >>\nendobj\n\
         % 6 0 obj is a comment\n\
         4 0 obj\n<< /Length {} >>\nstream\n{}\nendstream\nendobj\n\
         5 0 obj\n<< /Length 999 >>\nstream\n{}\nendstream\nendobj\n",
        data.len(),
        String::from_utf8_lossy(data),
        String::from_utf8_lossy(data),
    ));
    let xref = rebuild(&file);
    let nums: Vec<u32> = xref.entries().into_iter().map(|(n, _)| n).collect();
    assert_eq!(nums, vec![1, 4, 5], "{nums:?}");
    assert_eq!(xref.get(7), None);
    assert_eq!(xref.get(6), None);
    assert_eq!(xref.get(8), None);
    assert_eq!(xref.get(9), None);
}

#[test]
fn object_streams_are_opened_and_indexed() {
    let content = format!("1 0 2 {} \n{RC_CATALOG}\n{RC_PAGES}\n", RC_CATALOG.len() + 1);
    let first = content.find('\n').unwrap() + 1;
    let z = zlib_bytes(content.as_bytes());
    let mut file = scanned(&format!("3 0 obj\n{RC_PAGE}\nendobj\n"));
    let objstm_at = file.len();
    file.extend_from_slice(
        format!("4 0 obj\n<< /Type /ObjStm /N 2 /First {first} /Filter /FlateDecode /Length {} >>\nstream\n", z.len())
            .as_bytes(),
    );
    file.extend_from_slice(&z);
    file.extend_from_slice(b"\nendstream\nendobj\n");
    file.extend_from_slice(
        b"5 0 obj\n<< /Type /XRef /Size 6 /W [1 2 1] /Root 1 0 R /Info 3 0 R /Length 4 >>\nstream\n\x00\x00\x00\x00\nendstream\nendobj\n",
    );
    let redefined_at = file.len();
    file.extend_from_slice(format!("2 0 obj\n{RC_PAGES}\nendobj\n").as_bytes());
    let xref = rebuild(&file);
    assert_eq!(xref.get(1), Some(XrefEntry::InStream { stream_num: 4, index: 0 }));
    assert_eq!(xref.get(2), Some(XrefEntry::InUse { offset: redefined_at, gen: 0 }));
    assert_eq!(xref.get(4), Some(XrefEntry::InUse { offset: objstm_at, gen: 0 }));
    assert_eq!(xref.object_count(), 5);
    assert_eq!(root_of(&xref), Some(ObjRef { num: 1, gen: 0 }));
    assert!(xref.trailer().contains_key(&Name::new("Info")));
    assert!(!xref.trailer().contains_key(&Name::new("W")));
    let cut = file.get(..fyp_core::parser::find(&file, b"5 0 obj").unwrap()).unwrap();
    assert_eq!(root_of(&rebuild(cut)), Some(ObjRef { num: 1, gen: 0 }));
    let tight = DecodeLimits { max_output: 8 };
    let xref = fyp_core::recover::reconstruct(&file, tight).expect("objects");
    assert_eq!(xref.get(1), None);
    assert!(matches!(xref.get(2), Some(XrefEntry::InUse { .. })));
}

#[test]
fn truncated_file_keeps_what_is_complete() {
    let file = scanned(&format!(
        "1 0 obj\n{RC_CATALOG}\nendobj\n2 0 obj\n{RC_PAGES}\nendobj\n3 0 obj\n<< /Type /Page /Parent 2 0 R /Med"
    ));
    let xref = rebuild(&file);
    assert_eq!(xref.object_count(), 2);
    assert_eq!(xref.get(3), None);
    assert_eq!(root_of(&xref), Some(ObjRef { num: 1, gen: 0 }));
    let tail_only = scanned("2 0 obj\n<< /Length 5 >>\nstream\nhel");
    assert!(fyp_core::recover::reconstruct(&tail_only, fyp_core::filters::DecodeLimits::default()).is_none());
}

#[test]
fn nothing_to_find() {
    assert!(reconstruct(b"", DecodeLimits::default()).is_none());
    assert!(reconstruct(b"%PDF-1.7\nhello obj world", DecodeLimits::default()).is_none());
    assert!(reconstruct(b"1 0 obj", DecodeLimits::default()).is_none());
    assert!(reconstruct(b"1 0 obj >>", DecodeLimits::default()).is_none());
}

#[test]
fn hostile_megabytes_fail_fast() {
    let mut garbage = Vec::with_capacity(3 << 20);
    let mut x: u32 = 12345;
    while garbage.len() < 3 << 20 {
        x = x.wrapping_mul(1_103_515_245).wrapping_add(12345);
        garbage.push((x >> 16) as u8);
    }
    let mut unterminated = Vec::with_capacity(3 << 20);
    while unterminated.len() < 3 << 20 {
        unterminated.extend_from_slice(b"1 0 obj << ");
    }
    unterminated.extend_from_slice(b"endobj");
    let mut distinct = Vec::with_capacity(3 << 20);
    let mut n = 1;
    while distinct.len() < 3 << 20 {
        distinct.extend_from_slice(format!("{n} 0 obj << ").as_bytes());
        n += 1;
    }
    distinct.extend_from_slice(b"endobj");
    let mut trailers = Vec::with_capacity(3 << 20);
    while trailers.len() < 3 << 20 {
        trailers.extend_from_slice(b"trailer << ");
    }
    for (what, file) in [("garbage", garbage), ("unterminated", unterminated), ("distinct", distinct), ("trailers", trailers)] {
        let started = Instant::now();
        let result = reconstruct(&file, DecodeLimits::default());
        let elapsed = started.elapsed();
        assert!(result.is_none(), "{what}: found objects");
        assert!(elapsed < Duration::from_secs(5), "{what}: took {elapsed:?}");
    }
}
