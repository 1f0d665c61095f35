use fyp_core::parser::find;
use fyp_core::version::{assumed_version, detect_version, quick_info, rfind, PdfVersion};
use fyp_core::Error;

#[test]
fn header() {
    let (v, off) = detect_version(b"%PDF-1.7\n%\xE2\xE3\xCF\xD3\n").expect("header");
    assert_eq!(v, PdfVersion { major: 1, minor: 7 });
    assert_eq!(off, 0);
    assert_eq!(
        detect_version(b"junk\n%PDF-2.0")
            .expect("header")
            .0
            .to_string(),
        "2.0"
    );
    assert_eq!(detect_version(b"not a pdf"), Err(Error::BadHeader));
    assert_eq!(detect_version(b"%PDF-x.y"), Err(Error::BadHeader));
}

#[test]
fn header_without_minor_digit_reads_as_minor_zero() {
    for input in [&b"%PDF-1.\n1 0 obj"[..], b"%PDF-1\n", b"%PDF-1.", b"%PDF-1"] {
        let (v, off) = detect_version(input).unwrap_or_else(|e| panic!("{input:?}: {e:?}"));
        assert_eq!(v, PdfVersion { major: 1, minor: 0 }, "{input:?}");
        assert_eq!(off, 0);
    }
    assert_eq!(detect_version(b"%PDF-1.x"), Err(Error::BadHeader));
    assert_eq!(detect_version(b"%PDF-1x"), Err(Error::BadHeader));
}

#[test]
fn headerless_file_starting_with_a_comment_is_tried() {
    let file =
        b"%\xE2\xE3\xCF\xD3\n1 0 obj\n<< >>\nendobj\ntrailer\n<< /Root 1 0 R >>\n%%EOF\n";
    let info = quick_info(file).expect("info");
    assert!(!info.header_present);
    assert_eq!(info.version, assumed_version());
    assert_eq!(info.header_offset, 0);
    assert!(info.has_eof_marker);
    // A real header is still preferred and reported as present.
    assert!(
        quick_info(b"%PDF-1.7\n1 0 obj\n")
            .expect("info")
            .header_present
    );
    // Not PDFs: no comment first, or a comment with no object at all.
    assert_eq!(quick_info(b"oops\n"), Err(Error::BadHeader));
    assert_eq!(
        quick_info(b"1/Catalogier\n]<\ntrailer"),
        Err(Error::BadHeader)
    );
    assert_eq!(quick_info(b"% just a comment\n"), Err(Error::BadHeader));
}

#[test]
fn quick_facts() {
    let file = b"%PDF-1.4\n1 0 obj << >> endobj\ntrailer\n<< /Root 1 0 R /Encrypt 2 0 R >>\nstartxref\n42\n%%EOF\n";
    let info = quick_info(file).expect("info");
    assert_eq!(info.startxref, Some(42));
    assert!(info.looks_encrypted);
    assert!(info.has_eof_marker);
}

#[test]
fn startxref_digits_must_be_there_and_fit() {
    let info = quick_info(b"%PDF-1.4\nstartxref\n  \r\n 00017 trailing\n").expect("info");
    assert_eq!(info.startxref, Some(17));
    let info = quick_info(b"%PDF-1.4\nstartxref\nx\n").expect("info");
    assert_eq!(info.startxref, None);
    let info = quick_info(b"%PDF-1.4\nstartxref\n99999999999999999999999999\n").expect("info");
    assert_eq!(info.startxref, None);
    // The last startxref counts.
    let info = quick_info(b"%PDF-1.4\nstartxref 1\nstartxref 2\n").expect("info");
    assert_eq!(info.startxref, Some(2));
    assert!(!info.looks_encrypted);
    assert!(!info.has_eof_marker);
}

#[test]
fn header_in_the_first_kilobyte_only() {
    let mut late = vec![b' '; 1019];
    late.extend_from_slice(b"%PDF-1.6");
    assert_eq!(detect_version(&late), Ok((PdfVersion { major: 1, minor: 6 }, 1019)));
    let mut too_late = vec![b' '; 1020];
    too_late.extend_from_slice(b"%PDF-1.6");
    assert_eq!(detect_version(&too_late), Err(Error::BadHeader));
    assert_eq!(detect_version(b"%PDF-1.4 x"), Ok((PdfVersion { major: 1, minor: 4 }, 0)));
    assert_eq!(detect_version(b"%PDF-2 x"), Ok((PdfVersion { major: 2, minor: 0 }, 0)));
    assert_eq!(PdfVersion { major: 1, minor: 10 }.to_string(), "1.10");
}

#[test]
fn find_and_rfind_give_the_first_and_last_occurrence() {
    assert_eq!(find(b"abcabc", b"bc"), Some(1));
    assert_eq!(rfind(b"abcabc", b"bc"), Some(4));
    assert_eq!(find(b"abcabc", b"x"), None);
    assert_eq!(rfind(b"abcabc", b"x"), None);
    assert_eq!(find(b"abc", b""), None);
    assert_eq!(rfind(b"abc", b""), None);
    assert_eq!(find(b"ab", b"abc"), None);
    assert_eq!(rfind(b"aaa", b"aa"), Some(1));
    assert_eq!(find(b"aaa", b"aa"), Some(0));
}
