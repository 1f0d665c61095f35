use fyp_core::document::Document;
use fyp_core::xref::{SectionKind, XrefEntry};
use fyp_core::lexer::Lexer;
use fyp_core::object::{Dict, Name, ObjRef, Object};
use fyp_core::parser::{Parser, MAX_DEPTH};
use fyp_core::version::PdfVersion;
use fyp_core::writer::{
    bytes_needed, file_id, id_from_hashes, pdf_integer, serialize, write_name, write_string, Writer,
    XrefStyle,
};
use fyp_core::Error;

#[test]
fn helpers() {
    assert_eq!(bytes_needed(0), 1);
    assert_eq!(bytes_needed(255), 1);
    assert_eq!(bytes_needed(256), 2);
    assert_eq!(bytes_needed(1 << 24), 4);
    assert_eq!(file_id(b"a"), file_id(b"a"));
    assert_ne!(file_id(b"a"), file_id(b"b"));
    assert_ne!(file_id(b"a")[..8], file_id(b"a")[8..]);
}

#[test]
fn strings_are_literal_or_hexadecimal() {
    let mut out = Vec::new();
    write_string(b"a(b)c\\d\ne\rf\tg", &mut out);
    assert_eq!(out, b"(a\\(b\\)c\\\\d\\ne\\rf\\tg)");
    let mut out = Vec::new();
    write_string(b"\x00\xff", &mut out);
    assert_eq!(out, b"<00FF>");
    let mut out = b"x".to_vec();
    write_string(b"", &mut out);
    assert_eq!(out, b"x()");
}

#[test]
fn names_escape_what_cannot_stand() {
    let mut out = Vec::new();
    write_name(&Name::new("Type"), &mut out);
    assert_eq!(out, b"/Type");
    let mut out = Vec::new();
    write_name(&Name(b"a b#c/d\x80".to_vec()), &mut out);
    assert_eq!(out, b"/a#20b#23c#2Fd#80");
}

#[test]
fn version_is_raised_for_a_stream() {
    let v14 = PdfVersion { major: 1, minor: 4 };
    let v17 = PdfVersion { major: 1, minor: 7 };
    assert_eq!(Writer::new(v14).version(), v14);
    assert_eq!(Writer::new(v14).xref_style(XrefStyle::Stream).version(), PdfVersion { major: 1, minor: 5 });
    assert_eq!(Writer::new(v17).xref_style(XrefStyle::Stream).version(), v17);
    assert_eq!(XrefStyle::default(), XrefStyle::Table);
}

#[test]
fn sizes_become_integers() {
    assert_eq!(pdf_integer(42), Ok(42));
    if let Ok(big) = usize::try_from(u64::MAX) {
        assert!(matches!(pdf_integer(big), Err(Error::Unwritable { .. })));
    }
    assert_eq!(
        id_from_hashes(0x0102030405060708, 0x1112131415161718),
        [1, 2, 3, 4, 5, 6, 7, 8, 0x11, 0x12, 0x13, 0x14, 0x15, 0x16, 0x17, 0x18]
    );
}

#[test]
fn written_strings_and_names_read_back() {
    for s in [&b"plain"[..], b"(nested) \\ and \r\n\t", b"\x00\x01binary\xff", b""] {
        let mut out = Vec::new();
        write_string(s, &mut out);
        let written = out.len();
        out.extend_from_slice(b"] tail");
        let mut lx = Lexer::new(&out);
        let open = lx.bump();
        let back = if open == Some(b'(') { lx.literal_string() } else { lx.hex_string() };
        assert_eq!(back, Ok(s.to_vec()));
        assert_eq!(lx.pos(), written);
    }
    for n in [&b"Type"[..], b"a b#c/d\x80", b""] {
        let mut out = Vec::new();
        write_name(&Name(n.to_vec()), &mut out);
        let written = out.len();
        out.extend_from_slice(b" 1");
        let mut lx = Lexer::new(&out);
        lx.bump();
        assert_eq!(lx.name(), n.to_vec());
        assert_eq!(lx.pos(), written);
    }
}

fn bytes(obj: &Object) -> Vec<u8> {
    let mut out = Vec::new();
    serialize(obj, &mut out).expect("serialize");
    out
}

fn text(obj: &Object) -> String {
    String::from_utf8(bytes(obj)).expect("utf8")
}

fn reparse(obj: &Object) -> Object {
    Parser::new(&bytes(obj)).parse_object().expect("reparse")
}

fn real_text_object(t: &str) -> Object {
    Object::Real(t.as_bytes().to_vec())
}

#[test]
fn scalars_and_reals() {
    assert_eq!(text(&Object::Null), "null");
    assert_eq!(text(&Object::Bool(true)), "true");
    assert_eq!(text(&Object::Integer(-42)), "-42");
    assert_eq!(text(&real_text_object("1.5")), "1.5");
    assert_eq!(text(&real_text_object("5")), "5.0");
    assert_eq!(text(&real_text_object("-0.0")), "-0.0");
    assert_eq!(text(&real_text_object("0.0000001")), "0.0000001");
    assert_eq!(text(&real_text_object("1000000000000000000000")), "1000000000000000000000.0");
    for v in ["0.1", "-0.0000000025", "123456.789", "1.0"] {
        assert_eq!(reparse(&real_text_object(v)), real_text_object(v), "{v}");
    }
    assert!(matches!(
        serialize(&real_text_object("inf"), &mut Vec::new()),
        Err(Error::Unwritable { .. })
    ));
    assert!(matches!(
        serialize(&real_text_object("NaN"), &mut Vec::new()),
        Err(Error::Unwritable { .. })
    ));
}

#[test]
fn strings_literal_and_hex() {
    assert_eq!(text(&Object::String(b"a(b)c\\d".to_vec())), r"(a\(b\)c\\d)");
    assert_eq!(
        text(&Object::String(b"l1\r\nl2\t".to_vec())),
        r"(l1\r\nl2\t)"
    );
    assert_eq!(text(&Object::String(Vec::new())), "()");
    assert_eq!(text(&Object::String(b"\x00\xFFA".to_vec())), "<00FF41>");
    for s in [
        &b"plain"[..],
        b"(((",
        b"\\",
        b"\r",
        b"\r\n",
        b"\n\r",
        b"bin\x01\x80\xFE",
        b"",
    ] {
        assert_eq!(
            reparse(&Object::String(s.to_vec())),
            Object::String(s.to_vec())
        );
    }
}

#[test]
fn writer_names_with_escapes() {
    assert_eq!(text(&Object::Name(Name::new("Type"))), "/Type");
    assert_eq!(text(&Object::Name(Name::new("A B"))), "/A#20B");
    assert_eq!(
        text(&Object::Name(Name::new("a#b/c(d)"))),
        "/a#23b#2Fc#28d#29"
    );
    assert_eq!(text(&Object::Name(Name(vec![0xE9, 0x00]))), "/#E9#00");
    assert_eq!(text(&Object::Name(Name(Vec::new()))), "/");
    for n in [&b"plain"[..], b"with space", b"#", b"<>[]{}/%", b"\xFF\x00"] {
        assert_eq!(
            reparse(&Object::Name(Name(n.to_vec()))),
            Object::Name(Name(n.to_vec()))
        );
    }
}

#[test]
fn containers_and_streams() {
    let mut dict = Dict::new();
    dict.insert(Name::new("Type"), Object::Name(Name::new("Page")));
    dict.insert(
        Name::new("Kids"),
        Object::Array(vec![Object::Reference(ObjRef { num: 4, gen: 0 })]),
    );
    dict.insert(Name::new("Empty"), Object::Array(Vec::new()));
    dict.insert(Name::new("Sub"), Object::Dict(Dict::new()));
    assert_eq!(
        text(&Object::Dict(dict.clone())),
        "<< /Empty [] /Kids [4 0 R] /Sub << >> /Type /Page >>"
    );
    assert_eq!(
        reparse(&Object::Dict(dict.clone())),
        Object::Dict(dict.clone())
    );

    // A wrong or indirect /Length is replaced by the exact one.
    dict.insert(
        Name::new("Length"),
        Object::Reference(ObjRef { num: 9, gen: 0 }),
    );
    let stream = Object::Stream {
        dict,
        data: b"hello\nendstream?".to_vec(),
    };
    let out = text(&stream);
    assert!(out.contains("/Length 16 /Sub"), "{out}");
    assert!(
        out.ends_with(">>\nstream\nhello\nendstream?\nendstream"),
        "{out}"
    );
    match reparse(&stream) {
        Object::Stream { dict, data } => {
            assert_eq!(data, b"hello\nendstream?");
            assert_eq!(dict.get(&Name::new("Length")), Some(&Object::Integer(16)));
        }
        other => panic!("{other:?}"),
    }
}

#[test]
fn nesting_is_bounded() {
    let mut obj = Object::Null;
    for _ in 0..(MAX_DEPTH + 2) {
        obj = Object::Array(vec![obj]);
    }
    assert_eq!(serialize(&obj, &mut Vec::new()), Err(Error::TooDeep));
}

#[test]
fn references_and_arrays_are_spelled_with_single_spaces() {
    let obj = Object::Array(vec![
        Object::Reference(ObjRef { num: 12, gen: 3 }),
        Object::Integer(i64::MIN),
        Object::Bool(false),
        Object::Null,
    ]);
    assert_eq!(text(&obj), "[12 3 R -9223372036854775808 false null]");
    assert_eq!(reparse(&obj), obj);
}

fn ver(major: u8, minor: u8) -> PdfVersion {
    PdfVersion { major, minor }
}

/// A small file with a catalog (1), page tree (2), page (3), a stream
/// whose /Length is indirect (4, length in 5) and gaps in numbering.
fn source_file() -> Vec<u8> {
    let mut f = b"%PDF-1.4\n".to_vec();
    let mut offsets = Vec::new();
    for (num, body) in [
        (1, "<< /Type /Catalog /Pages 2 0 R >>"),
        (2, "<< /Type /Pages /Kids [3 0 R] /Count 1 >>"),
        (3, "<< /Type /Page /Parent 2 0 R /MediaBox [0 0 100 100] /Contents 4 0 R >>"),
        (4, "<< /Length 5 0 R >>\nstream\nBT ET\nendstream"),
        (5, "5"),
        (8, "(free numbers 6 and 7)"),
    ] {
        offsets.push((num, f.len()));
        f.extend_from_slice(format!("{num} 0 obj\n{body}\nendobj\n").as_bytes());
    }
    let xref = f.len();
    f.extend_from_slice(b"xref\n0 9\n0000000000 65535 f \n");
    for num in 1..9u32 {
        match offsets.iter().find(|(n, _)| *n == num) {
            Some((_, off)) => f.extend_from_slice(format!("{off:010} 00000 n \n").as_bytes()),
            None => f.extend_from_slice(b"0000000000 00001 f \n"),
        }
    }
    f.extend_from_slice(format!("trailer\n<< /Size 9 /Root 1 0 R >>\nstartxref\n{xref}\n%%EOF\n").as_bytes());
    f
}

#[test]
fn classic_table_layout() {
    let src = source_file();
    let doc = Document::open(&src).expect("open source");
    let out = Writer::new(ver(1, 4)).write(&doc).expect("write");
    assert!(out.starts_with(b"%PDF-1.4\n%\xE2\xE3\xCF\xD3\n"));
    assert!(out.ends_with(b"%%EOF\n"));
    let table_at = fyp_core::parser::find(&out, b"xref\n0 9\n").expect("xref keyword");
    let entries = std::str::from_utf8(&out[table_at + 9..table_at + 9 + 9 * 20]).expect("ascii");
    let lines: Vec<&str> = entries.split_inclusive('\n').collect();
    assert_eq!(lines.len(), 9);
    assert!(lines.iter().all(|l| l.len() == 20 && l.ends_with(" \n")), "{lines:?}");
    assert_eq!(lines[0], "0000000006 65535 f \n");
    assert_eq!(lines[6], "0000000007 00001 f \n");
    assert_eq!(lines[7], "0000000000 00001 f \n");
    for (num, line) in lines.iter().enumerate().filter(|(_, l)| l.ends_with("n \n")) {
        let offset: usize = line[..10].parse().unwrap();
        assert!(out[offset..].starts_with(format!("{num} 0 obj\n").as_bytes()), "object {num}");
    }
    assert!(out.ends_with(format!("startxref\n{table_at}\n%%EOF\n").as_bytes()));
    let again = Document::open(&out).expect("reopen");
    assert_eq!(again.reconstructed(), None);
    assert_eq!(again.xref().kind(), SectionKind::Table);
    let trailer = again.trailer();
    assert_eq!(trailer.get(&Name::new("Size")), Some(&Object::Integer(9)));
    assert!(!trailer.contains_key(&Name::new("Prev")));
    match trailer.get(&Name::new("ID")) {
        Some(Object::Array(id)) => match id.as_slice() {
            [Object::String(a), Object::String(b)] => {
                assert_eq!(a.len(), 16);
                assert_eq!(a, b);
            },
            other => panic!("{other:?}"),
        },
        other => panic!("{other:?}"),
    }
    match again.get(ObjRef { num: 4, gen: 0 }).expect("get").expect("listed") {
        Object::Stream { dict, data } => {
            assert_eq!(dict.get(&Name::new("Length")), Some(&Object::Integer(5)));
            assert_eq!(data, b"BT ET");
        },
        other => panic!("{other:?}"),
    }
    assert_eq!(again.get(ObjRef { num: 5, gen: 0 }), Ok(Some(Object::Integer(5))));
    assert_eq!(again.page_count(), Ok(1));
}

#[test]
fn xref_stream_layout_and_version_floor() {
    let src = source_file();
    let doc = Document::open(&src).expect("open source");
    let writer = Writer::new(ver(1, 4)).xref_style(XrefStyle::Stream);
    assert_eq!(writer.version(), ver(1, 5));
    let out = writer.write(&doc).expect("write");
    assert!(out.starts_with(b"%PDF-1.5\n"));
    let again = Document::open(&out).expect("reopen");
    assert_eq!(again.reconstructed(), None);
    assert_eq!(again.xref().kind(), SectionKind::Stream);
    let trailer = again.trailer();
    assert_eq!(trailer.get(&Name::new("Size")), Some(&Object::Integer(10)));
    assert_eq!(
        trailer.get(&Name::new("Index")),
        Some(&Object::Array([0, 6, 8, 2].iter().map(|&i| Object::Integer(i)).collect()))
    );
    assert_eq!(again.xref().get(6), None);
    let Some(XrefEntry::InUse { offset, gen: 0 }) = again.xref().get(9) else {
        panic!("{:?}", again.xref().get(9));
    };
    assert!(out[offset..].starts_with(b"9 0 obj\n"));
    assert_eq!(again.xref().object_count(), 7);
    assert_eq!(again.page_count(), Ok(1));
    assert_eq!(Writer::new(ver(1, 7)).xref_style(XrefStyle::Stream).version(), ver(1, 7));
}

#[test]
fn rewriting_is_stable_and_keeps_the_permanent_id() {
    let src = source_file();
    let doc = Document::open(&src).expect("open");
    let first = Writer::new(ver(1, 4)).write(&doc).expect("first");
    let doc2 = Document::open(&first).expect("reopen");
    let second = Writer::new(ver(1, 4)).write(&doc2).expect("second");
    assert_eq!(first, second);
    let with_id = String::from_utf8_lossy(&src)
        .replace("/Root 1 0 R", "/Root 1 0 R /ID [<00112233445566778899AABBCCDDEEFF> (old)]");
    let doc3 = Document::open(with_id.as_bytes()).expect("open with id");
    let out = Writer::new(ver(1, 4)).write(&doc3).expect("write");
    let again = Document::open(&out).expect("reopen");
    match again.trailer().get(&Name::new("ID")) {
        Some(Object::Array(id)) => match id.as_slice() {
            [Object::String(a), Object::String(b)] => {
                assert_eq!(a, &[0x00, 0x11, 0x22, 0x33, 0x44, 0x55, 0x66, 0x77, 0x88, 0x99, 0xAA, 0xBB, 0xCC, 0xDD, 0xEE, 0xFF]);
                assert_ne!(b, b"old");
                assert_eq!(b.len(), 16);
            },
            other => panic!("{other:?}"),
        },
        other => panic!("{other:?}"),
    }
}

#[test]
fn refusals() {
    let sparse = b"%PDF-1.4\n1 0 obj\n<< /Type /Catalog /Pages 5000000 0 R >>\nendobj\n5000000 0 obj\n<< /Type /Pages /Kids [] /Count 0 >>\nendobj\ntrailer\n<< /Root 1 0 R >>\n";
    let doc = Document::open(sparse).expect("open by scan");
    assert!(matches!(
        Writer::new(ver(1, 4)).write(&doc),
        Err(Error::Unwritable { message }) if message.contains("sparse")
    ));
    let out = Writer::new(ver(1, 4)).xref_style(XrefStyle::Stream).write(&doc).expect("stream style handles gaps");
    let again = Document::open(&out).expect("reopen");
    assert_eq!(again.reconstructed(), None);
    assert_eq!(again.xref().object_count(), 3);
    assert_eq!(again.page_count(), Ok(0));
    let no_root = String::from_utf8_lossy(&source_file()).replace("/Root 1 0 R", "/Root 7 0 R");
    let doc = Document::open(no_root.as_bytes()).expect("open");
    assert!(doc.reconstructed().is_some());
    assert!(Writer::new(ver(1, 4)).write(&doc).is_ok());
    let no_catalog = no_root.replace("/Type /Catalog", "/Type /Catalox");
    let doc = Document::open(no_catalog.as_bytes()).expect("open");
    assert!(doc.reconstructed().is_some());
    assert!(matches!(
        Writer::new(ver(1, 4)).write(&doc),
        Err(Error::Unwritable { message }) if message.contains("/Root")
    ));
}
