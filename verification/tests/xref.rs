use std::io::Write;
use std::collections::BTreeMap;

use fyp_core::filters::DecodeLimits;
use fyp_core::object::{Name, Object};
use fyp_core::xref::{big_endian, decode_row, free_object_zero, SectionKind, Xref, XrefEntry};
use fyp_core::Error;

#[test]
fn rows_of_a_cross_reference_stream() {
    let w = [1, 2, 1];
    assert_eq!(decode_row(&[1, 0, 16, 0], w, 0), Ok(Some(XrefEntry::InUse { offset: 16, gen: 0 })));
    assert_eq!(decode_row(&[0, 0, 5, 7], w, 0), Ok(Some(XrefEntry::Free { gen: 7 })));
    assert_eq!(decode_row(&[1, 0, 0, 9], w, 0), Ok(Some(XrefEntry::Free { gen: 9 })));
    assert_eq!(decode_row(&[2, 0, 4, 3], w, 0), Ok(Some(XrefEntry::InStream { stream_num: 4, index: 3 })));
    assert_eq!(decode_row(&[7, 0, 4, 3], w, 0), Ok(None));
    // No type field: type 1.
    assert_eq!(decode_row(&[0, 32, 1], [0, 2, 1], 0), Ok(Some(XrefEntry::InUse { offset: 32, gen: 1 })));
    // A generation that does not fit: clamped when free, refused in use.
    assert_eq!(decode_row(&[0, 0, 0, 1, 0, 0], [1, 2, 3], 0), Ok(Some(XrefEntry::Free { gen: 65535 })));
    assert!(matches!(
        decode_row(&[1, 0, 9, 1, 0, 0], [1, 2, 3], 77),
        Err(Error::BadXref { offset: 77, message }) if message == "generation out of range"
    ));
    assert!(matches!(
        decode_row(&[2, 1, 0, 0, 0, 0, 0], [1, 5, 1], 5),
        Err(Error::BadXref { offset: 5, message }) if message == "object stream number out of range"
    ));
    // A short row: the missing bytes are missing.
    assert_eq!(decode_row(&[1, 1], w, 0), Ok(Some(XrefEntry::InUse { offset: 1, gen: 0 })));
}

#[test]
fn big_endian_values() {
    assert_eq!(big_endian(&[]), 0);
    assert_eq!(big_endian(&[1, 2]), 0x0102);
    assert_eq!(big_endian(&[0xff; 8]), u64::MAX);
}

#[test]
fn object_zero_is_never_in_use() {
    let mut entries = BTreeMap::new();
    entries.insert(0, XrefEntry::InUse { offset: 9, gen: 0 });
    entries.insert(1, XrefEntry::InUse { offset: 15, gen: 0 });
    free_object_zero(&mut entries);
    assert_eq!(entries.get(&0), Some(&XrefEntry::Free { gen: 65535 }));
    assert_eq!(entries.get(&1), Some(&XrefEntry::InUse { offset: 15, gen: 0 }));
    let mut free = BTreeMap::new();
    free.insert(0, XrefEntry::Free { gen: 3 });
    free_object_zero(&mut free);
    assert_eq!(free.get(&0), Some(&XrefEntry::Free { gen: 3 }));
    let mut none: BTreeMap<u32, XrefEntry> = BTreeMap::new();
    free_object_zero(&mut none);
    assert!(none.is_empty());
}

const SIMPLE: &[u8] = b"xref\n0 1\n0000000000 65535 f \n3 2\n0000000017 00000 n \n0000000081 00002 n \ntrailer\n<< /Size 5 >>\n";

fn is_bad_xref<T>(result: Result<T, Error>) -> bool {
    matches!(result, Err(Error::BadXref { .. }))
}

/// An uncompressed cross-reference stream as object 9, `/W [1 2 1]`.
fn xref_stream(extra: &str, rows: &[u8]) -> Vec<u8> {
    let mut out = format!(
        "9 0 obj\n<< /Type /XRef /W [1 2 1] {extra} /Length {} >>\nstream\n",
        rows.len()
    )
    .into_bytes();
    out.extend_from_slice(rows);
    out.extend_from_slice(b"\nendstream\nendobj\n");
    out
}

#[test]
fn subsections_and_entry_types() {
    let xref = Xref::parse(SIMPLE, 0).expect("xref");
    assert_eq!(xref.get(0), Some(XrefEntry::Free { gen: 65535 }));
    assert_eq!(xref.get(1), None);
    assert_eq!(xref.get(3), Some(XrefEntry::InUse { offset: 17, gen: 0 }));
    assert_eq!(xref.get(4), Some(XrefEntry::InUse { offset: 81, gen: 2 }));
    assert_eq!(xref.object_count(), 2);
    assert_eq!(xref.entries().len(), 3);
    assert_eq!(
        xref.trailer()
            .get(&Name::new("Size"))
            .and_then(Object::as_i64),
        Some(5)
    );
}

#[test]
fn free_entry_generation_out_of_range_is_clamped() {
    // `65536 f` on the free-list head is a common writer slip: the
    // table stays usable, the value reads as "never reused".
    let file =
        b"xref\n0 2\n0000000000 65536 f \n0000000009 00000 n \ntrailer\n<< /Root 1 0 R >>\n";
    let xref = Xref::parse(file, 0).expect("parse");
    assert_eq!(xref.get(0), Some(XrefEntry::Free { gen: 65535 }));
    assert_eq!(xref.get(1), Some(XrefEntry::InUse { offset: 9, gen: 0 }));
    // On an in-use entry the generation is meaningful: still refused.
    let in_use = b"xref\n0 2\n0000000000 65535 f \n0000000009 65536 n \ntrailer\n<< >>\n";
    assert!(is_bad_xref(Xref::parse(in_use, 0)));
}

#[test]
fn in_use_entry_at_offset_zero_is_free() {
    // Classic table: `0000000000 00000 n` for an unused number.
    let table = b"xref\n0 3\n0000000000 65535 f \n0000000009 00000 n \n0000000000 00000 n \ntrailer\n<< >>\n";
    let xref = Xref::parse(table, 0).expect("parse");
    assert_eq!(xref.get(1), Some(XrefEntry::InUse { offset: 9, gen: 0 }));
    assert_eq!(xref.get(2), Some(XrefEntry::Free { gen: 0 }));
    assert_eq!(xref.object_count(), 1);
    // Cross-reference stream (`/W [1 2 1]`): a type 1 row with field 2
    // at zero.
    let rows = [
        0, 0, 0, 0xFF, // 0: free
        1, 0, 42, 0, // 1: at offset 42
        1, 0, 0, 7, // 2: "in use" at offset 0, generation 7
    ];
    let stream = xref_stream("/Size 3", &rows);
    let xref = Xref::parse(&stream, 0).expect("parse");
    assert_eq!(xref.get(1), Some(XrefEntry::InUse { offset: 42, gen: 0 }));
    assert_eq!(xref.get(2), Some(XrefEntry::Free { gen: 7 }));
    assert_eq!(xref.object_count(), 1);
}

#[test]
fn tolerates_one_byte_eol_in_entries() {
    let file = b"xref\n0 2\n0000000000 65535 f\n0000000009 00000 n\ntrailer\n<< >>\n";
    let xref = Xref::parse(file, 0).expect("xref");
    assert_eq!(xref.get(1), Some(XrefEntry::InUse { offset: 9, gen: 0 }));
}

#[test]
fn newest_entry_wins_along_prev_chain() {
    let old = "xref\n0 2\n0000000000 65535 f \n0000000100 00000 n \ntrailer\n<< /Size 2 >>\n";
    let new =
        "xref\n1 2\n0000000200 00000 n \n0000000300 00000 n \ntrailer\n<< /Size 3 /Prev 0 >>\n";
    let file = format!("{old}{new}");
    let xref = Xref::parse(file.as_bytes(), old.len()).expect("xref");
    assert_eq!(xref.get(0), Some(XrefEntry::Free { gen: 65535 }));
    assert_eq!(
        xref.get(1),
        Some(XrefEntry::InUse {
            offset: 200,
            gen: 0
        })
    );
    assert_eq!(
        xref.get(2),
        Some(XrefEntry::InUse {
            offset: 300,
            gen: 0
        })
    );
    assert_eq!(
        xref.trailer()
            .get(&Name::new("Size"))
            .and_then(Object::as_i64),
        Some(3)
    );
}

#[test]
fn prev_cycle_between_two_sections_is_an_error() {
    // Fixed-width offsets so that each section's length is known up front.
    let section = |prev: usize| format!("xref\n0 0\ntrailer\n<< /Prev {prev:010} >>\n");
    let len = section(0).len();
    let file = section(len) + &section(0);
    assert_eq!(
        Xref::parse(file.as_bytes(), 0),
        Err(Error::XrefLoop { offset: 0 })
    );
}

#[test]
fn hostile_offsets_are_errors() {
    assert!(is_bad_xref(Xref::parse(SIMPLE, SIMPLE.len())));
    assert!(is_bad_xref(Xref::parse(SIMPLE, usize::MAX)));
    // Lands in the middle of the table.
    assert!(is_bad_xref(Xref::parse(SIMPLE, 5)));
    let prev_beyond_eof = b"xref\n0 0\ntrailer\n<< /Prev 99999999 >>\n";
    assert!(is_bad_xref(Xref::parse(prev_beyond_eof, 0)));
    let negative_prev = b"xref\n0 0\ntrailer\n<< /Prev -5 >>\n";
    assert!(is_bad_xref(Xref::parse(negative_prev, 0)));
    let negative_offset = b"xref\n0 1\n-000000001 00000 n \ntrailer\n<< >>\n";
    assert!(is_bad_xref(Xref::parse(negative_offset, 0)));
}

#[test]
fn absurd_size_and_counts_neither_allocate_nor_hang() {
    let huge_size = b"xref\n0 1\n0000000000 65535 f \ntrailer\n<< /Size 99999999999999 >>\n";
    assert_eq!(
        Xref::parse(huge_size, 0).expect("xref").entries().len(),
        1
    );
    let negative_size = b"xref\n0 1\n0000000000 65535 f \ntrailer\n<< /Size -3 >>\n";
    assert!(Xref::parse(negative_size, 0).is_ok());
    let huge_count = b"xref\n0 4000000000\n0000000000 65535 f \ntrailer\n<< >>\n";
    assert!(is_bad_xref(Xref::parse(huge_count, 0)));
    let past_u32 =
        b"xref\n4294967295 2\n0000000000 65535 f \n0000000000 65535 f \ntrailer\n<< >>\n";
    assert!(is_bad_xref(Xref::parse(past_u32, 0)));
}

#[test]
fn malformed_sections() {
    let bad_type = b"xref\n0 1\n0000000000 65535 x \ntrailer\n<< >>\n";
    assert!(is_bad_xref(Xref::parse(bad_type, 0)));
    // A free entry's generation is clamped (see
    // `free_entry_generation_out_of_range_is_clamped`); an in-use one is not.
    let bad_gen = b"xref\n0 1\n0000000009 70000 n \ntrailer\n<< >>\n";
    assert!(is_bad_xref(Xref::parse(bad_gen, 0)));
    let trailer_not_dict = b"xref\n0 1\n0000000000 65535 f \ntrailer\n[1 2]\n";
    assert!(is_bad_xref(Xref::parse(trailer_not_dict, 0)));
    let no_trailer = b"xref\n0 1\n0000000000 65535 f \n";
    assert_eq!(Xref::parse(no_trailer, 0), Err(Error::UnexpectedEof));
    assert!(is_bad_xref(Xref::parse(b"<< /Size 1 >>", 0)));
}

// --- Cross-reference streams (7.5.8) ---

#[test]
fn stream_entries_of_every_type() {
    let rows =
        b"\x00\x00\x00\xff\x01\x00\x2a\x00\x02\x00\x07\x03\x05\x00\x00\x00\x01\x01\x00\x02";
    let file = xref_stream("/Size 5 /Root 1 0 R", rows);
    let xref = Xref::parse(&file, 0).expect("xref");
    assert_eq!(xref.get(0), Some(XrefEntry::Free { gen: 255 }));
    assert_eq!(xref.get(1), Some(XrefEntry::InUse { offset: 42, gen: 0 }));
    assert_eq!(
        xref.get(2),
        Some(XrefEntry::InStream {
            stream_num: 7,
            index: 3
        })
    );
    // Type 5 is unknown: the null object, not an entry.
    assert_eq!(xref.get(3), None);
    assert_eq!(
        xref.get(4),
        Some(XrefEntry::InUse {
            offset: 256,
            gen: 2
        })
    );
    assert_eq!(xref.object_count(), 3);
    assert!(xref.trailer().contains_key(&Name::new("Root")));
    assert_eq!(
        xref.trailer()
            .get(&Name::new("Type"))
            .and_then(Object::as_name),
        Some(&Name::new("XRef"))
    );
}

#[test]
fn stream_index_and_defaulted_type_field() {
    let mut out =
        b"9 0 obj\n<< /Type /XRef /Size 30 /W [0 2 1] /Index [5 2 20 1] /Length 9 >>\nstream\n"
            .to_vec();
    out.extend_from_slice(b"\x00\x10\x00\x00\x20\x01\x01\x00\x00");
    out.extend_from_slice(b"\nendstream\nendobj\n");
    let xref = Xref::parse(&out, 0).expect("xref");
    assert_eq!(xref.get(5), Some(XrefEntry::InUse { offset: 16, gen: 0 }));
    assert_eq!(xref.get(6), Some(XrefEntry::InUse { offset: 32, gen: 1 }));
    assert_eq!(
        xref.get(20),
        Some(XrefEntry::InUse {
            offset: 256,
            gen: 0
        })
    );
    assert_eq!(xref.entries().len(), 3);
}

#[test]
fn stream_prev_chain_mixes_with_tables() {
    // Old classic table at 0, newer xref stream with /Prev 0.
    let old = b"xref\n0 2\n0000000000 65535 f \n0000000100 00000 n \ntrailer\n<< /Size 2 >>\n";
    let rows = b"\x01\x00\xc8\x00\x01\x01\x2c\x00";
    let mut file = old.to_vec();
    let start = file.len();
    file.extend_from_slice(&xref_stream("/Size 3 /Index [1 2] /Prev 0", rows));
    let xref = Xref::parse(&file, start).expect("xref");
    assert_eq!(xref.get(0), Some(XrefEntry::Free { gen: 65535 }));
    assert_eq!(
        xref.get(1),
        Some(XrefEntry::InUse {
            offset: 200,
            gen: 0
        })
    );
    assert_eq!(
        xref.get(2),
        Some(XrefEntry::InUse {
            offset: 300,
            gen: 0
        })
    );
    // Loop through /Prev pointing at itself.
    let looping = xref_stream("/Size 1 /Prev 0", b"\x00\x00\x00\x00");
    assert_eq!(Xref::parse(&looping, 0), Err(Error::XrefLoop { offset: 0 }));
}

#[test]
fn hybrid_xrefstm_fills_gaps_and_free_entries() {
    // The stream lists objects 2 (compressed) and 3; the table lists 1
    // and marks 2 free to hide it from old readers.
    let rows = b"\x02\x00\x07\x00\x01\x01\x00\x00";
    let stream = xref_stream("/Size 4 /Index [2 2]", rows);
    let mut file = stream.clone();
    let table_at = file.len();
    file.extend_from_slice(
        b"xref\n0 3\n0000000000 65535 f \n0000000050 00000 n \n0000000000 00001 f \ntrailer\n<< /Size 4 /XRefStm 0 /Root 1 0 R >>\n",
    );
    let xref = Xref::parse(&file, table_at).expect("xref");
    assert_eq!(xref.get(1), Some(XrefEntry::InUse { offset: 50, gen: 0 }));
    assert_eq!(
        xref.get(2),
        Some(XrefEntry::InStream {
            stream_num: 7,
            index: 0
        })
    );
    assert_eq!(
        xref.get(3),
        Some(XrefEntry::InUse {
            offset: 256,
            gen: 0
        })
    );
    // The trailer is the table's, not the stream's.
    assert!(xref.trailer().contains_key(&Name::new("XRefStm")));
    assert!(!xref.trailer().contains_key(&Name::new("W")));
    // /XRefStm pointing back to the table itself: a loop.
    let self_ref = b"xref\n0 0\ntrailer\n<< /XRefStm 0 >>\n";
    assert_eq!(Xref::parse(self_ref, 0), Err(Error::XrefLoop { offset: 0 }));
}

#[test]
fn hostile_stream_dictionaries() {
    let rows = b"\x01\x00\x10\x00";
    // Absurd field widths.
    for w in [
        "[1 99999999 1]",
        "[1 2 -1]",
        "[0 0 0]",
        "[1 2]",
        "[9 0 0]",
        "[1 /a 1]",
    ] {
        let mut out = format!("9 0 obj\n<< /Type /XRef /Size 2 /W {w} /Length 4 >>\nstream\n")
            .into_bytes();
        out.extend_from_slice(rows);
        out.extend_from_slice(b"\nendstream\nendobj\n");
        assert!(is_bad_xref(Xref::parse(&out, 0)), "/W {w}");
    }
    let no_w = b"9 0 obj\n<< /Type /XRef /Size 2 /Length 0 >>\nstream\n\nendstream\nendobj\n";
    assert!(is_bad_xref(Xref::parse(no_w, 0)));
    // Enormous /Size and /Index counts: only the rows present are read.
    let huge = xref_stream("/Size 99999999999999", rows);
    assert_eq!(Xref::parse(&huge, 0).expect("xref").entries().len(), 1);
    let huge_index = xref_stream("/Size 2 /Index [0 4000000000000]", rows);
    assert_eq!(
        Xref::parse(&huge_index, 0).expect("xref").entries().len(),
        1
    );
    let past_u32 = xref_stream(
        "/Size 2 /Index [4294967295 2]",
        b"\x01\x00\x10\x00\x01\x00\x20\x00",
    );
    assert!(is_bad_xref(Xref::parse(&past_u32, 0)));
    let odd_index = xref_stream("/Size 2 /Index [0 1 2]", rows);
    assert!(is_bad_xref(Xref::parse(&odd_index, 0)));
    let negative_index = xref_stream("/Size 2 /Index [-1 1]", rows);
    assert!(is_bad_xref(Xref::parse(&negative_index, 0)));
    // Row cut short: the partial row is dropped, not misread.
    let short = xref_stream("/Size 2", b"\x01\x00\x10\x00\x01\x00");
    assert_eq!(Xref::parse(&short, 0).expect("xref").entries().len(), 1);
    // Not a stream, or not an XRef stream.
    let not_stream = b"9 0 obj\n<< /Type /XRef >>\nendobj\n";
    assert!(is_bad_xref(Xref::parse(not_stream, 0)));
    let wrong_type = b"9 0 obj\n<< /Type /ObjStm /W [1 1 1] /Length 3 >>\nstream\n\x01\x02\x03\nendstream\nendobj\n";
    assert!(is_bad_xref(Xref::parse(wrong_type, 0)));
    // Widths of 8 bytes are the maximum and work.
    let wide = b"9 0 obj\n<< /Type /XRef /Size 2 /Index [1 1] /W [1 8 8] /Length 17 >>\nstream\n\x01\x00\x00\x00\x00\x00\x00\x00\x2a\x00\x00\x00\x00\x00\x00\x00\x01\nendstream\nendobj\n";
    assert_eq!(
        Xref::parse(wide, 0).expect("xref").get(1),
        Some(XrefEntry::InUse { offset: 42, gen: 1 })
    );
    // Object 0 listed in use, in a stream or a table: free (7.5.4).
    let zero = b"9 0 obj\n<< /Type /XRef /Size 1 /W [1 1 1] /Length 3 >>\nstream\n\x01\x2a\x00\nendstream\nendobj\n";
    assert_eq!(
        Xref::parse(zero, 0).expect("xref").get(0),
        Some(XrefEntry::Free { gen: u16::MAX })
    );
    let zero_table =
        b"xref\n0 2\n0000000015 00000 n \n0000000030 00000 n \ntrailer\n<< /Size 2 >>\n";
    let xref = Xref::parse(zero_table, 0).expect("xref");
    assert_eq!(xref.get(0), Some(XrefEntry::Free { gen: u16::MAX }));
    assert_eq!(xref.get(1), Some(XrefEntry::InUse { offset: 30, gen: 0 }));
    // Generation beyond u16.
    let big_gen = b"9 0 obj\n<< /Type /XRef /Size 1 /W [1 1 3] /Length 5 >>\nstream\n\x01\x10\x01\x00\x00\nendstream\nendobj\n";
    assert!(is_bad_xref(Xref::parse(big_gen, 0)));
}

#[test]
fn stream_that_inflates_past_the_limit() {
    let zeros = vec![0u8; 1 << 20];
    let mut enc = flate2::write::ZlibEncoder::new(Vec::new(), flate2::Compression::best());
    enc.write_all(&zeros).unwrap();
    let bomb = enc.finish().unwrap();
    let mut out = format!(
        "9 0 obj\n<< /Type /XRef /Size 1 /W [1 2 1] /Filter /FlateDecode /Length {} >>\nstream\n",
        bomb.len()
    )
    .into_bytes();
    out.extend_from_slice(&bomb);
    out.extend_from_slice(b"\nendstream\nendobj\n");
    let limits = DecodeLimits { max_output: 4096 };
    assert!(matches!(
        Xref::parse_with_limits(&out, 0, limits),
        Err(Error::LimitExceeded { limit: 4096, .. })
    ));
    // Under the default limit the same file is fine (1 MiB of rows).
    assert!(Xref::parse(&out, 0).is_ok());
}

#[test]
fn kind_is_that_of_the_newest_section() {
    let kind = |file: &[u8], at: usize| Xref::parse(file, at).expect("xref").kind();
    assert_eq!(kind(SIMPLE, 0), SectionKind::Table);
    let stream = xref_stream("/Size 1", b"\x01\x00\x10\x00");
    assert_eq!(kind(&stream, 0), SectionKind::Stream);
    // Table whose trailer names the stream at offset 0.
    let mut hybrid = stream.clone();
    let table_at = hybrid.len();
    hybrid.extend_from_slice(
        b"xref\n0 1\n0000000000 65535 f \ntrailer\n<< /Size 2 /XRefStm 0 >>\n",
    );
    assert_eq!(kind(&hybrid, table_at), SectionKind::Hybrid);
    // Stream appended to a file written with a table: the newest decides.
    let mut update = b"xref\n0 1\n0000000000 65535 f \ntrailer\n<< /Size 1 >>\n".to_vec();
    let stream_at = update.len();
    update.extend_from_slice(&xref_stream("/Size 2 /Prev 0", b"\x01\x00\x10\x00"));
    assert_eq!(kind(&update, stream_at), SectionKind::Stream);
    // And the reverse: table appended to a file written with a stream.
    let mut update = stream.clone();
    let table_at = update.len();
    update
        .extend_from_slice(b"xref\n0 1\n0000000000 65535 f \ntrailer\n<< /Size 2 /Prev 0 >>\n");
    assert_eq!(kind(&update, table_at), SectionKind::Table);
}
