use fyp_core::crypto::{Cipher, Revision};
use fyp_core::desktop::{
    changed, merge_accepted, merge_into, rotated_into, rotation_accepted, saved_bytes, window_title, AppError,
    SourceOutcome,
};
use fyp_core::document::Document;
use fyp_core::encryption::{bits_from, describe_encryption, handler_error, Encryption};
use fyp_core::Error;

#[test]
fn the_title_marks_a_debug_build_only() {
    assert_eq!(window_title("4YouPDF", true), "4YouPDF — DEV");
    assert_eq!(window_title("4YouPDF", false), "4YouPDF");
}

#[test]
fn errors_are_worded_for_the_window() {
    assert!(matches!(AppError::from_error(Error::WrongPassword), AppError::WrongPassword));
    assert_eq!(
        AppError::from_error(Error::BadHeader),
        AppError::Other { message: "missing or malformed %PDF header".to_string() }
    );
    assert_eq!(
        changed("la rotation"),
        AppError::Other {
            message: "le document a changé ; la rotation n'a pas été appliquée".to_string()
        }
    );
    assert_eq!(AppError::other("x"), AppError::Other { message: "x".to_string() });
}

#[test]
fn encryption_is_described_in_one_line() {
    let e = Encryption {
        revision: Revision::R3,
        key_bits: 128,
        streams: Cipher::Rc4,
        strings: Cipher::Rc4,
        encrypt_metadata: true,
        owner: false,
    };
    assert_eq!(describe_encryption(&e), "révision 3, RC4, clé 128 bits");
    let e = Encryption {
        revision: Revision::R4,
        key_bits: 128,
        streams: Cipher::Aes128,
        strings: Cipher::Identity,
        encrypt_metadata: false,
        owner: true,
    };
    assert_eq!(
        describe_encryption(&e),
        "révision 4, flux AES-128, chaînes en clair, clé 128 bits, métadonnées en clair, ouvert avec le mot de passe propriétaire"
    );
}

#[test]
fn key_lengths_and_handler_errors() {
    assert_eq!(bits_from(40), Ok(40));
    assert_eq!(bits_from(128), Ok(128));
    assert_eq!(
        bits_from(7),
        Err(Error::BadEncryption {
            message: "/Length 7 is not a multiple of 8 between 40 and 128".to_string()
        })
    );
    assert_eq!(
        bits_from(-128),
        Err(Error::BadEncryption {
            message: "/Length -128 is not a multiple of 8 between 40 and 128".to_string()
        })
    );
    assert!(bits_from(136).is_err());
    assert!(bits_from(i64::MIN).is_err());
    assert_eq!(handler_error(fyp_core::crypto::Error::WrongPassword), Error::WrongPassword);
    assert_eq!(
        handler_error(fyp_core::crypto::Error::BadParameters("m".to_string())),
        Error::BadEncryption { message: "m".to_string() }
    );
}

#[test]
fn error_texts() {
    assert_eq!(Error::Syntax { offset: 12, message: "x".to_string() }.message(), "syntax error at byte 12: x");
    assert_eq!(
        Error::Unrecoverable { declared: Box::new(Error::MissingStartxref) }.message(),
        "cross-reference table unusable (no startxref found) and no object found to rebuild it"
    );
    assert_eq!(
        Error::LimitExceeded { limit: 20, what: "inflated FlateDecode data" }.message(),
        "inflated FlateDecode data would exceed the limit of 20 bytes"
    );
}

/// One-page PDF with a single-section table.
fn one_page_pdf() -> Vec<u8> {
    let objects = [
        "<< /Type /Catalog /Pages 2 0 R >>",
        "<< /Type /Pages /Kids [3 0 R] /Count 1 >>",
        "<< /Type /Page /Parent 2 0 R /MediaBox [0 0 200 100] >>",
    ];
    let mut out = b"%PDF-1.7\n".to_vec();
    let mut offsets = Vec::new();
    for (i, body) in objects.iter().enumerate() {
        offsets.push(out.len());
        out.extend_from_slice(format!("{} 0 obj\n{body}\nendobj\n", i + 1).as_bytes());
    }
    let startxref = out.len();
    out.extend_from_slice(b"xref\n0 4\n0000000000 65535 f \n");
    for offset in &offsets {
        out.extend_from_slice(format!("{offset:010} 00000 n \n").as_bytes());
    }
    out.extend_from_slice(
        format!("trailer\n<< /Size 4 /Root 1 0 R >>\nstartxref\n{startxref}\n%%EOF\n").as_bytes(),
    );
    out
}

#[test]
fn merging_appends_the_files_that_open_and_reports_the_others() {
    let base = one_page_pdf();
    let files = vec![
        Ok(one_page_pdf()),
        Err("no such file".to_string()),
        Ok(b"plain text".to_vec()),
        Ok(one_page_pdf()),
    ];
    let (out, added, outcomes) = merge_into(&base, b"", &files).expect("merge");
    assert_eq!(added, 2);
    assert_eq!(
        outcomes,
        vec![
            SourceOutcome::Merged { pages: 1, reconstructed: None, encryption: None },
            SourceOutcome::Refused { message: "no such file".to_string() },
            SourceOutcome::Refused { message: Error::BadHeader.message() },
            SourceOutcome::Merged { pages: 1, reconstructed: None, encryption: None },
        ]
    );
    let out = out.expect("rewritten");
    assert!(out.starts_with(b"%PDF-1.7\n"));
    assert!(out.ends_with(b"\n%%EOF\n"));
    let doc = Document::open(&out).expect("reopen");
    assert!(doc.reconstructed().is_none());
    assert_eq!(doc.page_count(), Ok(3));
}

#[test]
fn merging_nothing_that_opens_rewrites_nothing() {
    let base = one_page_pdf();
    let files = vec![Err("unreadable".to_string()), Ok(Vec::new())];
    let (out, added, outcomes) = merge_into(&base, b"", &files).expect("merge");
    assert!(out.is_none());
    assert_eq!(added, 0);
    assert_eq!(outcomes.len(), 2);
    assert!(outcomes.iter().all(|o| matches!(o, SourceOutcome::Refused { .. })));
    let none: Vec<Result<Vec<u8>, String>> = Vec::new();
    assert_eq!(merge_into(&base, b"", &none), Ok((None, 0, Vec::new())));
}

#[test]
fn merging_into_what_is_no_pdf_fails() {
    let files = vec![Ok(one_page_pdf())];
    assert_eq!(
        merge_into(b"hello", b"", &files),
        Err(AppError::Other { message: Error::BadHeader.message() })
    );
}

#[test]
fn page_counts_of_rewrites_are_checked() {
    assert_eq!(rotation_accepted(3, 3), Ok(()));
    assert_eq!(
        rotation_accepted(3, 2),
        Err(AppError::Other { message: "la rotation a produit 2 pages au lieu de 3 ; elle n'a pas été appliquée".to_string() })
    );
    assert_eq!(merge_accepted(2, 3, 5), Ok(()));
    assert_eq!(merge_accepted(usize::MAX, 3, usize::MAX), Ok(()));
    assert_eq!(
        merge_accepted(2, 3, 4),
        Err(AppError::Other { message: "la fusion a produit 4 pages au lieu de 5 ; elle n'a pas été appliquée".to_string() })
    );
}

#[test]
fn rotating_and_saving_rewrite_the_document() {
    let base = one_page_pdf();
    let out = rotated_into(&base, b"", &[0], 90).expect("rotate");
    let doc = Document::open(&out).expect("reopen");
    assert!(doc.reconstructed().is_none());
    let pages = fyp_core::ops::pages(&doc).expect("pages");
    assert_eq!(pages[0].dict.get(&fyp_core::object::Name::new("Rotate")), Some(&fyp_core::object::Object::Integer(90)));
    assert!(matches!(rotated_into(&base, b"", &[0], 45), Err(AppError::Other { .. })));
    assert_eq!(rotated_into(b"nothing", b"", &[0], 90), Err(AppError::Other { message: Error::BadHeader.message() }));
    let saved = saved_bytes(&base, b"", &[0]).expect("save");
    assert_eq!(Document::open(&saved).expect("reopen").page_count(), Ok(1));
    assert_eq!(
        saved_bytes(&base, b"", &[0, 0]),
        Err(AppError::Other { message: "page 0 selected more than once".to_string() })
    );
}
