use fyp_core::crypto::{aes256_entries, legacy_owner_user, Cipher, Decryptor, Params, Revision};
use fyp_core::document::Document;
use fyp_core::object::ObjRef;
use fyp_core::decode::Direct;
use fyp_core::encryption::{named_crypt_filter, parse};
use fyp_core::object::{Dict, Name, Object};
use fyp_core::parser::Parser;
use fyp_core::Error;

fn dict(src: &str) -> Dict {
    match Parser::new(src.as_bytes()).parse_object().expect("parse") {
        Object::Dict(d) => d,
        other => panic!("{other:?}"),
    }
}

/// The cipher the list of named filters gives `name`.
fn filter_of(filters: &[(Name, Cipher)], name: &str) -> Option<Cipher> {
    filters.iter().rev().find(|(n, _)| *n == Name::new(name)).map(|(_, c)| *c)
}

#[test]
fn named_crypt_filter_is_found_and_stripped() {
    let d = dict("<< /Filter /Crypt /DecodeParms << /Name /StdCF >> /Length 3 >>");
    let (name, stripped) = named_crypt_filter(&d).unwrap();
    assert_eq!(name, Name::new("StdCF"));
    assert_eq!(stripped, dict("<< /Length 3 >>"));
    let d = dict("<< /Filter /Crypt >>");
    assert_eq!(named_crypt_filter(&d).unwrap().0, Name::new("Identity"));
    let d = dict("<< /Filter [/Crypt /FlateDecode] /DecodeParms [<< /Name /X >> << /Predictor 12 >>] >>");
    let (name, stripped) = named_crypt_filter(&d).unwrap();
    assert_eq!(name, Name::new("X"));
    assert_eq!(stripped, dict("<< /Filter [/FlateDecode] /DecodeParms << /Predictor 12 >> >>"));
    let d = dict("<< /Filter [/Crypt /FlateDecode] /DecodeParms [<< /Name /X >> null] >>");
    assert_eq!(named_crypt_filter(&d).unwrap().1, dict("<< /Filter [/FlateDecode] >>"));
    let d = dict("<< /Filter [/Crypt] /DecodeParms << /Name /Y >> >>");
    let (name, stripped) = named_crypt_filter(&d).unwrap();
    assert_eq!(name, Name::new("Y"));
    assert_eq!(stripped, dict("<< >>"));
    assert!(named_crypt_filter(&dict("<< /Filter /FlateDecode >>")).is_none());
    assert!(named_crypt_filter(&dict("<< /Filter 4 0 R >>")).is_none());
    assert!(named_crypt_filter(&dict("<< >>")).is_none());
}

#[test]
fn parse_rejects_malformed_dictionaries() {
    let o = "(0123456789abcdef0123456789abcdef)";
    let base = format!("<< /Filter /Standard /V 2 /R 3 /Length 128 /O {o} /U {o} /P -1 >>");
    let (params, filters) = parse(&dict(&base), &Direct, b"id".to_vec()).unwrap();
    assert_eq!(params.revision, Revision::R3);
    assert_eq!(params.key_bits, 128);
    assert_eq!(params.permissions, 0xffff_ffff);
    assert_eq!(params.streams, Cipher::Rc4);
    assert!(filters.is_empty());
    let cases = [
        ("no /R", format!("<< /V 2 /O {o} /U {o} /P -1 >>")),
        ("unknown revision", base.replace("/R 3", "/R 9")),
        ("no /O", base.replace(&format!("/O {o}"), "")),
        ("no /P", base.replace("/P -1", "")),
        ("/P huge", base.replace("/P -1", "/P 99999999999")),
        ("/Length 7", base.replace("/Length 128", "/Length 7")),
        ("/Length 256", base.replace("/Length 128", "/Length 256")),
        ("/Length 0", base.replace("/Length 128", "/Length 0")),
        ("/Length name", base.replace("/Length 128", "/Length /X")),
        ("/O integer", base.replace(&format!("/O {o}"), "/O 12")),
        ("/EncryptMetadata 1", base.replace("/P -1", "/P -1 /EncryptMetadata 1")),
        ("unknown StmF", base.replace("/R 3", "/R 4 /StmF /Nope /CF << >>")),
        ("unknown CFM", base.replace("/R 3", "/R 4 /StmF /A /CF << /A << /CFM /Blowfish >> >>")),
        ("/CF not a dict", base.replace("/R 3", "/R 4 /CF 5")),
        ("R6 with /Length 128", base.replace("/R 3", "/R 6")),
    ];
    for (what, src) in cases {
        let got = parse(&dict(&src), &Direct, Vec::new());
        assert!(matches!(got, Err(Error::BadEncryption { .. })), "{what}: {got:?}");
    }
    let pubsec = base.replace("/Standard", "/Adobe.PubSec");
    assert!(matches!(parse(&dict(&pubsec), &Direct, Vec::new()), Err(Error::Unsupported { .. })));
    let unsigned = base.replace("/P -1", "/P 4294967292");
    assert_eq!(parse(&dict(&unsigned), &Direct, Vec::new()).unwrap().0.permissions, 0xffff_fffc);
    let r2 = base.replace("/R 3", "/R 2");
    assert_eq!(parse(&dict(&r2), &Direct, Vec::new()).unwrap().0.key_bits, 40);
}

#[test]
fn parse_resolves_crypt_filters() {
    let o = "(0123456789abcdef0123456789abcdef)";
    let src = format!(
        "<< /Filter /Standard /V 4 /R 4 /Length 128 /O {o} /U {o} /P -3904 \
         /CF << /StdCF << /CFM /AESV2 /Length 16 /AuthEvent /DocOpen >> /Plain << /CFM /None >> >> \
         /StmF /StdCF /StrF /Identity /EncryptMetadata false >>"
    );
    let (params, filters) = parse(&dict(&src), &Direct, Vec::new()).unwrap();
    assert_eq!(params.streams, Cipher::Aes128);
    assert_eq!(params.strings, Cipher::Identity);
    assert_eq!(params.key_bits, 128);
    assert!(!params.encrypt_metadata);
    assert_eq!(params.permissions, 0xffff_f0c0);
    assert_eq!(filter_of(&filters, "StdCF"), Some(Cipher::Aes128));
    assert_eq!(filter_of(&filters, "Plain"), Some(Cipher::Identity));
    let src = format!(
        "<< /Filter /Standard /V 4 /R 4 /Length 40 /O {o} /U {o} /P -1 \
         /CF << /StdCF << /CFM /V2 /Length 16 >> >> /StmF /StdCF /StrF /StdCF >>"
    );
    let (params, _) = parse(&dict(&src), &Direct, Vec::new()).unwrap();
    assert_eq!(params.streams, Cipher::Rc4);
    assert_eq!(params.key_bits, 128);
    let o48 = "(0123456789abcdef0123456789abcdef0123456789abcdef)";
    let src = format!(
        "<< /Filter /Standard /V 5 /R 6 /Length 256 /O {o48} /U {o48} /OE {o} /UE {o} /P -1 \
         /CF << /StdCF << /CFM /AESV3 /Length 32 >> >> /StmF /StdCF /StrF /StdCF >>"
    );
    let (params, _) = parse(&dict(&src), &Direct, Vec::new()).unwrap();
    assert_eq!(params.revision, Revision::R6);
    assert_eq!(params.streams, Cipher::Aes256);
    assert_eq!(params.key_bits, 256);
    assert_eq!(params.user_key.len(), 32);
}

#[test]
fn a_named_filter_with_parameters_for_several_stages_keeps_the_others() {
    // A lone dictionary next to several filters does not belong to the
    // crypt stage: the name is Identity and the dictionary stays.
    let d = dict("<< /Filter [/Crypt /FlateDecode] /DecodeParms << /Predictor 12 >> >>");
    let (name, stripped) = named_crypt_filter(&d).unwrap();
    assert_eq!(name, Name::new("Identity"));
    assert_eq!(stripped, dict("<< /Filter [/FlateDecode] /DecodeParms << /Predictor 12 >> >>"));
}

const CATALOG: &str = "<< /Type /Catalog /Pages 2 0 R >>";
const PAGES: &str = "<< /Type /Pages /Kids [] /Count 0 >>";
const ID: &str = "<0102030405060708090a0b0c0d0e0f10>";

/// One-section PDF whose objects are given as bodies for numbers 1..=n,
/// with `trailer_extra` added to the trailer.
fn build(objects: &[&str], trailer_extra: &str) -> Vec<u8> {
    let mut out = b"%PDF-1.7\n".to_vec();
    let mut offsets = Vec::new();
    for (i, body) in objects.iter().enumerate() {
        offsets.push(out.len());
        out.extend_from_slice(format!("{} 0 obj\n{body}\nendobj\n", i + 1).as_bytes());
    }
    let startxref = out.len();
    let size = offsets.len() + 1;
    out.extend_from_slice(format!("xref\n0 {size}\n0000000000 65535 f \n").as_bytes());
    for offset in &offsets {
        out.extend_from_slice(format!("{offset:010} 00000 n \n").as_bytes());
    }
    out.extend_from_slice(
        format!("trailer\n<< /Size {size} /Root 1 0 R {trailer_extra} >>\nstartxref\n{startxref}\n%%EOF\n").as_bytes(),
    );
    out
}

fn hex(bytes: &[u8]) -> String {
    format!("<{}>", bytes.iter().map(|b| format!("{b:02x}")).collect::<String>())
}

fn base_params(revision: Revision, cipher: Cipher) -> Params {
    Params {
        revision,
        key_bits: 128,
        owner: Vec::new(),
        user: Vec::new(),
        owner_key: Vec::new(),
        user_key: Vec::new(),
        permissions: 0xffff_fffc,
        encrypt_metadata: true,
        streams: cipher,
        strings: cipher,
        file_id: vec![1, 2, 3, 4, 5, 6, 7, 8, 9, 10, 11, 12, 13, 14, 15, 16],
    }
}

/// A revision 3 `/Encrypt` dictionary whose `/O` and `/U` are computed
/// for the given passwords, with `extra` entries appended.
fn r3_dict(user_password: &[u8], owner_password: &[u8], extra: &str) -> String {
    let base = base_params(Revision::R3, Cipher::Rc4);
    let (o, u) = legacy_owner_user(&base, owner_password, user_password).unwrap();
    format!("<< /Filter /Standard /V 2 /R 3 /Length 128 /P -4 /O {} /U {} {extra} >>", hex(&o), hex(&u))
}

#[test]
fn non_empty_user_password_is_required_and_accepted() {
    let base = base_params(Revision::R3, Cipher::Rc4);
    let (o, u) = legacy_owner_user(&base, b"boss", b"secret").unwrap();
    let params = Params { owner: o, user: u, ..base };
    let d = Decryptor::open(&params, b"secret").unwrap();
    let title = d.encrypt_with(Cipher::Rc4, 3, 0, &[0; 16], b"Top secret");
    let info = format!("<< /Title {} >>", hex(&title));
    let encrypt = format!(
        "<< /Filter /Standard /V 2 /R 3 /Length 128 /P -4 /O {} /U {} >>",
        hex(&params.owner),
        hex(&params.user)
    );
    let file = build(&[CATALOG, PAGES, &info, &encrypt], &format!("/Info 3 0 R /Encrypt 4 0 R /ID [{ID} {ID}]"));
    let err = Document::open(&file).map(|_| ()).unwrap_err();
    assert_eq!(err, Error::WrongPassword);
    assert!(err.message().contains("password"), "{err:?}");
    let doc = Document::open_with_password(&file, b"secret").expect("user password");
    let info = doc.get(ObjRef { num: 3, gen: 0 }).unwrap().unwrap();
    assert_eq!(info.as_dict().unwrap().get(&Name::new("Title")), Some(&Object::String(b"Top secret".to_vec())));
    assert!(!doc.encryption().unwrap().owner);
    let doc = Document::open_with_password(&file, b"boss").expect("owner password");
    assert!(doc.encryption().unwrap().owner);
    let info = doc.get(ObjRef { num: 3, gen: 0 }).unwrap().unwrap();
    assert_eq!(info.as_dict().unwrap().get(&Name::new("Title")), Some(&Object::String(b"Top secret".to_vec())));
}

#[test]
fn malformed_encrypt_dictionaries_are_clear_errors() {
    let ok = r3_dict(b"", b"owner", "");
    let trailer = format!("/Encrypt 3 0 R /ID [{ID} {ID}]");
    assert!(Document::open(&build(&[CATALOG, PAGES, &ok], &trailer)).is_ok());
    let bad_encryption: Vec<(&str, String)> = vec![
        ("not a dictionary", "[1 2 3]".into()),
        ("a stream", "<< /Length 0 >>\nstream\n\nendstream".into()),
        ("unknown revision 9", ok.replace("/R 3", "/R 9")),
        ("revision 0", ok.replace("/R 3", "/R 0")),
        ("revision as a name", ok.replace("/R 3", "/R /Three")),
        ("no /R", ok.replace("/R 3", "")),
        ("no /O", r3_dict(b"", b"owner", "").replacen("/O <", "/X <", 1)),
        ("no /U", r3_dict(b"", b"owner", "").replacen("/U <", "/X <", 1)),
        ("no /P", ok.replace("/P -4", "")),
        ("/Length 7", ok.replace("/Length 128", "/Length 7")),
        ("/Length 256", ok.replace("/Length 128", "/Length 256")),
        ("/Length 0", ok.replace("/Length 128", "/Length 0")),
        ("/Length -128", ok.replace("/Length 128", "/Length -128")),
        ("/Length huge", ok.replace("/Length 128", "/Length 99999999999999999")),
        ("/O an integer", ok.replacen("/O <", "/O 7 /Y <", 1)),
        ("/CF not a dictionary", ok.replace("/R 3", "/R 4 /CF 12 /StmF /StdCF")),
        ("/StmF undefined", ok.replace("/R 3", "/R 4 /CF << >> /StmF /StdCF")),
        ("unknown /CFM", ok.replace("/R 3", "/R 4 /CF << /StdCF << /CFM /Blowfish >> >> /StmF /StdCF")),
        ("/EncryptMetadata not a boolean", ok.replace("/P -4", "/P -4 /EncryptMetadata 1")),
        ("revision 6 without /OE /UE", ok.replace("/R 3", "/R 6").replace("/Length 128", "/Length 256")),
    ];
    for (what, dict) in bad_encryption {
        let file = build(&[CATALOG, PAGES, &dict], &trailer);
        let got = Document::open(&file).map(|_| ());
        assert!(matches!(got, Err(Error::BadEncryption { .. })), "{what}: {got:?}");
        if let Err(e) = got {
            assert!(!e.message().is_empty());
        }
    }
    for (what, dict, expected) in [
        (
            "/O empty",
            format!("<< /Filter /Standard /V 2 /R 3 /Length 128 /P -4 /O () /U {} >>", hex(&[2; 32])),
            "malformed",
        ),
        (
            "/U empty",
            format!("<< /Filter /Standard /V 2 /R 3 /Length 128 /P -4 /O {} /U () >>", hex(&[1; 32])),
            "malformed",
        ),
        (
            "/O 31 bytes of garbage",
            format!("<< /Filter /Standard /V 2 /R 3 /Length 128 /P -4 /O {} /U {} >>", hex(&[1; 31]), hex(&[2; 32])),
            "password",
        ),
    ] {
        let file = build(&[CATALOG, PAGES, &dict], &trailer);
        let got = Document::open(&file).map(|_| ());
        match expected {
            "malformed" => assert!(matches!(got, Err(Error::BadEncryption { .. })), "{what}: {got:?}"),
            _ => assert_eq!(got, Err(Error::WrongPassword), "{what}"),
        }
    }
    let pubsec = ok.replace("/Standard", "/Adobe.PubSec");
    let file = build(&[CATALOG, PAGES, &pubsec], &trailer);
    assert!(matches!(Document::open(&file).map(|_| ()), Err(Error::Unsupported { .. })));
    let garbage = format!(
        "<< /Filter /Standard /V 2 /R 3 /Length 128 /P -4 /O {} /U {} >>",
        hex(&[1; 32]),
        hex(&[2; 32])
    );
    let file = build(&[CATALOG, PAGES, &garbage], &trailer);
    assert_eq!(Document::open(&file).map(|_| ()), Err(Error::WrongPassword));
    let file = build(&[CATALOG, PAGES], "/Encrypt 9 0 R");
    let doc = Document::open(&file).expect("open");
    assert_eq!(doc.encryption(), None);
    let file = build(&[CATALOG, PAGES], &format!("/Encrypt {ok} /ID [{ID} {ID}]"));
    let doc = Document::open(&file).expect("open");
    assert_eq!(doc.encryption().map(|e| e.revision), Some(Revision::R3));
}

#[test]
fn inconsistent_lengths_are_reconciled_or_refused() {
    let base = base_params(Revision::R4, Cipher::Aes128);
    let (o, u) = legacy_owner_user(&base, b"owner", b"").unwrap();
    let params = Params { owner: o, user: u, ..base };
    let d = Decryptor::open(&params, b"").unwrap();
    let title = d.encrypt_with(Cipher::Aes128, 3, 0, &[5; 16], b"AES title");
    let info = format!("<< /Title {} >>", hex(&title));
    let dict = format!(
        "<< /Filter /Standard /V 4 /R 4 /Length 40 /P -4 /O {} /U {} \
         /CF << /StdCF << /CFM /AESV2 /Length 16 >> >> /StmF /StdCF /StrF /StdCF >>",
        hex(&params.owner),
        hex(&params.user)
    );
    let file = build(&[CATALOG, PAGES, &info, &dict], &format!("/Info 3 0 R /Encrypt 4 0 R /ID [{ID} {ID}]"));
    let doc = Document::open(&file).expect("open");
    let e = doc.encryption().unwrap();
    assert_eq!(e.key_bits, 128);
    assert_eq!(e.streams, Cipher::Aes128);
    let info = doc.get(ObjRef { num: 3, gen: 0 }).unwrap().unwrap();
    assert_eq!(info.as_dict().unwrap().get(&Name::new("Title")), Some(&Object::String(b"AES title".to_vec())));
    let short_u = r3_dict(b"", b"owner", "");
    let u_start = short_u.find("/U <").unwrap() + 4;
    let mut cut = short_u.clone();
    cut.replace_range(u_start + 32..u_start + 64, "");
    assert_ne!(cut, short_u);
    let short_file = build(&[CATALOG, PAGES, &cut], &format!("/Encrypt 3 0 R /ID [{ID} {ID}]"));
    let doc = Document::open(&short_file).expect("short /U opens");
    assert_eq!(doc.encryption().map(|e| e.revision), Some(Revision::R3));
    let text = String::from_utf8_lossy(&file)
        .replace("/Length 40 /P", "/Length 12 /P")
        .replace("/CFM /AESV2 /Length 16", "/CFM /V2");
    assert!(matches!(
        Document::open(text.as_bytes()).map(|_| ()),
        Err(Error::BadEncryption { message }) if message.contains("/Length 12")
    ));
}

#[test]
fn a_ciphered_string_is_read_in_the_clear_and_the_handler_dictionary_is_not() {
    let base = base_params(Revision::R3, Cipher::Rc4);
    let (o, u) = legacy_owner_user(&base, b"owner", b"").unwrap();
    let params = Params { owner: o, user: u, ..base };
    let d = Decryptor::open(&params, b"").unwrap();
    let secret = d.encrypt_with(Cipher::Rc4, 3, 0, &[0; 16], b"in the clear");
    let info = format!("<< /Title {} /Nested [ {} ] >>", hex(&secret), hex(&secret));
    let encrypt = format!(
        "<< /Filter /Standard /V 2 /R 3 /Length 128 /P -4 /O {} /U {} >>",
        hex(&params.owner),
        hex(&params.user)
    );
    let file = build(&[CATALOG, PAGES, &info, &encrypt], &format!("/Info 3 0 R /Encrypt 4 0 R /ID [{ID} {ID}]"));
    let doc = Document::open(&file).expect("open");
    let info = doc.get(ObjRef { num: 3, gen: 0 }).unwrap().unwrap();
    let d = info.as_dict().unwrap();
    assert_eq!(d.get(&Name::new("Title")), Some(&Object::String(b"in the clear".to_vec())));
    assert_eq!(d.get(&Name::new("Nested")), Some(&Object::Array(vec![Object::String(b"in the clear".to_vec())])));
    let stored = doc.get(ObjRef { num: 4, gen: 0 }).unwrap().unwrap();
    assert_eq!(stored.as_dict().unwrap().get(&Name::new("O")), Some(&Object::String(params.owner.clone())));
}

/// A one-page file encrypted with `revision` and `cipher`, the empty user
/// password and the owner password `owner`, whose information dictionary
/// has a ciphered `/Title`.
fn encrypted_file(revision: Revision, cipher: Cipher, title: &[u8]) -> Vec<u8> {
    let (params, encrypt) = if revision == Revision::R6 {
        let e = aes256_entries(revision, &[0x5a; 32], b"", b"owner", &[[1; 8], [2; 8], [3; 8], [4; 8]], 0xffff_fffc, true);
        let params = Params {
            revision,
            key_bits: 256,
            owner: e.owner.clone(),
            user: e.user.clone(),
            owner_key: e.owner_key.clone(),
            user_key: e.user_key.clone(),
            permissions: 0xffff_fffc,
            encrypt_metadata: true,
            streams: cipher,
            strings: cipher,
            file_id: (1..=16).collect(),
        };
        let encrypt = format!(
            "<< /Filter /Standard /V 5 /R 6 /Length 256 /P -4 /O {} /U {} /OE {} /UE {} /Perms {} \
             /CF << /StdCF << /CFM /AESV3 /Length 32 >> >> /StmF /StdCF /StrF /StdCF >>",
            hex(&e.owner),
            hex(&e.user),
            hex(&e.owner_key),
            hex(&e.user_key),
            hex(&e.perms)
        );
        (params, encrypt)
    } else {
        let base = base_params(revision, cipher);
        let (o, u) = legacy_owner_user(&base, b"owner", b"").unwrap();
        let encrypt = format!("<< /Filter /Standard /V 2 /R 3 /Length 128 /P -4 /O {} /U {} >>", hex(&o), hex(&u));
        (Params { owner: o, user: u, ..base }, encrypt)
    };
    let d = Decryptor::open(&params, b"").expect("open the handler");
    let secret = d.encrypt_with(cipher, 4, 0, &[7; 16], title);
    let info = format!("<< /Title {} >>", hex(&secret));
    let page = "<< /Type /Page /Parent 2 0 R /MediaBox [0 0 100 100] >>";
    let pages = "<< /Type /Pages /Kids [3 0 R] /Count 1 >>";
    build(&[CATALOG, pages, page, &info, &encrypt], &format!("/Info 4 0 R /Encrypt 5 0 R /ID [{ID} {ID}]"))
}

fn check_encrypted(name: &str, bytes: &[u8], revision: Revision, cipher: Cipher, key_bits: u32, title: &[u8]) {
    let doc = Document::open(bytes).unwrap_or_else(|e| panic!("{name}: {e:?}"));
    assert!(doc.reconstructed().is_none(), "{name}");
    let e = doc.encryption().unwrap_or_else(|| panic!("{name}: not seen as encrypted"));
    assert_eq!(e.revision, revision, "{name}");
    assert_eq!(e.streams, cipher, "{name}");
    assert_eq!(e.strings, cipher, "{name}");
    assert_eq!(e.key_bits, key_bits, "{name}");
    assert!(e.encrypt_metadata, "{name}");
    assert!(!e.owner, "{name}");
    assert_eq!(doc.page_count(), Ok(1), "{name}");
    let info = doc.get(ObjRef { num: 4, gen: 0 }).unwrap().unwrap();
    assert_eq!(info.as_dict().unwrap().get(&Name::new("Title")), Some(&Object::String(title.to_vec())), "{name}");
    let owner = Document::open_with_password(bytes, b"owner").unwrap_or_else(|e| panic!("{name}: {e:?}"));
    assert!(owner.encryption().unwrap().owner, "{name}");
    let again = owner.get(ObjRef { num: 4, gen: 0 }).unwrap().unwrap();
    assert_eq!(again.as_dict().unwrap().get(&Name::new("Title")), Some(&Object::String(title.to_vec())), "{name}");
    assert_eq!(Document::open_with_password(bytes, b"wrong").map(|_| ()), Err(Error::WrongPassword), "{name}");
    assert_eq!(Document::open_with_password(bytes, b"ownerx").map(|_| ()), Err(Error::WrongPassword), "{name}");
}

#[test]
fn rc4_fixture_is_deciphered() {
    let bytes = encrypted_file(Revision::R3, Cipher::Rc4, b"Encrypted RC4 128-bit");
    check_encrypted("rc4", &bytes, Revision::R3, Cipher::Rc4, 128, b"Encrypted RC4 128-bit");
}

#[test]
fn aes256_fixture_is_deciphered() {
    let bytes = encrypted_file(Revision::R6, Cipher::Aes256, b"Encrypted AES-256 (revision 6)");
    check_encrypted("aes256", &bytes, Revision::R6, Cipher::Aes256, 256, b"Encrypted AES-256 (revision 6)");
}

#[test]
fn rewritten_files_are_in_the_clear() {
    let files = [
        encrypted_file(Revision::R3, Cipher::Rc4, b"clear"),
        encrypted_file(Revision::R6, Cipher::Aes256, b"clear"),
    ];
    for bytes in &files {
        let doc = Document::open(bytes).expect("open");
        for style in [fyp_core::writer::XrefStyle::Table, fyp_core::writer::XrefStyle::Stream] {
            let out = fyp_core::writer::Writer::new(doc.version()).xref_style(style).write(&doc).expect("write");
            let again = Document::open(&out).expect("reopen");
            assert!(again.encryption().is_none());
            assert!(again.reconstructed().is_none());
            assert!(again.trailer().get(&Name::new("Encrypt")).is_none());
            let info = again.resolve(again.trailer().get(&Name::new("Info")).unwrap()).unwrap();
            assert_eq!(info.as_dict().unwrap().get(&Name::new("Title")), Some(&Object::String(b"clear".to_vec())));
        }
    }
}
