use fyp_core::crypto::{
    aes256_entries, hash_2b, legacy_owner_user, legacy_owner_value, pad_password, rc4_apply,
    strip_pkcs5, Cipher, Decryptor, Error, Params, Revision,
};

const PAD: [u8; 32] = [
    0x28, 0xBF, 0x4E, 0x5E, 0x4E, 0x75, 0x8A, 0x41, 0x64, 0x00, 0x4E, 0x56, 0xFF, 0xFA, 0x01, 0x08,
    0x2E, 0x2E, 0x00, 0xB6, 0xD0, 0x68, 0x3E, 0x80, 0x2F, 0x0C, 0xA9, 0xFE, 0x64, 0x53, 0x69, 0x7A,
];

fn legacy(revision: Revision, key_bits: u32, streams: Cipher) -> Params {
    Params {
        revision,
        key_bits,
        owner: Vec::new(),
        user: Vec::new(),
        owner_key: Vec::new(),
        user_key: Vec::new(),
        permissions: 0xffff_fffc,
        encrypt_metadata: true,
        streams,
        strings: streams,
        file_id: b"\x01\x02\x03\x04\x05\x06\x07\x08\x09\x0a\x0b\x0c\x0d\x0e\x0f\x10".to_vec(),
    }
}

fn with_passwords(params: &Params, owner: &[u8], user: &[u8]) -> Params {
    let (o, u) = legacy_owner_user(params, owner, user).expect("legacy");
    Params {
        owner: o,
        user: u,
        ..params.clone()
    }
}

#[test]
fn rc4_known_answer() {
    let out = rc4_apply(b"Secret", b"Attack at dawn");
    assert_eq!(
        out,
        [0x45, 0xA0, 0x1F, 0x64, 0x5F, 0xC3, 0x5B, 0x38, 0x35, 0x52, 0x54, 0x4B, 0x9B, 0xF5]
    );
    // Unsupported key length: data left alone, no panic.
    assert_eq!(rc4_apply(b"abc", b"xyz"), b"xyz");
}

#[test]
fn pad_password_is_32_bytes() {
    assert_eq!(pad_password(b""), PAD);
    let p = pad_password(b"abc");
    assert_eq!(&p[..3], b"abc");
    assert_eq!(&p[3..], &PAD[..29]);
    let long = [b'x'; 40];
    assert_eq!(pad_password(&long), [b'x'; 32]);
}

#[test]
fn legacy_user_and_owner_passwords_open_the_file() {
    for (revision, bits) in [
        (Revision::R2, 40),
        (Revision::R3, 40),
        (Revision::R3, 128),
        (Revision::R4, 128),
    ] {
        let cipher = if revision == Revision::R4 {
            Cipher::Aes128
        } else {
            Cipher::Rc4
        };
        let base = legacy(revision, bits, cipher);
        let params = with_passwords(&base, b"owner", b"user");
        assert_eq!(params.owner.len(), 32);
        assert_eq!(params.user.len(), 32);
        let as_user = Decryptor::open(&params, b"user").expect("user password");
        assert!(!as_user.opened_as_owner());
        assert_eq!(as_user.key_bits(), bits);
        let as_owner = Decryptor::open(&params, b"owner").expect("owner password");
        assert!(as_owner.opened_as_owner());
        assert_eq!(as_user.file_key(), as_owner.file_key());
        assert!(matches!(Decryptor::open(&params, b"nope"), Err(Error::WrongPassword)));
        assert!(matches!(Decryptor::open(&params, b""), Err(Error::WrongPassword)));
        // Empty user password: the common case.
        let open = with_passwords(&base, b"owner", b"");
        let d = Decryptor::open(&open, b"").expect("empty password");
        let secret = b"hello, world - a string longer than one block";
        let iv = [7u8; 16];
        let boxed = d.encrypt_with(cipher, 12, 3, &iv, secret);
        assert_ne!(&boxed[..], &secret[..]);
        assert_eq!(d.decrypt_with(cipher, 12, 3, &boxed), secret);
        // Another object number gives another ciphertext.
        assert_ne!(d.encrypt_with(cipher, 13, 3, &iv, secret), boxed);
    }
}

#[test]
fn empty_owner_password_falls_back_to_user_password() {
    let params = with_passwords(&legacy(Revision::R3, 128, Cipher::Rc4), b"", b"user");
    assert!(Decryptor::open(&params, b"user").is_ok());
}

#[test]
fn encrypt_metadata_false_changes_the_key() {
    let base = legacy(Revision::R4, 128, Cipher::Aes128);
    let a = with_passwords(&base, b"o", b"");
    let b = with_passwords(
        &Params {
            encrypt_metadata: false,
            ..base
        },
        b"o",
        b"",
    );
    assert_ne!(a.user, b.user);
    assert!(Decryptor::open(&a, b"").is_ok());
    assert!(Decryptor::open(&b, b"").is_ok());
    assert!(!Decryptor::open(&b, b"").unwrap().encrypt_metadata());
}

#[test]
fn aes256_revisions_5_and_6() {
    let file_key = [0xabu8; 32];
    let salts = [[1u8; 8], [2u8; 8], [3u8; 8], [4u8; 8]];
    for revision in [Revision::R5, Revision::R6] {
        let e = aes256_entries(revision, &file_key, b"", b"owner", &salts, 0xffff_fffc, true);
        assert_eq!(e.user.len(), 48);
        assert_eq!(e.owner.len(), 48);
        assert_eq!(e.user_key.len(), 32);
        assert_eq!(e.owner_key.len(), 32);
        assert_eq!(e.perms.len(), 16);
        let params = Params {
            revision,
            key_bits: 256,
            owner: e.owner.clone(),
            user: e.user.clone(),
            owner_key: e.owner_key.clone(),
            user_key: e.user_key.clone(),
            permissions: 0xffff_fffc,
            encrypt_metadata: true,
            streams: Cipher::Aes256,
            strings: Cipher::Aes256,
            file_id: Vec::new(),
        };
        let d = Decryptor::open(&params, b"").expect("user");
        assert_eq!(d.file_key(), &file_key[..]);
        assert!(!d.opened_as_owner());
        let o = Decryptor::open(&params, b"owner").expect("owner");
        assert_eq!(o.file_key(), &file_key[..]);
        assert!(o.opened_as_owner());
        assert!(matches!(Decryptor::open(&params, b"x"), Err(Error::WrongPassword)));
        let iv = [9u8; 16];
        let data = b"0123456789abcdef"; // exactly one block: a full padding block follows
        let boxed = d.encrypt_with(Cipher::Aes256, 1, 0, &iv, data);
        assert_eq!(boxed.len(), 48);
        assert_eq!(d.decrypt_with(Cipher::Aes256, 1, 0, &boxed), data);
        assert_eq!(d.decrypt_with(Cipher::Aes256, 1, 0, b""), b"");
        assert_eq!(d.decrypt_with(Cipher::Aes256, 1, 0, &boxed[..20]), b"");
    }
}

#[test]
fn hash_2b_revision_6_is_deterministic() {
    let h = hash_2b(Revision::R6, b"user", &[0, 1, 2, 3, 4, 5, 6, 7], &[]);
    assert_eq!(h.len(), 32);
    assert_eq!(h, hash_2b(Revision::R6, b"user", &[0, 1, 2, 3, 4, 5, 6, 7], &[]));
    assert_ne!(h, hash_2b(Revision::R6, b"usex", &[0, 1, 2, 3, 4, 5, 6, 7], &[]));
    assert_ne!(h, hash_2b(Revision::R6, b"user", &[0, 1, 2, 3, 4, 5, 6, 8], &[]));
    assert_ne!(h, hash_2b(Revision::R6, b"user", &[0, 1, 2, 3, 4, 5, 6, 7], b"u"));
    assert_ne!(h, hash_2b(Revision::R5, b"user", &[0, 1, 2, 3, 4, 5, 6, 7], &[]));
}

#[test]
fn bad_parameters_are_refused() {
    let ok = with_passwords(&legacy(Revision::R3, 128, Cipher::Rc4), b"o", b"");
    assert!(Decryptor::open(&ok, b"").is_ok());
    let cases: Vec<(&str, Params)> = vec![
        ("length 7", Params { key_bits: 7, ..ok.clone() }),
        ("length 256 with R3", Params { key_bits: 256, ..ok.clone() }),
        ("length 0", Params { key_bits: 0, ..ok.clone() }),
        ("R2 with 128", Params { revision: Revision::R2, key_bits: 128, ..ok.clone() }),
        ("empty /O", Params { owner: Vec::new(), ..ok.clone() }),
        ("empty /U", Params { user: Vec::new(), ..ok.clone() }),
        ("AES-128 with R3", Params { streams: Cipher::Aes128, ..ok.clone() }),
        (
            "AES-256 with R4",
            Params { revision: Revision::R4, strings: Cipher::Aes256, ..ok.clone() },
        ),
        (
            "R6 without /UE",
            Params {
                revision: Revision::R6,
                key_bits: 256,
                owner: vec![0; 48],
                user: vec![0; 48],
                streams: Cipher::Aes256,
                strings: Cipher::Aes256,
                ..ok.clone()
            },
        ),
    ];
    for (what, params) in cases {
        assert!(
            matches!(Decryptor::open(&params, b""), Err(Error::BadParameters(_))),
            "{what}"
        );
    }
    // A wrong /U of the right size is a wrong password, not bad parameters.
    let wrong = Params { user: vec![0; 32], ..ok.clone() };
    assert!(matches!(Decryptor::open(&wrong, b""), Err(Error::WrongPassword)));
    // A /U cut to its 16 significant bytes still opens (padded with
    // zeros); a /U cut to 15 bytes does not.
    let short = Params { user: ok.user[..16].to_vec(), ..ok.clone() };
    assert!(Decryptor::open(&short, b"").is_ok());
    let shorter = Params { user: ok.user[..15].to_vec(), ..ok };
    assert!(matches!(Decryptor::open(&shorter, b""), Err(Error::WrongPassword)));
}

#[test]
fn pkcs5_padding_tolerance() {
    let mut v = vec![1, 2, 3, 4, 4, 4, 4];
    strip_pkcs5(&mut v);
    assert_eq!(v, [1, 2, 3]);
    let mut v = vec![1, 2, 3, 0];
    strip_pkcs5(&mut v);
    assert_eq!(v, [1, 2, 3, 0]);
    let mut v = vec![1, 2, 9];
    strip_pkcs5(&mut v);
    assert_eq!(v, [1, 2, 9]);
    let mut v: Vec<u8> = Vec::new();
    strip_pkcs5(&mut v);
    assert!(v.is_empty());
}

#[test]
fn check_messages_name_the_first_problem() {
    let ok = with_passwords(&legacy(Revision::R3, 128, Cipher::Rc4), b"o", b"");
    let message = |p: &Params| match Decryptor::open(p, b"") {
        Err(Error::BadParameters(m)) => m,
        _ => panic!("parameters accepted"),
    };
    assert_eq!(
        message(&Params { key_bits: 7, ..ok.clone() }),
        "key length 7 is not a multiple of 8 between 40 and 128"
    );
    assert_eq!(
        message(&Params { revision: Revision::R2, key_bits: 128, ..ok.clone() }),
        "revision 2 uses a 40-bit key"
    );
    assert_eq!(
        message(&Params { revision: Revision::R6, key_bits: 128, ..ok.clone() }),
        "revision 6 uses a 256-bit key, not 128"
    );
    assert_eq!(message(&Params { owner: Vec::new(), ..ok.clone() }), "/O is empty");
    assert_eq!(
        message(&Params { streams: Cipher::Aes128, ..ok.clone() }),
        "cipher Aes128 cannot be used with revision 3"
    );
    assert_eq!(
        message(&Params {
            revision: Revision::R5,
            key_bits: 256,
            owner_key: vec![1; 32],
            ..ok.clone()
        }),
        "/UE is missing or empty"
    );
}

#[test]
fn every_cipher_round_trips() {
    let params = with_passwords(&legacy(Revision::R4, 128, Cipher::Aes128), b"boss", b"");
    let d = Decryptor::open(&params, b"").expect("open");
    let iv = [3u8; 16];
    for cipher in [Cipher::Identity, Cipher::Rc4, Cipher::Aes128] {
        for data in [&b""[..], b"x", b"exactly sixteen!", b"a little more than one block"] {
            let boxed = d.encrypt_with(cipher, 7, 0, &iv, data);
            assert_eq!(d.decrypt_with(cipher, 7, 0, &boxed), data, "{cipher:?}");
        }
    }
    // Identity is the identity both ways.
    assert_eq!(d.encrypt_with(Cipher::Identity, 1, 0, &iv, b"clear"), b"clear");
    assert_eq!(d.decrypt_stream(1, 0, b"") , b"");
    // AES data is the IV followed by whole blocks.
    let boxed = d.encrypt_with(Cipher::Aes128, 1, 0, &iv, b"abc");
    assert_eq!(boxed.len(), 32);
    assert_eq!(&boxed[..16], &iv[..]);
}

#[test]
fn owner_value_differs_with_the_owner_password() {
    let base = legacy(Revision::R3, 128, Cipher::Rc4);
    let a = legacy_owner_value(&base, b"one", b"user");
    let b = legacy_owner_value(&base, b"two", b"user");
    assert_eq!(a.len(), 32);
    assert_ne!(a, b);
    // An empty owner password is the user password.
    assert_eq!(legacy_owner_value(&base, b"", b"user"), legacy_owner_value(&base, b"user", b"user"));
    let aes = Params { revision: Revision::R6, key_bits: 256, ..base };
    assert!(matches!(legacy_owner_user(&aes, b"o", b"u"), Err(Error::BadParameters(_))));
}

#[test]
fn revision_numbers() {
    for n in 2..=6 {
        let r = Revision::from_number(n).expect("known");
        assert_eq!(i64::from(r.number()), n);
        assert_eq!(r.uses_aes256(), n >= 5);
    }
    assert_eq!(Revision::from_number(1), None);
    assert_eq!(Revision::from_number(7), None);
    assert_eq!(Revision::from_number(-4), None);
}

#[test]
fn revisions_are_ordered_by_number() {
    let all = [Revision::R2, Revision::R3, Revision::R4, Revision::R5, Revision::R6];
    for a in all {
        assert_eq!(Revision::from_number(i64::from(a.number())), Some(a));
        for b in all {
            assert_eq!(a < b, a.number() < b.number());
            assert_eq!(a.partial_cmp(&b), Some(a.cmp(&b)));
        }
    }
}

#[test]
fn aes_output_is_the_iv_then_the_padded_data() {
    let params = with_passwords(&legacy(Revision::R4, 128, Cipher::Aes128), b"o", b"");
    let d = Decryptor::open(&params, b"").expect("open");
    assert_eq!(d.file_key().len(), 16);
    let iv = [7u8; 16];
    for n in [0usize, 1, 15, 16, 17, 40] {
        let data = vec![0x5au8; n];
        let boxed = d.encrypt_with(Cipher::Aes128, 3, 0, &iv, &data);
        assert_eq!(boxed.len(), 16 * (n / 16 + 2));
        assert_eq!(&boxed[..16], &iv[..]);
        assert_eq!(d.decrypt_with(Cipher::Aes128, 3, 0, &boxed), data);
        let rc4 = d.encrypt_with(Cipher::Rc4, 3, 0, &iv, &data);
        assert_eq!(rc4.len(), n);
    }
    assert_eq!(d.decrypt_with(Cipher::Aes128, 3, 0, &[1u8; 31]), Vec::<u8>::new());
}

#[test]
fn aes256_passwords_are_cut_at_127_bytes() {
    let file_key = [0x11u8; 32];
    let salts = [[5u8; 8], [6u8; 8], [7u8; 8], [8u8; 8]];
    let long = [b'p'; 200];
    for revision in [Revision::R5, Revision::R6] {
        let e = aes256_entries(revision, &file_key, &long[..127], b"owner", &salts, 0xffff_fffc, true);
        let params = Params {
            revision,
            key_bits: 256,
            owner: e.owner.clone(),
            user: e.user.clone(),
            owner_key: e.owner_key.clone(),
            user_key: e.user_key.clone(),
            permissions: 0xffff_fffc,
            encrypt_metadata: true,
            streams: Cipher::Aes256,
            strings: Cipher::Aes256,
            file_id: Vec::new(),
        };
        let d = Decryptor::open(&params, &long).expect("long password");
        assert_eq!(d.file_key(), &file_key[..]);
        assert!(!d.opened_as_owner());
        assert!(Decryptor::open(&params, &long[..127]) == Ok(d));
        assert!(matches!(Decryptor::open(&params, &long[..126]), Err(Error::WrongPassword)));
    }
}
