use fyp_core::object::{Dict, Name, ObjRef, Object};
use fyp_core::parser::{Parser, MAX_DEPTH};
use fyp_core::Error;

fn parse(input: &[u8]) -> Object {
    Parser::new(input).parse_object().expect("parse")
}

#[test]
fn scalars() {
    assert_eq!(parse(b"true"), Object::Bool(true));
    assert_eq!(parse(b"null"), Object::Null);
    assert_eq!(parse(b"12"), Object::Integer(12));
    assert_eq!(parse(b"-1.5"), Object::Real(b"-1.5".to_vec()));
    assert_eq!(parse(b"/Name"), Object::Name(Name::new("Name")));
    assert_eq!(parse(b"(str)"), Object::String(b"str".to_vec()));
}

#[test]
fn references_vs_integers() {
    assert_eq!(
        parse(b"12 0 R"),
        Object::Reference(ObjRef { num: 12, gen: 0 })
    );
    assert_eq!(
        parse(b"[1 2 3]"),
        Object::Array(vec![
            Object::Integer(1),
            Object::Integer(2),
            Object::Integer(3)
        ])
    );
    assert_eq!(
        parse(b"[1 2 R 3]"),
        Object::Array(vec![
            Object::Reference(ObjRef { num: 1, gen: 2 }),
            Object::Integer(3)
        ])
    );
}

#[test]
fn dictionary() {
    let obj = parse(b"<< /Type /Page /Count 3 /Kids [4 0 R] >>");
    let d = obj.as_dict().expect("dict");
    assert_eq!(
        d.get(&Name::new("Type")).and_then(Object::as_name),
        Some(&Name::new("Page"))
    );
    assert_eq!(d.get(&Name::new("Count")).and_then(Object::as_i64), Some(3));
    assert!(matches!(d.get(&Name::new("Kids")), Some(Object::Array(_))));
}

#[test]
fn stream_with_correct_length() {
    let obj = parse(b"<< /Length 5 >>\nstream\nhello\nendstream");
    match obj {
        Object::Stream { dict, data } => {
            assert_eq!(
                dict.get(&Name::new("Length")).and_then(Object::as_i64),
                Some(5)
            );
            assert_eq!(data, b"hello");
        }
        other => panic!("expected stream, got {other:?}"),
    }
}

#[test]
fn stream_with_wrong_length_recovers() {
    let obj = parse(b"<< /Length 999 >>\r\nstream\r\nabc\r\nendstream");
    match obj {
        Object::Stream { data, .. } => assert_eq!(data, b"abc"),
        other => panic!("expected stream, got {other:?}"),
    }
}

#[test]
fn stream_with_slightly_short_length_is_not_truncated() {
    let obj = parse(b"<< /Length 4 >>\nstream\nhello\nendstream");
    match obj {
        Object::Stream { data, .. } => assert_eq!(data, b"hello"),
        other => panic!("expected stream, got {other:?}"),
    }
}

#[test]
fn stream_keyword_followed_by_spaces_before_eol() {
    let obj = parse(b"<< /Length 5 >>\nstream \t\r\nhello\nendstream");
    match obj {
        Object::Stream { data, .. } => assert_eq!(data, b"hello"),
        other => panic!("expected stream, got {other:?}"),
    }
}

#[test]
fn stream_keyword_glued_to_data() {
    let obj = parse(b"<< /Length 3 >>\nstreamabc\nendstream");
    match obj {
        Object::Stream { data, .. } => assert_eq!(data, b"abc"),
        other => panic!("expected stream, got {other:?}"),
    }
}

#[test]
fn indirect_object() {
    let (r, obj) = Parser::new(b"7 0 obj\n<< /A 1 >>\nendobj")
        .parse_indirect()
        .expect("indirect");
    assert_eq!(r, ObjRef { num: 7, gen: 0 });
    assert!(obj.as_dict().is_some());
}

#[test]
fn depth_limit_is_enforced() {
    let deep = vec![b'['; MAX_DEPTH + 10];
    assert_eq!(Parser::new(&deep).parse_object(), Err(Error::TooDeep));
}

#[test]
fn errors_not_panics() {
    for input in [&b"<<"[..], b"[", b"]", b">>", b"12 0", b"", b"foo"] {
        let _ = Parser::new(input).parse_object();
    }
}

#[test]
fn parse_errors_say_where_and_why() {
    assert_eq!(Parser::new(b"").parse_object(), Err(Error::UnexpectedEof));
    assert_eq!(Parser::new(b"[1 2").parse_object(), Err(Error::UnexpectedEof));
    assert_eq!(
        Parser::new(b"  ]").parse_object(),
        Err(Error::Syntax { offset: 2, message: "unexpected delimiter".into() })
    );
    assert_eq!(
        Parser::new(b"foo").parse_object(),
        Err(Error::Syntax { offset: 0, message: "unexpected keyword \"foo\"".into() })
    );
    assert_eq!(
        Parser::new(b"1 99999 R").parse_object(),
        Err(Error::Syntax { offset: 2, message: "reference out of range".into() })
    );
    assert_eq!(
        Parser::new(b"x 0 obj").parse_indirect_header(),
        Err(Error::Syntax { offset: 0, message: "expected `n g obj`".into() })
    );
    assert_eq!(
        Parser::new(b"1 70000 obj").parse_indirect_header(),
        Err(Error::Syntax { offset: 0, message: "bad generation".into() })
    );
    assert_eq!(
        Parser::new(b"4294967296 0 obj").parse_indirect_header(),
        Err(Error::Syntax { offset: 0, message: "bad object number".into() })
    );
}

#[test]
fn integer_not_followed_by_a_reference_leaves_the_parser_on_the_next_token() {
    let mut p = Parser::new(b"12   0 obj");
    assert_eq!(p.parse_object(), Ok(Object::Integer(12)));
    assert_eq!(p.pos(), 5);
    assert_eq!(p.parse_object(), Ok(Object::Integer(0)));
}

#[test]
fn later_duplicate_keys_win_and_junk_is_skipped() {
    let obj = parse(b"<< /B 1 /A 2 3 /B 4 >>");
    let d = obj.as_dict().expect("dict");
    assert_eq!(d.len(), 2);
    assert_eq!(d.get(&Name::new("B")).and_then(Object::as_i64), Some(4));
    let keys: Vec<&[u8]> = d.entries().iter().map(|(k, _)| k.0.as_slice()).collect();
    assert_eq!(keys, vec![&b"A"[..], &b"B"[..]]);
}

#[test]
fn dictionary_keeps_keys_in_order() {
    let mut d = Dict::new();
    d.insert(Name::new("Size"), Object::Integer(3));
    d.insert(Name::new("Root"), Object::Reference(ObjRef { num: 1, gen: 0 }));
    d.insert(Name::new("Info"), Object::Null);
    d.insert(Name::new("Root"), Object::Integer(9));
    let keys: Vec<&[u8]> = d.entries().iter().map(|(k, _)| k.0.as_slice()).collect();
    assert_eq!(keys, vec![&b"Info"[..], &b"Root"[..], &b"Size"[..]]);
    assert_eq!(d.get(&Name::new("Root")), Some(&Object::Integer(9)));
    assert_eq!(d.remove(&Name::new("Info")), Some(Object::Null));
    assert_eq!(d.len(), 2);
    assert!(!d.contains_key(&Name::new("Info")));
    assert_eq!(d.clone(), d);
}
