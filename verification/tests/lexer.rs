use fyp_core::lexer::{is_delimiter, is_whitespace, Lexer, Token};
use fyp_core::Error;

fn all(input: &[u8]) -> Vec<Token> {
    let mut lx = Lexer::new(input);
    let mut v = Vec::new();
    loop {
        match lx.next_token() {
            Ok(Token::Eof) => break,
            Ok(t) => v.push(t),
            Err(e) => panic!("lexer error: {e:?}"),
        }
    }
    v
}

/// The string after the opening byte at the start of `input`.
fn after_open(input: &[u8]) -> Lexer<'_> {
    let mut lx = Lexer::new(input);
    lx.bump();
    lx
}

fn real_token(text: &str) -> Token {
    Token::Real(text.as_bytes().to_vec())
}

#[test]
fn numbers() {
    assert_eq!(
        all(b"42 -17 +3"),
        vec![Token::Integer(42), Token::Integer(-17), Token::Integer(3)]
    );
    assert_eq!(
        all(b"3.5 -.002 .5 6."),
        vec![real_token("3.5"), real_token("-.002"), real_token("0.5"), real_token("6.0")]
    );
}

#[test]
fn lexer_names_with_escapes() {
    assert_eq!(
        all(b"/Type /A#20B /"),
        vec![
            Token::Name(b"Type".to_vec()),
            Token::Name(b"A B".to_vec()),
            Token::Name(Vec::new()),
        ]
    );
}

#[test]
fn strings() {
    assert_eq!(
        all(b"(hello (nested) \\n\\101)"),
        vec![Token::LiteralString(b"hello (nested) \nA".to_vec())]
    );
    assert_eq!(
        all(b"<48656C6C6F 7>"),
        vec![Token::HexString(b"Hello\x70".to_vec())]
    );
}

#[test]
fn delimiters_and_keywords() {
    assert_eq!(
        all(b"<< /K [1 0 R] >> obj"),
        vec![
            Token::DictOpen,
            Token::Name(b"K".to_vec()),
            Token::ArrayOpen,
            Token::Integer(1),
            Token::Integer(0),
            Token::Keyword(b"R".to_vec()),
            Token::ArrayClose,
            Token::DictClose,
            Token::Keyword(b"obj".to_vec()),
        ]
    );
}

#[test]
fn comments_are_skipped() {
    assert_eq!(
        all(b"1 % comment\n2"),
        vec![Token::Integer(1), Token::Integer(2)]
    );
    assert!(is_whitespace(b'\0'));
    assert!(!is_whitespace(b'a'));
    assert!(is_delimiter(b'%'));
    assert!(!is_delimiter(b'#'));
}

#[test]
fn never_panics_on_garbage() {
    let inputs: &[&[u8]] = &[
        b")",
        b">",
        b"(unterminated",
        b"<zz>",
        b"\xff\xfe\x00",
        b"",
        b"#",
    ];
    for input in inputs {
        let mut lx = Lexer::new(input);
        for _ in 0..8 {
            if matches!(lx.next_token(), Ok(Token::Eof)) {
                break;
            }
        }
    }
}

#[test]
fn number_tolerances_and_refusals() {
    assert_eq!(all(b"--5 0042 -0"), vec![real_token("5"), Token::Integer(42), Token::Integer(0)]);
    assert_eq!(all(b"9223372036854775807"), vec![Token::Integer(i64::MAX)]);
    assert_eq!(all(b"-9223372036854775808"), vec![Token::Integer(i64::MIN)]);
    assert_eq!(all(b"9223372036854775808"), vec![real_token("9223372036854775808")]);
    assert_eq!(all(b"+."), vec![real_token("0.0")]);
    let mut lx = Lexer::new(b"1.2.3 x");
    assert_eq!(
        lx.next_token(),
        Err(Error::Syntax { offset: 0, message: "bad number \"1.2.3\"".to_string() })
    );
    assert_eq!(lx.pos(), 5);
    let mut lx = Lexer::new(b"-\xff");
    assert_eq!(
        lx.next_token(),
        Err(Error::Syntax { offset: 0, message: "non-ASCII number".to_string() })
    );
    let mut lx = Lexer::new(b" )");
    assert_eq!(lx.next_token(), Err(Error::Syntax { offset: 1, message: "stray ')'".to_string() }));
    assert_eq!(lx.pos(), 1);
}

#[test]
fn literal_strings_are_unescaped() {
    let mut lx = after_open(b"(hello (nested) \\n\\101) rest");
    assert_eq!(lx.literal_string(), Ok(b"hello (nested) \nA".to_vec()));
    assert_eq!(lx.pos(), 23);
    let mut lx = after_open(b"(a\\\r\nb\rc\r\nd\\q\\0\\1234)");
    assert_eq!(lx.literal_string(), Ok(b"ab\nc\nd\x71\x00\x534".to_vec()));
    let mut lx = after_open(b"(unterminated");
    assert_eq!(lx.literal_string(), Err(Error::UnexpectedEof));
    let mut lx = after_open(b"(ends on a backslash\\");
    assert_eq!(lx.literal_string(), Err(Error::UnexpectedEof));
}

#[test]
fn hex_strings_are_decoded() {
    let mut lx = after_open(b"<48656C6C6F 7> x");
    assert_eq!(lx.hex_string(), Ok(b"Hello\x70".to_vec()));
    assert_eq!(lx.pos(), 14);
    let mut lx = after_open(b"<zz>");
    assert_eq!(
        lx.hex_string(),
        Err(Error::Syntax { offset: 1, message: "non-hex byte in hex string".to_string() })
    );
    let mut lx = after_open(b"<4142");
    assert_eq!(lx.hex_string(), Err(Error::UnexpectedEof));
}

#[test]
fn keywords_and_stray_delimiters() {
    let mut lx = Lexer::new(b"obj<<");
    assert_eq!(lx.keyword(), Ok(b"obj".to_vec()));
    assert_eq!(lx.pos(), 3);
    let mut lx = Lexer::new(b"{x");
    assert_eq!(
        lx.keyword(),
        Err(Error::Syntax { offset: 0, message: "unexpected delimiter".to_string() })
    );
    assert_eq!(lx.pos(), 1);
    let mut lx = after_open(b"/a#4");
    assert_eq!(lx.name(), b"a#4".to_vec());
}
