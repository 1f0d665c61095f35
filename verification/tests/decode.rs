use std::io::Write;

use fyp_core::decode::{decode_stream, decode_stream_with, Direct, Resolve};
use fyp_core::filters::DecodeLimits;
use fyp_core::object::{Dict, Name, Object, ObjectView};
use fyp_core::parser::Parser;
use fyp_core::Error;

fn zlib(data: &[u8]) -> Vec<u8> {
    let mut enc = flate2::write::ZlibEncoder::new(Vec::new(), flate2::Compression::best());
    enc.write_all(data).expect("compress");
    enc.finish().expect("finish")
}

fn dict(src: &str) -> Dict {
    match Parser::new(src.as_bytes()).parse_object().expect("dict") {
        Object::Dict(d) => d,
        other => panic!("not a dict: {other:?}"),
    }
}

fn png(rows: &[&[u8]]) -> Vec<u8> {
    rows.concat()
}

#[test]
fn decode_stream_chain_and_parms() {
    let text = b"chained filters";
    let hex: Vec<u8> = zlib(text)
        .iter()
        .flat_map(|b| format!("{b:02X}").into_bytes())
        .chain(b">".iter().copied())
        .collect();
    let d = dict("<< /Filter [/ASCIIHexDecode /FlateDecode] >>");
    assert_eq!(decode_stream(&d, &hex, &Direct).unwrap(), text);
    // Single name, no parms.
    let d = dict("<< /Filter /ASCIIHexDecode >>");
    assert_eq!(decode_stream(&d, b"41 42>", &Direct).unwrap(), b"AB");
    // No filter: identity.
    let d = dict("<< /Length 3 >>");
    assert_eq!(decode_stream(&d, b"raw", &Direct).unwrap(), b"raw");
    let d = dict("<< /Filter null >>");
    assert_eq!(decode_stream(&d, b"raw", &Direct).unwrap(), b"raw");
    // Flate + PNG Up predictor through /DecodeParms.
    let rows = png(&[&[2, 1, 2], &[2, 1, 1]]);
    let d = dict("<< /Filter /FlateDecode /DecodeParms << /Predictor 12 /Columns 2 >> >>");
    assert_eq!(
        decode_stream(&d, &zlib(&rows), &Direct).unwrap(),
        vec![1, 2, 2, 3]
    );
    // Array of parms with null for the hex stage.
    let d = dict("<< /Filter [/AHx /Fl] /DecodeParms [null << /Predictor 12 /Columns 2 >>] >>");
    let hex_rows: Vec<u8> = zlib(&rows)
        .iter()
        .flat_map(|b| format!("{b:02x}").into_bytes())
        .collect();
    assert_eq!(
        decode_stream(&d, &hex_rows, &Direct).unwrap(),
        vec![1, 2, 2, 3]
    );
    // Lone dict next to two filters goes to the Flate stage.
    let d = dict("<< /Filter [/AHx /Fl] /DecodeParms << /Predictor 12 /Columns 2 >> >>");
    assert_eq!(
        decode_stream(&d, &hex_rows, &Direct).unwrap(),
        vec![1, 2, 2, 3]
    );
    // Identity crypt filter.
    let d = dict("<< /Filter /Crypt /DecodeParms << /Name /Identity >> >>");
    assert_eq!(decode_stream(&d, b"same", &Direct).unwrap(), b"same");
}

/// Every reference stands for the name `ASCIIHexDecode`.
struct HexEverywhere;

impl Resolve for HexEverywhere {
    /// Only the proofs of the library read this description.
    fn resolved(&self, _: ObjectView) -> Option<ObjectView> {
        None
    }

    fn resolve(&self, o: &Object) -> Result<Object, Error> {
        match o {
            Object::Reference(_) => Ok(Object::Name(Name::new("ASCIIHexDecode"))),
            other => Ok(other.clone()),
        }
    }
}

#[test]
fn decode_stream_resolves_references() {
    let d = dict("<< /Filter 9 0 R >>");
    assert_eq!(decode_stream(&d, b"41>", &HexEverywhere).unwrap(), b"A");
    // With the direct resolver a reference stays a reference: error.
    assert!(matches!(
        decode_stream(&d, b"41>", &Direct),
        Err(Error::Filter { .. })
    ));
}

#[test]
fn decode_stream_unknown_and_unsupported() {
    let d = dict("<< /Filter /LZWDecode >>");
    assert!(matches!(
        decode_stream(&d, b"", &Direct),
        Err(Error::Unsupported { .. })
    ));
    let d = dict("<< /Filter /DCTDecode >>");
    assert!(matches!(
        decode_stream(&d, b"", &Direct),
        Err(Error::Unsupported { .. })
    ));
    // A named crypt filter is applied when the object is read; here it
    // is the identity (7.4.10).
    let d = dict("<< /Filter /Crypt /DecodeParms << /Name /StdCF >> >>");
    assert_eq!(decode_stream(&d, b"raw", &Direct).unwrap(), b"raw");
    let d = dict("<< /Filter /Bogus >>");
    assert!(matches!(
        decode_stream(&d, b"", &Direct),
        Err(Error::Filter { .. })
    ));
    let d = dict("<< /Filter 42 >>");
    assert!(matches!(
        decode_stream(&d, b"", &Direct),
        Err(Error::Filter { .. })
    ));
    let d = dict("<< /Filter /FlateDecode /DecodeParms << /Predictor 12 /Columns -1 >> >>");
    assert!(matches!(
        decode_stream(&d, &zlib(b"x"), &Direct),
        Err(Error::Filter { .. })
    ));
    let d = dict("<< /Filter /FlateDecode /DecodeParms << /Predictor 7 >> >>");
    assert!(matches!(
        decode_stream(&d, &zlib(b"x"), &Direct),
        Err(Error::Filter { .. })
    ));
}

#[test]
fn decode_stream_limit() {
    let d = dict("<< /Filter /FlateDecode >>");
    let bomb = zlib(&vec![0u8; 1 << 20]);
    let limits = DecodeLimits { max_output: 1000 };
    assert!(matches!(
        decode_stream_with(&d, &bomb, &Direct, limits),
        Err(Error::LimitExceeded { limit: 1000, .. })
    ));
}

#[test]
fn unknown_filter_is_named_in_the_error() {
    let d = dict("<< /Filter /Bogus >>");
    match decode_stream(&d, b"", &Direct) {
        Err(Error::Filter { filter, .. }) => assert_eq!(filter, "Bogus"),
        other => panic!("{other:?}"),
    }
    let d = dict("<< /Filter [/AHx 3] >>");
    match decode_stream(&d, b"", &Direct) {
        Err(Error::Filter { filter, .. }) => assert_eq!(filter, "/Filter"),
        other => panic!("{other:?}"),
    }
}
