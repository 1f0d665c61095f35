use std::io::Write;

use fyp_core::filters::{
    apply_predictor, ascii85_decode, ascii_hex_decode, flate_decode, run_length_decode,
    DecodeLimits, Predictor,
};
use fyp_core::Error;

fn zlib(data: &[u8]) -> Vec<u8> {
    let mut enc = flate2::write::ZlibEncoder::new(Vec::new(), flate2::Compression::best());
    enc.write_all(data).expect("compress");
    enc.finish().expect("finish")
}

const NO_LIMIT: DecodeLimits = DecodeLimits {
    max_output: usize::MAX,
};

#[test]
fn hex_known_vectors() {
    assert_eq!(ascii_hex_decode(b"48656C6C6F>"), b"Hello");
    assert_eq!(ascii_hex_decode(b"48 65\n6c 6C\t6f >"), b"Hello");
    assert_eq!(ascii_hex_decode(b"4>"), b"\x40");
    assert_eq!(ascii_hex_decode(b"414>"), b"\x41\x40");
    assert_eq!(ascii_hex_decode(b"41x42"), b"AB");
    assert_eq!(ascii_hex_decode(b""), b"");
    assert_eq!(ascii_hex_decode(b">"), b"");
}

#[test]
fn ascii85_known_vectors() {
    assert_eq!(ascii85_decode(b"87cURD_*#4DfTZ)~>").unwrap(), b"Hello, World");
    assert_eq!(ascii85_decode(b"87cURDZ~>").unwrap(), b"Hello");
    assert_eq!(ascii85_decode(b"87cURD_*#4DfTZ)").unwrap(), b"Hello, World");
    assert_eq!(ascii85_decode(b"z\n87cU\rR~>").unwrap(), b"\0\0\0\0Hell");
    assert_eq!(ascii85_decode(b"<~87cURD_*#4DfTZ)~>").unwrap(), b"Hello, World");
    assert_eq!(ascii85_decode(b"5l~>").unwrap(), b"A");
    assert_eq!(ascii85_decode(b"5sb~>").unwrap(), b"AB");
    assert_eq!(ascii85_decode(b"5sdp~>").unwrap(), b"ABC");
    assert_eq!(ascii85_decode(b"~>").unwrap(), b"");
    assert_eq!(ascii85_decode(b"s8W-!~>").unwrap(), b"\xff\xff\xff\xff");
}

#[test]
fn ascii85_errors() {
    assert!(matches!(ascii85_decode(b"87cUv~>"), Err(Error::Filter { .. })));
    assert!(matches!(ascii85_decode(b"5~>"), Err(Error::Filter { .. })));
    assert!(matches!(ascii85_decode(b"87czR~>"), Err(Error::Filter { .. })));
    assert!(matches!(ascii85_decode(b"uuuuu~>"), Err(Error::Filter { .. })));
}

#[test]
fn run_length_known_vectors() {
    let data = b"\x02abc\xfdb\x80zzz";
    assert_eq!(run_length_decode(data, NO_LIMIT).unwrap(), b"abcbbbb");
    assert_eq!(run_length_decode(b"", NO_LIMIT).unwrap(), b"");
    assert_eq!(run_length_decode(b"\x80", NO_LIMIT).unwrap(), b"");
    assert_eq!(run_length_decode(b"\x05ab", NO_LIMIT).unwrap(), b"ab");
    assert_eq!(run_length_decode(b"\xfd", NO_LIMIT).unwrap(), b"");
    let long = run_length_decode(b"\x81x", NO_LIMIT).unwrap();
    assert_eq!(long, vec![b'x'; 128]);
}

#[test]
fn run_length_respects_limit() {
    let limits = DecodeLimits { max_output: 200 };
    assert!(run_length_decode(b"\x81x\xd0y", limits).is_ok());
    assert_eq!(
        run_length_decode(b"\x81x\x81y", limits),
        Err(Error::LimitExceeded {
            limit: 200,
            what: "RunLengthDecode output"
        })
    );
}

#[test]
fn flate_round_trip_and_tolerances() {
    let text = b"Hello, Flate! Hello, Flate! Hello, Flate!";
    let z = zlib(text);
    assert_eq!(flate_decode(&z, NO_LIMIT).unwrap(), text);
    let known = b"\x78\x9c\xcb\x48\xcd\xc9\xc9\x07\x00\x06\x2c\x02\x15";
    assert_eq!(flate_decode(known, NO_LIMIT).unwrap(), b"hello");
    let mut padded = b"\r\n ".to_vec();
    padded.extend_from_slice(&z);
    assert_eq!(flate_decode(&padded, NO_LIMIT).unwrap(), text);
    let cut = &z[..z.len() - 4];
    let partial = flate_decode(cut, NO_LIMIT).unwrap();
    assert!(text.starts_with(&partial), "{partial:?}");
    let raw = &z[2..z.len() - 4];
    assert_eq!(flate_decode(raw, NO_LIMIT).unwrap(), text);
    assert_eq!(flate_decode(b"", NO_LIMIT).unwrap(), b"");
    assert!(matches!(
        flate_decode(b"\xff\xff\xff\xff", NO_LIMIT),
        Err(Error::Filter { .. })
    ));
}

#[test]
fn flate_bomb_hits_the_limit() {
    let zeros = vec![0u8; 1 << 20];
    let bomb = zlib(&zeros);
    assert!(bomb.len() < 2048, "compressed size {}", bomb.len());
    let limits = DecodeLimits { max_output: 4096 };
    assert_eq!(
        flate_decode(&bomb, limits),
        Err(Error::LimitExceeded {
            limit: 4096,
            what: "inflated FlateDecode data"
        })
    );
    let exact = DecodeLimits {
        max_output: zeros.len(),
    };
    assert_eq!(flate_decode(&bomb, exact).unwrap().len(), zeros.len());
    assert_eq!(DecodeLimits::default().max_output, 256 * 1024 * 1024);
}

fn png(rows: &[&[u8]]) -> Vec<u8> {
    rows.concat()
}

#[test]
fn png_predictor_all_filter_types() {
    let p = Predictor {
        predictor: 12,
        colors: 1,
        bits_per_component: 8,
        columns: 2,
    };
    let data = png(&[&[0, 10, 20], &[1, 5, 3], &[2, 1, 2], &[3, 4, 251], &[4, 2, 250]]);
    assert_eq!(
        apply_predictor(&data, p).unwrap(),
        vec![10, 20, 5, 8, 6, 10, 7, 3, 9, 253]
    );
}

#[test]
fn png_predictor_multi_byte_pixels() {
    let p = Predictor {
        predictor: 11,
        colors: 2,
        bits_per_component: 8,
        columns: 2,
    };
    let data = png(&[&[1, 1, 2, 3, 4]]);
    assert_eq!(apply_predictor(&data, p).unwrap(), vec![1, 2, 4, 6]);
    let p16 = Predictor {
        bits_per_component: 16,
        colors: 1,
        ..p
    };
    assert_eq!(apply_predictor(&data, p16).unwrap(), vec![1, 2, 4, 6]);
    let p1 = Predictor {
        bits_per_component: 1,
        colors: 1,
        columns: 12,
        predictor: 10,
    };
    assert_eq!(apply_predictor(&[1, 0x0f, 0x01], p1).unwrap(), vec![0x0f, 0x10]);
}

#[test]
fn png_predictor_edge_cases() {
    let p = Predictor {
        predictor: 12,
        colors: 1,
        bits_per_component: 8,
        columns: 3,
    };
    assert_eq!(apply_predictor(&[2, 1, 2, 3, 2, 1], p).unwrap(), vec![1, 2, 3, 2]);
    assert_eq!(apply_predictor(&[], p).unwrap(), Vec::<u8>::new());
    assert!(matches!(apply_predictor(&[9, 1, 2, 3], p), Err(Error::Filter { .. })));
    let huge = Predictor {
        columns: usize::MAX,
        ..p
    };
    assert!(matches!(apply_predictor(&[2, 1], huge), Err(Error::Filter { .. })));
    let none = Predictor { predictor: 1, ..p };
    assert_eq!(apply_predictor(&[2, 1], none).unwrap(), vec![2, 1]);
}

#[test]
fn tiff_predictor_8_16_and_sub_byte() {
    let p8 = Predictor {
        predictor: 2,
        colors: 2,
        bits_per_component: 8,
        columns: 3,
    };
    let data = [10, 20, 1, 1, 1, 1, 5, 5, 250, 250, 1, 1];
    assert_eq!(
        apply_predictor(&data, p8).unwrap(),
        vec![10, 20, 11, 21, 12, 22, 5, 5, 255, 255, 0, 0]
    );
    let p16 = Predictor {
        colors: 1,
        bits_per_component: 16,
        columns: 3,
        predictor: 2,
    };
    let data = [0x01, 0x00, 0x00, 0xff, 0xff, 0x01];
    assert_eq!(
        apply_predictor(&data, p16).unwrap(),
        vec![0x01, 0x00, 0x01, 0xff, 0x01, 0x00]
    );
    let p4 = Predictor {
        colors: 1,
        bits_per_component: 4,
        columns: 4,
        predictor: 2,
    };
    assert_eq!(
        apply_predictor(&[0x11, 0x11, 0xf1, 0x00], p4).unwrap(),
        vec![0x12, 0x34, 0xf0, 0x00]
    );
    let p1 = Predictor {
        colors: 1,
        bits_per_component: 1,
        columns: 8,
        predictor: 2,
    };
    assert_eq!(apply_predictor(&[0x80], p1).unwrap(), vec![0xff]);
    assert_eq!(
        apply_predictor(&[0x00, 0x01, 0x07], p16).unwrap(),
        vec![0x00, 0x01, 0x07]
    );
}
