use badsv::dsv;
use badsv::{
    compile, compile_with, compile_with_pick, list_encodings, parse, parse_with, resolve,
    validate_delimiter, Codec, Decoder, Encoder, Encoding, UnsupportedEncoding, Utf16Decoder,
    Utf16Encoder, Utf32Decoder, Utf32Encoder, Utf8Decoder, Utf8Encoder,
};

const CODECS: [Codec; 3] = [Codec::Utf8, Codec::Utf16, Codec::Utf32];

fn grid(rows: &[&[&str]]) -> Vec<Vec<String>> {
    rows.iter().map(|r| r.iter().map(|s| s.to_string()).collect()).collect()
}

fn is_utf8_candidate(b: u8) -> bool {
    (0x80..=0xc1).contains(&b) || b >= 0xf5
}

#[test]
fn round_trip_each_codec() {
    let g = grid(&[&["a", "b"], &["c"], &["", "x", ""], &["héllo", "日本", "😀z"], &["\u{fffd}", "tab\there"]]);
    for codec in CODECS {
        for _ in 0..20 {
            let bytes = compile_with(&g, codec);
            assert_eq!(parse_with(&bytes, codec), g);
        }
    }
}

#[test]
fn round_trip_by_name() {
    let g = grid(&[&["one", "two", "three"], &["ü", "ß"]]);
    for name in ["utf-8", "utf-16", "utf-32"] {
        let bytes = compile(g.clone(), name).unwrap();
        assert_eq!(parse(&bytes, name).unwrap(), g);
    }
}

#[test]
fn records_are_unit_aligned() {
    let g = grid(&[&["a", "é"]]);
    for codec in CODECS {
        let bytes = compile_with(&g, codec);
        assert_eq!(bytes.len() % codec.width(), 0);
    }
    // utf-16: 'a' (2) + delimiter (2) + 'é' (2) + terminator (2)
    assert_eq!(compile_with(&g, Codec::Utf16).len(), 8);
    // utf-32: four units of four bytes
    assert_eq!(compile_with(&g, Codec::Utf32).len(), 16);
}

#[test]
fn generated_delimiters_are_rejected() {
    for codec in CODECS {
        for _ in 0..500 {
            let d = codec.get_delimiter();
            assert_eq!(d.len(), codec.width());
            assert!(codec.is_delimiter(&d));
            assert!(codec.try_decode(&d).is_err());
        }
    }
    for _ in 0..200 {
        let d = Utf8Encoder::new().get_delimiter();
        assert!(is_utf8_candidate(d[0]));
        assert!(Utf8Decoder::new().try_decode(&d).is_err());
        let d = Utf16Encoder::new().get_delimiter();
        let v = u16::from_be_bytes([d[0], d[1]]);
        assert!((0xdc00..=0xdfff).contains(&v));
        assert!(Utf16Decoder::new().try_decode(&d).is_err());
        let d = Utf32Encoder::new().get_delimiter();
        assert!(u32::from_be_bytes([d[0], d[1], d[2], d[3]]) > 0x10ffff);
        assert!(Utf32Decoder::new().try_decode(&d).is_err());
    }
}

#[test]
fn every_pick_gives_a_delimiter() {
    for codec in CODECS {
        for pick in [0u32, 1, 2, 12, 13, 76, 77, 1023, 1024, u32::MAX] {
            let d = codec.delimiter(pick);
            assert!(codec.is_delimiter(&d));
            assert!(codec.try_decode(&d).is_err());
        }
    }
    assert_eq!(Codec::Utf8.delimiter(0), vec![0xc0]);
    assert_eq!(Codec::Utf8.delimiter(2), vec![0xf5]);
    assert_eq!(Codec::Utf8.delimiter(13), vec![0x80]);
    assert_eq!(Codec::Utf8.delimiter(76), vec![0xbf]);
    assert_eq!(Codec::Utf8.delimiter(77), vec![0xc0]);
    assert_eq!(Codec::Utf16.delimiter(5), vec![0xdc, 0x05]);
    assert_eq!(Codec::Utf32.delimiter(0), vec![0x00, 0x11, 0x00, 0x00]);
}

#[test]
fn truncated_character_needs_more_bytes() {
    // 'é' is 0xc3 0xa9 in utf-8; cut after its first byte
    assert_eq!(Codec::Utf8.try_decode(&[b'a', 0xc3]), Ok("a".to_string()));
    assert_eq!(Utf8Decoder::new().try_decode(&[0xc3]), Ok(String::new()));
    // three- and four-byte characters cut short
    assert_eq!(Codec::Utf8.try_decode(&[0xe6, 0x97]), Ok(String::new()));
    assert_eq!(Codec::Utf8.try_decode(&[0xf0, 0x9f, 0x98]), Ok(String::new()));
    // '😀' is the surrogate pair d83d de00 in utf-16; cut after the first unit
    assert_eq!(Codec::Utf16.try_decode(&[0x00, 0x61, 0xd8, 0x3d]), Ok("a".to_string()));
    // the same bytes followed by something invalid are a failure
    assert_eq!(Codec::Utf8.try_decode(&[b'a', 0xc3, b'b']), Err(("a".to_string(), 1)));
    assert_eq!(Codec::Utf8.try_decode(&[0xe0, 0x80]), Err((String::new(), 0)));
    assert_eq!(Codec::Utf16.try_decode(&[0x00, 0x61, 0xd8, 0x3d, 0x00, 0x62]), Err(("a".to_string(), 1)));
}

#[test]
fn decode_attempts_exact() {
    assert_eq!(Codec::Utf8.try_decode("hé".as_bytes()), Ok("hé".to_string()));
    assert_eq!(Codec::Utf8.try_decode(&[b'h', 0xff, b'i']), Err(("h".to_string(), 1)));
    assert_eq!(Codec::Utf16.try_decode(&[0x00, 0x68, 0xd8, 0x3d, 0xde, 0x00]), Ok("h😀".to_string()));
    assert_eq!(Codec::Utf16.try_decode(&[0x00, 0x68, 0xdc, 0x00]), Err(("h".to_string(), 1)));
    assert_eq!(Codec::Utf16.try_decode(&[0xff, 0xfd]), Ok("\u{fffd}".to_string()));
    assert_eq!(Codec::Utf32.try_decode(&[0, 0, 0, 0x68, 0, 1, 0xf6, 0x00]), Ok("h😀".to_string()));
    assert_eq!(Codec::Utf32.try_decode(&[0, 0, 0, 0x68, 0, 0x11, 0, 0]), Err(("h".to_string(), 1)));
    assert_eq!(Codec::Utf32.try_decode(&[0, 0, 0xd8, 0]), Err((String::new(), 0)));
    assert_eq!(Codec::Utf32.try_decode(&[0, 0, 0, 0x68, 0, 0]), Ok("h".to_string()));
}

#[test]
fn encodings_exact() {
    assert_eq!(Codec::Utf8.encode("hé"), vec![0x68, 0xc3, 0xa9]);
    assert_eq!(Utf8Encoder::new().encode("hé"), vec![0x68, 0xc3, 0xa9]);
    assert_eq!(Codec::Utf16.encode("h😀"), vec![0x00, 0x68, 0xd8, 0x3d, 0xde, 0x00]);
    assert_eq!(Utf16Encoder::new().encode("é"), vec![0x00, 0xe9]);
    assert_eq!(Codec::Utf32.encode("h😀"), vec![0, 0, 0, 0x68, 0, 1, 0xf6, 0x00]);
    assert_eq!(Utf32Encoder::new().encode(""), Vec::<u8>::new());
}

#[test]
fn sizes() {
    assert_eq!(Utf8Encoder::new().size(), 1);
    assert_eq!(Utf8Decoder::new().size(), 1);
    assert_eq!(Utf16Encoder::new().size(), 2);
    assert_eq!(Utf16Decoder::new().size(), 2);
    assert_eq!(Utf32Encoder::new().size(), 4);
    assert_eq!(Utf32Decoder::new().size(), 4);
}

#[test]
fn empty_input() {
    for codec in CODECS {
        assert_eq!(compile_with(&Vec::new(), codec), Vec::<u8>::new());
        assert_eq!(parse_with(&[], codec), Vec::<Vec<String>>::new());
    }
}

#[test]
fn concrete_utf8_scenario() {
    let g = grid(&[&["a", "b"], &["c"]]);
    let bytes = compile(g.clone(), "utf-8").unwrap();
    assert_eq!(bytes.len(), 6);
    assert_eq!(bytes[0], b'a');
    assert!(is_utf8_candidate(bytes[1]));
    assert_eq!(&bytes[2..], &[b'b', b'\n', b'c', b'\n']);
    assert_eq!(parse(&bytes, "utf-8").unwrap(), g);
}

#[test]
fn deterministic_pick() {
    let g = grid(&[&["a", "b"], &["c"]]);
    assert_eq!(compile_with_pick(&g, Codec::Utf8, 0), vec![b'a', 0xc0, b'b', b'\n', b'c', b'\n']);
    assert_eq!(
        compile_with_pick(&g, Codec::Utf16, 1),
        vec![0, b'a', 0xdc, 0x01, 0, b'b', 0, b'\n', 0, b'c', 0, b'\n']
    );
    assert_eq!(
        compile_with_pick(&grid(&[&["a", "b"]]), Codec::Utf32, 0),
        vec![0, 0, 0, b'a', 0, 0x11, 0, 0, 0, 0, 0, b'b', 0, 0, 0, b'\n']
    );
}

#[test]
fn unsupported_name() {
    assert_eq!(resolve("latin-9"), Err(UnsupportedEncoding));
    assert_eq!(resolve("UTF-8"), Err(UnsupportedEncoding));
    assert_eq!(resolve(""), Err(UnsupportedEncoding));
    assert_eq!(resolve("utf-8"), Ok(Codec::Utf8));
    assert_eq!(resolve("utf-16"), Ok(Codec::Utf16));
    assert_eq!(resolve("utf-32"), Ok(Codec::Utf32));
    assert_eq!(compile(grid(&[&["a"]]), "latin-9"), Err(UnsupportedEncoding));
    assert_eq!(parse(&[b'a', b'\n'], "latin-9"), Err(UnsupportedEncoding));
    assert_eq!(list_encodings(), vec!["utf-8", "utf-16", "utf-32"]);
}

#[test]
fn trailing_unterminated_record_is_dropped() {
    assert_eq!(parse_with(&[b'a', 0x80, b'b', b'\n', b'c'], Codec::Utf8), grid(&[&["a", "b"]]));
    assert_eq!(parse_with(&[b'x', 0xff], Codec::Utf8), Vec::<Vec<String>>::new());
    // a trailing odd byte in utf-16 is ignored
    assert_eq!(parse_with(&[0, b'a', 0, b'\n', 0], Codec::Utf16), grid(&[&["a"]]));
}

#[test]
fn empty_record_decodes_to_one_empty_field() {
    let bytes = compile_with(&vec![Vec::new()], Codec::Utf8);
    assert_eq!(bytes, vec![b'\n']);
    assert_eq!(parse_with(&bytes, Codec::Utf8), grid(&[&[""]]));
}

#[test]
fn repeated_newlines_are_trimmed() {
    // utf-16 newline after an incomplete character: the text ends at the newline
    assert_eq!(parse_with(&[0, b'a', 0, b'\n'], Codec::Utf16), grid(&[&["a"]]));
    assert_eq!(parse_with(&[b'\n', b'\n'], Codec::Utf8), grid(&[&[""], &[""]]));
}

#[test]
fn dsv_parse_and_compile() {
    let text = b"a,b\nc\n\"d,e\",f\n";
    let g = dsv::parse(text, b',').unwrap();
    assert_eq!(g, grid(&[&["a", "b"], &["c"], &["d,e", "f"]]));
    assert_eq!(dsv::compile(g, b','), text.to_vec());
    let g = dsv::parse(b"x;y\n", b';').unwrap();
    assert_eq!(g, grid(&[&["x", "y"]]));
    assert_eq!(dsv::compile(grid(&[&["p", "q"], &["r"]]), b'\t'), b"p\tq\nr\n".to_vec());
}

#[test]
fn dsv_compile_one_line_per_record() {
    assert_eq!(dsv::compile(grid(&[&["a", "b"], &["c"]]), b','), b"a,b\nc\n".to_vec());
    assert_eq!(dsv::compile(Vec::new(), b','), Vec::<u8>::new());
}

#[test]
fn dsv_parse_rejects_non_utf8() {
    assert_eq!(dsv::parse(&[b'a', b',', 0xff, b'\n'], b','), Err(badsv::MalformedDsv));
    assert_eq!(dsv::parse(b"", b','), Ok(Vec::<Vec<String>>::new()));
}

#[test]
fn delimiter_argument() {
    assert_eq!(validate_delimiter(","), Some(b','));
    assert_eq!(validate_delimiter(";"), Some(b';'));
    assert_eq!(validate_delimiter(",,"), None);
    assert_eq!(validate_delimiter(""), None);
    assert_eq!(validate_delimiter("é"), None);
}

#[test]
fn encoded_grid_then_more_bytes() {
    let first = grid(&[&["a", "b"], &["c"]]);
    let second = grid(&[&["d"], &["e", "f", "g"]]);
    for codec in CODECS {
        let mut bytes = compile_with(&first, codec);
        let more = compile_with(&second, codec);
        bytes.extend(&more);
        let mut both = first.clone();
        both.extend(second.clone());
        assert_eq!(parse_with(&bytes, codec), both);
    }
}
