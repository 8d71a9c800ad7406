use dts_core::parser::{num_u16, num_u32, num_u64, num_u8, parse_data, parse_prop, ParseError};
use dts_core::tree::{Data, Property};

fn ok_prop(input: &[u8]) -> Property {
    let (p, end) = parse_prop(input, 0).expect("property should parse");
    assert_eq!(end, input.len());
    p
}

#[test]
fn parse_prop_empty() {
    assert_eq!(
        ok_prop(b"empty_prop;"),
        Property {
            deleted: false,
            name: b"empty_prop".to_vec(),
            val: None,
            labels: Vec::new(),
        }
    );
}

#[test]
fn parse_prop_cells() {
    assert_eq!(
        ok_prop(b"cell_prop = < 1 2 10 >;"),
        Property {
            deleted: false,
            name: b"cell_prop".to_vec(),
            val: Some(vec![Data::Cells(vec![(1, None), (2, None), (10, None)])]),
            labels: Vec::new(),
        }
    );
}

#[test]
fn parse_prop_strings() {
    assert_eq!(
        ok_prop(b"string_prop = \"string\", \"string2\";"),
        Property {
            deleted: false,
            name: b"string_prop".to_vec(),
            val: Some(vec![
                Data::String(b"string".to_vec()),
                Data::String(b"string2".to_vec())
            ]),
            labels: Vec::new(),
        }
    );
}

#[test]
fn parse_prop_bytes() {
    assert_eq!(
        ok_prop(b"bytes_prop = [1234 56 78];"),
        Property {
            deleted: false,
            name: b"bytes_prop".to_vec(),
            val: Some(vec![Data::ByteArray(vec![0x12, 0x34, 0x56, 0x78])]),
            labels: Vec::new(),
        }
    );
}

#[test]
fn parse_prop_mixed() {
    assert_eq!(
        ok_prop(b"mixed_prop = \"abc\", [1234], <0xa 0xb 0xc>;"),
        Property {
            deleted: false,
            name: b"mixed_prop".to_vec(),
            val: Some(vec![
                Data::String(b"abc".to_vec()),
                Data::ByteArray(vec![0x12, 0x34]),
                Data::Cells(vec![(0xa, None), (0xb, None), (0xc, None)])
            ]),
            labels: Vec::new(),
        }
    );
}

#[test]
fn block_comment() {
    assert_eq!(
        ok_prop(b"test_prop /**/ = < 1 2 10 >;"),
        Property {
            deleted: false,
            name: b"test_prop".to_vec(),
            val: Some(vec![Data::Cells(vec![(1, None), (2, None), (10, None)])]),
            labels: Vec::new(),
        }
    );
}

#[test]
fn line_comment() {
    assert_eq!(
        ok_prop(b"test_prop // stuff\n\t= < 1 2 10 >;"),
        Property {
            deleted: false,
            name: b"test_prop".to_vec(),
            val: Some(vec![Data::Cells(vec![(1, None), (2, None), (10, None)])]),
            labels: Vec::new(),
        }
    );
}

#[test]
fn parse_data_string() {
    let input = b"\"\\x7f\\0stuffstuff\\t\\t\\t\\n\\n\\n\"";
    let (d, end) = parse_data(input, 0).expect("string should parse");
    assert_eq!(end, input.len());
    let mut expect: Vec<u8> = vec![0x7f, 0x00];
    expect.extend_from_slice(b"stuffstuff");
    expect.extend_from_slice(&[0x09, 0x09, 0x09, 0x0a, 0x0a, 0x0a]);
    assert_eq!(d, Data::String(expect));
}

#[test]
fn byte_array_with_comments() {
    assert_eq!(
        ok_prop(b"bytes_prop = [1234 /*x*/ 56 78];"),
        Property {
            deleted: false,
            name: b"bytes_prop".to_vec(),
            val: Some(vec![Data::ByteArray(vec![0x12, 0x34, 0x56, 0x78])]),
            labels: Vec::new(),
        }
    );
}

#[test]
fn comment_transparency() {
    let plain = ok_prop(b"p = <1 2>, \"ab\";");
    let commented = ok_prop(b"/*a*/p/*b*/=/*c*/</*d*/1/*e*/2/*f*/>/*g*/,//x\n\"ab\"/*h*/;");
    assert_eq!(plain, commented);
}

#[test]
fn numeric_radix_round_trip() {
    for n in [0u64, 1, 7, 8, 9, 15, 16, 255, 256] {
        let hex = format!("0x{:x}", n);
        let (v, e) = num_u64(hex.as_bytes(), 0).expect("hex should parse");
        assert_eq!((v, e), (n, hex.len()));
        let oct = format!("0{:o}", n);
        let (v, e) = num_u64(oct.as_bytes(), 0).expect("octal should parse");
        assert_eq!((v, e), (n, oct.len()));
        let dec = format!("{}", n);
        let (v, e) = num_u64(dec.as_bytes(), 0).expect("decimal should parse");
        assert_eq!((v, e), (n, dec.len()));
    }
}

#[test]
fn escape_closure_hex_and_named() {
    for b in 0u8..=0x7f {
        let input = format!("\"\\x{:02x}\"", b);
        let (d, _) = parse_data(input.as_bytes(), 0).expect("escape should parse");
        assert_eq!(d, Data::String(vec![b]));
    }
    let cases: Vec<(Vec<u8>, u8)> = vec![
        (b"\"\\a\"".to_vec(), 0x07),
        (b"\"\\b\"".to_vec(), 0x08),
        (b"\"\\t\"".to_vec(), 0x09),
        (b"\"\\n\"".to_vec(), 0x0a),
        (b"\"\\v\"".to_vec(), 0x0b),
        (b"\"\\f\"".to_vec(), 0x0c),
        (b"\"\\r\"".to_vec(), 0x0d),
        (b"\"\\\\\"".to_vec(), 0x5c),
        (b"\"\\\"\"".to_vec(), 0x22),
        (b"\"\\101\"".to_vec(), 0x41),
    ];
    for (src, want) in cases {
        let (d, _) = parse_data(&src, 0).expect("named escape should parse");
        assert_eq!(d, Data::String(vec![want]));
    }
}

#[test]
fn escape_out_of_range_rejected() {
    match parse_data(b"\"\\xff\"", 0) {
        Err(ParseError::EscapeOutOfRange(_)) => {}
        other => panic!("expected EscapeOutOfRange, got {:?}", other),
    }
}

#[test]
fn numeric_overflow_rejected() {
    match num_u64(b"0x1ffffffffffffffff", 0) {
        Err(ParseError::NumericOverflow(_)) => {}
        other => panic!("expected NumericOverflow, got {:?}", other),
    }
}

#[test]
fn width_bounded_readers() {
    assert_eq!(num_u8(b"0xff", 0), Ok((255u8, 4)));
    assert!(matches!(num_u8(b"0x100", 0), Err(ParseError::NumericOverflow(_))));
    assert_eq!(num_u16(b"0xffff", 0), Ok((0xffffu16, 6)));
    assert!(matches!(num_u16(b"0x10000", 0), Err(ParseError::NumericOverflow(_))));
    assert_eq!(num_u32(b"0xffffffff", 0), Ok((0xffff_ffffu32, 10)));
    assert!(matches!(num_u32(b"0x100000000", 0), Err(ParseError::NumericOverflow(_))));
}

#[test]
fn syntax_error_reported_with_offset() {
    match parse_prop(b"= <1>;", 0) {
        Err(ParseError::Syntax(off)) => assert_eq!(off, 0),
        other => panic!("expected Syntax, got {:?}", other),
    }
}

#[test]
fn labelled_property_collapses_duplicates() {
    let p = ok_prop(b"l1: l2: l1: named = <1>;");
    assert_eq!(p.name, b"named".to_vec());
    assert_eq!(p.labels, vec![b"l1".to_vec(), b"l2".to_vec()]);
}

#[test]
fn bare_reference_data() {
    let p = ok_prop(b"handle = &other;");
    assert_eq!(p.val, Some(vec![Data::Reference(b"other".to_vec())]));
    let p = ok_prop(b"handle = &{/a/b};");
    assert_eq!(p.val, Some(vec![Data::Reference(b"/a/b".to_vec())]));
}

#[test]
fn cell_with_reference() {
    let p = ok_prop(b"mix = <1 &other 3>;");
    assert_eq!(
        p.val,
        Some(vec![Data::Cells(vec![
            (1, None),
            (0, Some(b"other".to_vec())),
            (3, None)
        ])])
    );
}

#[test]
fn odd_hex_run_rejected() {
    assert!(parse_prop(b"bytes_prop = [123];", 0).is_err());
}
