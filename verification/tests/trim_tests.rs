use tmx_trimmer::trim;
use tmx_trimmer::TmxError;

fn doc_two_units() -> Vec<u8> {
    b"<?xml version=\"1.0\"?>\n<tmx version=\"1.4\">\n<header/>\n<body>\n<tu><tuv xml:lang=\"en\"><seg>one</seg></tuv></tu>\n<tu><tuv xml:lang=\"en\"><seg>two</seg></tuv></tu>\n</body>\n</tmx>".to_vec()
}

#[test]
fn trim_zero_is_identity() {
    let doc = doc_two_units();
    let out = trim(&doc, 0).unwrap();
    assert_eq!(out, doc);
}

#[test]
fn trim_one_drops_first_unit() {
    let doc = doc_two_units();
    let out = trim(&doc, 1).unwrap();
    let expected = b"<?xml version=\"1.0\"?>\n<tmx version=\"1.4\">\n<header/>\n<body>\n<tu><tuv xml:lang=\"en\"><seg>two</seg></tuv></tu>\n</body>\n</tmx>".to_vec();
    assert_eq!(String::from_utf8_lossy(&out), String::from_utf8_lossy(&expected));
}

#[test]
fn trim_all_leaves_no_units() {
    let doc = doc_two_units();
    let out = trim(&doc, 2).unwrap();
    let text = String::from_utf8_lossy(&out).to_string();
    assert!(!text.contains("<tu"));
    assert!(text.contains("<body>"));
    assert!(text.contains("</body>"));
}

#[test]
fn trim_more_than_count_leaves_no_units() {
    let doc = doc_two_units();
    let out = trim(&doc, 100).unwrap();
    let text = String::from_utf8_lossy(&out).to_string();
    assert!(!text.contains("<tu"));
}

#[test]
fn trim_counts_self_closing_units() {
    let doc = b"<body>\n<tu/>\n<tu><seg>x</seg></tu>\n</body>".to_vec();
    let out = trim(&doc, 1).unwrap();
    let expected = b"<body>\n<tu><seg>x</seg></tu>\n</body>".to_vec();
    assert_eq!(String::from_utf8_lossy(&out), String::from_utf8_lossy(&expected));
}

#[test]
fn trim_middle_keeps_last_units_in_order() {
    let doc = b"<body><tu><seg>a</seg></tu><tu><seg>b</seg></tu><tu><seg>c</seg></tu></body>"
        .to_vec();
    let out = trim(&doc, 1).unwrap();
    let expected = b"<body><tu><seg>b</seg></tu><tu><seg>c</seg></tu></body>".to_vec();
    assert_eq!(out, expected);
}

#[test]
fn trim_preserves_entity_references() {
    let doc = b"<body><tu><seg>a &amp; b</seg></tu></body>".to_vec();
    let out = trim(&doc, 0).unwrap();
    assert_eq!(out, doc);
}

#[test]
fn trim_malformed_reports_parse_error() {
    let doc = b"<body><tu></body>".to_vec();
    let r = trim(&doc, 0);
    assert!(matches!(r, Err(TmxError::Parse(_))));
}

#[test]
fn trim_rejects_invalid_utf8() {
    let doc = vec![0x3c, 0x62, 0xff, 0xfe];
    let r = trim(&doc, 0);
    assert!(matches!(r, Err(TmxError::Encoding)));
}

#[test]
fn is_xml_whitespace_accepts_blank_bytes() {
    assert!(tmx_trimmer::events::is_xml_whitespace(b" \t\r\n"));
    assert!(tmx_trimmer::events::is_xml_whitespace(b""));
    assert!(!tmx_trimmer::events::is_xml_whitespace(b" a "));
}

#[test]
fn round_trip_preserves_misc_constructs() {
    let doc = b"<?xml version=\"1.0\" encoding=\"UTF-8\"?>\n<!DOCTYPE tmx SYSTEM \"tmx14.dtd\">\n<!-- a comment -->\n<tmx>\n<body>\n<tu><seg><![CDATA[raw <stuff>]]></seg></tu>\n<?target data?>\n</body>\n</tmx>".to_vec();
    let out = trim(&doc, 0).unwrap();
    assert_eq!(String::from_utf8_lossy(&out), String::from_utf8_lossy(&doc));
}

#[test]
fn trim_matches_tag_names_exactly() {
    // a `tub` element is no translation unit
    let doc = b"<body><tub>x</tub><tu><seg>y</seg></tu></body>".to_vec();
    let out = trim(&doc, 1).unwrap();
    let text = String::from_utf8_lossy(&out).to_string();
    assert!(text.contains("<tub>x</tub>"));
    assert!(!text.contains("<seg>y</seg>"));
}
