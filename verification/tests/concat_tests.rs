use tmx_trimmer::TmxError;

fn doc_one_unit(text: &str) -> Vec<u8> {
    format!(
        "<?xml version=\"1.0\"?><tmx><header/><body><tu><tuv xml:lang=\"en\"><seg>{}</seg></tuv></tu></body></tmx>",
        text
    )
    .into_bytes()
}

#[test]
fn concat_doubles_units_on_self_merge() {
    let d = doc_one_unit("A");
    let out = tmx_trimmer::concat(&vec![d.clone(), d.clone()], false).unwrap();
    let expected = b"<?xml version=\"1.0\"?><tmx><header/><body><tu><tuv xml:lang=\"en\"><seg>A</seg></tuv></tu><tu><tuv xml:lang=\"en\"><seg>A</seg></tuv></tu></body>\r</tmx>".to_vec();
    assert_eq!(String::from_utf8_lossy(&out), String::from_utf8_lossy(&expected));
}

#[test]
fn concat_keeps_order_across_files() {
    let d1 = doc_one_unit("first");
    let d2 = doc_one_unit("second");
    let d3 = doc_one_unit("third");
    let out = tmx_trimmer::concat(&vec![d1, d2, d3], false).unwrap();
    let text = String::from_utf8_lossy(&out).to_string();
    let p1 = text.find("first").unwrap();
    let p2 = text.find("second").unwrap();
    let p3 = text.find("third").unwrap();
    assert!(p1 < p2 && p2 < p3);
    assert_eq!(text.matches("<tu>").count(), 3);
}

#[test]
fn concat_single_document_appends_closing_text() {
    let d = doc_one_unit("A");
    let out = tmx_trimmer::concat(&vec![d], false).unwrap();
    let expected = b"<?xml version=\"1.0\"?><tmx><header/><body><tu><tuv xml:lang=\"en\"><seg>A</seg></tuv></tu></body>\r</tmx>".to_vec();
    assert_eq!(String::from_utf8_lossy(&out), String::from_utf8_lossy(&expected));
}

#[test]
fn concat_skips_later_document_header_element() {
    let d1 = doc_one_unit("A");
    let d2 = b"<?xml version=\"1.0\"?><tmx><header><prop type=\"x\">meta</prop></header><body><tu><seg>B</seg></tu></body></tmx>".to_vec();
    let out = tmx_trimmer::concat(&vec![d1, d2], false).unwrap();
    let text = String::from_utf8_lossy(&out).to_string();
    assert!(!text.contains("meta"));
    assert!(text.contains("B"));
}

#[test]
fn unprotect_replaces_placeholder_with_attribute_value() {
    let d = b"<tmx><header/><body><tu><seg><t5:n n=\"&lt;ph/&gt;\"/></seg></tu></body></tmx>"
        .to_vec();
    let out = tmx_trimmer::concat(&vec![d], true).unwrap();
    let text = String::from_utf8_lossy(&out).to_string();
    assert!(text.contains("<seg>&lt;ph/&gt;</seg>"));
    assert!(!text.contains("t5:n"));
}

#[test]
fn protected_placeholder_is_kept_verbatim() {
    let d = b"<tmx><header/><body><tu><seg><t5:n n=\"&lt;ph/&gt;\"/></seg></tu></body></tmx>"
        .to_vec();
    let out = tmx_trimmer::concat(&vec![d.clone()], false).unwrap();
    let text = String::from_utf8_lossy(&out).to_string();
    assert!(text.contains("<t5:n n=\"&lt;ph/&gt;\"/>"));
}

#[test]
fn placeholder_without_attribute_is_kept_even_when_unprotecting() {
    let d = b"<tmx><header/><body><tu><seg><t5:n/></seg></tu></body></tmx>".to_vec();
    let out = tmx_trimmer::concat(&vec![d], true).unwrap();
    let text = String::from_utf8_lossy(&out).to_string();
    assert!(text.contains("<t5:n/>"));
}

#[test]
fn concat_no_input_is_an_error() {
    let r = tmx_trimmer::concat(&vec![], false);
    assert!(matches!(r, Err(TmxError::NoInput)));
}

#[test]
fn concat_without_body_is_an_error() {
    let d = b"<tmx><header/></tmx>".to_vec();
    let r = tmx_trimmer::concat(&vec![d], false);
    assert!(matches!(r, Err(TmxError::BodyNotFound)));
}

#[test]
fn concat_with_unclosed_body_is_an_error() {
    let d = b"<tmx><body><tu><seg>A</seg></tu>".to_vec();
    let r = tmx_trimmer::concat(&vec![d], false);
    assert!(matches!(r, Err(TmxError::BodyNotClosed)));
}

#[test]
fn concat_self_closing_body_is_degenerate_but_valid() {
    let d = b"<tmx><header/><body/></tmx>".to_vec();
    let d2 = doc_one_unit("X");
    let out = tmx_trimmer::concat(&vec![d, d2], false).unwrap();
    let text = String::from_utf8_lossy(&out).to_string();
    assert!(text.contains("<body/>"));
    assert!(text.contains("X"));
    assert!(text.ends_with("</body>\r</tmx>"));
}

#[test]
fn get_attribute_value_reads_first_match() {
    let content = b"tu creationid=\"A\" creationdate=\"20200101T000000Z\"";
    let r = tmx_trimmer::xmlio::get_attribute_value(content, 2, b"creationid");
    assert_eq!(r, Some(b"A".to_vec()));
    let r2 = tmx_trimmer::xmlio::get_attribute_value(content, 2, b"missing");
    assert_eq!(r2, None);
}
