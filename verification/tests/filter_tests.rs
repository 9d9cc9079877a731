use tmx_trimmer::filter;
use tmx_trimmer::keys::FilterOptions;

fn opts(skip_author: bool, skip_document: bool, skip_context: bool, keep_diff_targets: bool) -> FilterOptions {
    FilterOptions { skip_author, skip_document, skip_context, keep_diff_targets }
}

fn unit(author: &str, date: &str, src: &str, tgt: &str) -> String {
    format!(
        "<tu creationid=\"{}\" creationdate=\"{}\"><tuv xml:lang=\"en\"><seg>{}</seg></tuv><tuv xml:lang=\"de\"><seg>{}</seg></tuv></tu>",
        author, date, src, tgt
    )
}

fn doc(units: &[String]) -> Vec<u8> {
    let mut s = String::from("<?xml version=\"1.0\"?><tmx><header/><body>");
    for u in units {
        s.push_str(u);
    }
    s.push_str("</body></tmx>");
    s.into_bytes()
}

#[test]
fn duplicate_units_keep_later_creationdate() {
    // Two units share source text, author and (absent) provenance: the one
    // created in 2021 survives, the 2020 one is dropped.
    let u1 = unit("A", "20200101T000000Z", "Hello", "Hallo");
    let u2 = unit("A", "20210101T000000Z", "Hello", "Hallo zwei");
    let input = doc(&[u1.clone(), u2.clone()]);
    let out = filter(&input, opts(false, false, false, false)).unwrap();
    let expected = format!("\n{}</body>\r</tmx>", u2).into_bytes();
    assert_eq!(String::from_utf8_lossy(&out), String::from_utf8_lossy(&expected));
}

#[test]
fn first_capture_wins_timestamp_ties() {
    let u1 = unit("A", "20200101T000000Z", "Hello", "eins");
    let u2 = unit("A", "20200101T000000Z", "Hello", "zwei");
    let input = doc(&[u1.clone(), u2]);
    let out = filter(&input, opts(false, false, false, false)).unwrap();
    let expected = format!("\n{}</body>\r</tmx>", u1).into_bytes();
    assert_eq!(String::from_utf8_lossy(&out), String::from_utf8_lossy(&expected));
}

#[test]
fn differing_targets_kept_apart_when_asked() {
    let u1 = unit("A", "20200101T000000Z", "Hello", "Hallo");
    let u2 = unit("A", "20210101T000000Z", "Hello", "Hallo zwei");
    let input = doc(&[u1.clone(), u2.clone()]);
    let out = filter(&input, opts(false, false, false, true)).unwrap();
    // both survive, emitted in ascending timestamp order
    let expected = format!("\n{}\n{}</body>\r</tmx>", u1, u2).into_bytes();
    assert_eq!(String::from_utf8_lossy(&out), String::from_utf8_lossy(&expected));
}

#[test]
fn different_authors_do_not_collide() {
    let u1 = unit("A", "20200101T000000Z", "Hello", "x");
    let u2 = unit("B", "20210101T000000Z", "Hello", "x");
    let input = doc(&[u1.clone(), u2.clone()]);
    let out = filter(&input, opts(false, false, false, false)).unwrap();
    let expected = format!("\n{}\n{}</body>\r</tmx>", u1, u2).into_bytes();
    assert_eq!(String::from_utf8_lossy(&out), String::from_utf8_lossy(&expected));
}

#[test]
fn author_case_is_ignored_in_the_key() {
    let u1 = unit("alice", "20200101T000000Z", "Hello", "x");
    let u2 = unit("ALICE", "20210101T000000Z", "Hello", "x");
    let input = doc(&[u1, u2.clone()]);
    let out = filter(&input, opts(false, false, false, false)).unwrap();
    let expected = format!("\n{}</body>\r</tmx>", u2).into_bytes();
    assert_eq!(String::from_utf8_lossy(&out), String::from_utf8_lossy(&expected));
}

#[test]
fn skipping_author_collapses_across_authors() {
    let u1 = unit("A", "20200101T000000Z", "Hello", "x");
    let u2 = unit("B", "20210101T000000Z", "Hello", "x");
    let input = doc(&[u1, u2.clone()]);
    let out = filter(&input, opts(true, false, false, false)).unwrap();
    let expected = format!("\n{}</body>\r</tmx>", u2).into_bytes();
    assert_eq!(String::from_utf8_lossy(&out), String::from_utf8_lossy(&expected));
}

#[test]
fn missing_and_empty_context_collide() {
    // The first unit has no context prop at all; the second carries an
    // explicitly empty one. Both hash context as "-" and collide.
    let u1 = unit("A", "20200101T000000Z", "Hello", "x");
    let u2 = format!(
        "<tu creationid=\"A\" creationdate=\"20210101T000000Z\"><prop type=\"tmgr:context\"></prop><tuv xml:lang=\"en\"><seg>Hello</seg></tuv><tuv xml:lang=\"de\"><seg>x</seg></tuv></tu>"
    );
    let input = doc(&[u1, u2.clone()]);
    let out = filter(&input, opts(false, false, false, false)).unwrap();
    let expected = format!("\n{}</body>\r</tmx>", u2).into_bytes();
    assert_eq!(String::from_utf8_lossy(&out), String::from_utf8_lossy(&expected));
}

#[test]
fn different_contexts_do_not_collide() {
    let u1 = format!(
        "<tu creationid=\"A\" creationdate=\"20200101T000000Z\"><prop type=\"tmgr:context\">k1</prop><tuv xml:lang=\"en\"><seg>Hello</seg></tuv></tu>"
    );
    let u2 = format!(
        "<tu creationid=\"A\" creationdate=\"20210101T000000Z\"><prop type=\"tmgr:context\">k2</prop><tuv xml:lang=\"en\"><seg>Hello</seg></tuv></tu>"
    );
    let input = doc(&[u1.clone(), u2.clone()]);
    let out = filter(&input, opts(false, false, false, false)).unwrap();
    let expected = format!("\n{}\n{}</body>\r</tmx>", u1, u2).into_bytes();
    assert_eq!(String::from_utf8_lossy(&out), String::from_utf8_lossy(&expected));
}

#[test]
fn docname_prop_distinguishes_units() {
    let u1 = format!(
        "<tu creationdate=\"20200101T000000Z\"><prop type=\"tmgr:docname\">d1</prop><tuv xml:lang=\"en\"><seg>Hello</seg></tuv></tu>"
    );
    let u2 = format!(
        "<tu creationdate=\"20210101T000000Z\"><prop type=\"tmgr:docname\">d2</prop><tuv xml:lang=\"en\"><seg>Hello</seg></tuv></tu>"
    );
    let input = doc(&[u1.clone(), u2.clone()]);
    let out = filter(&input, opts(false, false, false, false)).unwrap();
    let expected = format!("\n{}\n{}</body>\r</tmx>", u1, u2).into_bytes();
    assert_eq!(String::from_utf8_lossy(&out), String::from_utf8_lossy(&expected));
}

#[test]
fn emission_is_sorted_by_ascending_timestamp() {
    let u1 = unit("A", "20220101T000000Z", "late", "x");
    let u2 = unit("A", "20200101T000000Z", "early", "x");
    let u3 = unit("A", "20210101T000000Z", "middle", "x");
    let input = doc(&[u1.clone(), u2.clone(), u3.clone()]);
    let out = filter(&input, opts(false, false, false, false)).unwrap();
    let expected = format!("\n{}\n{}\n{}</body>\r</tmx>", u2, u3, u1).into_bytes();
    assert_eq!(String::from_utf8_lossy(&out), String::from_utf8_lossy(&expected));
}

#[test]
fn filtering_twice_is_idempotent() {
    let u1 = unit("A", "20210101T000000Z", "Hello", "Hallo");
    let u2 = unit("A", "20200101T000000Z", "other", "anders");
    let input = doc(&[u1, u2]);
    let o = opts(false, false, false, false);
    let once = filter(&input, o).unwrap();
    let twice = filter(&once, o).unwrap();
    assert_eq!(String::from_utf8_lossy(&twice), String::from_utf8_lossy(&once));
}

#[test]
fn self_closing_units_are_dropped_silently() {
    let input = b"<tmx><body><tu/><tu creationdate=\"20200101T000000Z\"><tuv xml:lang=\"en\"><seg>a</seg></tuv></tu></body></tmx>".to_vec();
    let out = filter(&input, opts(false, false, false, false)).unwrap();
    let text = String::from_utf8_lossy(&out).to_string();
    assert!(!text.contains("<tu/>"));
    assert!(text.contains("<seg>a</seg>"));
}

#[test]
fn unparseable_timestamp_counts_as_zero() {
    // The unit with a broken date sorts before the 1971 one.
    let u1 = unit("A", "20210101T000000Z", "one", "x");
    let u2 = unit("B", "not-a-date", "two", "x");
    let input = doc(&[u1.clone(), u2.clone()]);
    let out = filter(&input, opts(false, false, false, false)).unwrap();
    let expected = format!("\n{}\n{}</body>\r</tmx>", u2, u1).into_bytes();
    assert_eq!(String::from_utf8_lossy(&out), String::from_utf8_lossy(&expected));
}

#[test]
fn parse_timestamp_matches_known_epochs() {
    let p = |s: &[u8]| tmx_trimmer::timestamp::parse_timestamp(&Some(s.to_vec()));
    assert_eq!(p(b"19700101T000000Z"), 0);
    assert_eq!(p(b"20200101T000000Z"), 1577836800);
    assert_eq!(p(b"20210101T000000Z"), 1609459200);
    assert_eq!(p(b"20200229T000000Z"), 1582934400);
    assert_eq!(p(b"20160323T152428Z"), 1458746668);
    assert_eq!(p(b"19691231T235959Z"), -1);
    assert_eq!(p(b"20210229T000000Z"), 0);
    assert_eq!(p(b"2021"), 0);
    assert_eq!(p(b"garbage-garbage-"), 0);
    assert_eq!(tmx_trimmer::timestamp::parse_timestamp(&None), 0);
}
