use docrank::error::ErrorKind;
use docrank::index::build;
use docrank::markup::{extract_text, join_characters, source_of_markup};

#[test]
fn markup_text_is_the_character_data_with_a_space_after_each_piece() {
    let markup = b"<doc><title>glClear</title><p>clear <b>buffers</b> to preset values</p></doc>";
    let text = extract_text(markup, "a.xml").unwrap();
    assert_eq!(text, "glClear clear  buffers  to preset values ");
}

#[test]
fn markup_without_character_data_has_an_empty_text() {
    assert_eq!(extract_text(b"<doc><empty/></doc>", "a.xml").unwrap(), "");
}

#[test]
fn markup_entities_are_resolved() {
    assert_eq!(extract_text(b"<a>x &lt; y &amp;&amp; z</a>", "a.xml").unwrap(), "x < y && z ");
}

#[test]
fn markup_that_cannot_be_parsed_is_an_extraction_error() {
    let error = extract_text(b"<doc><p>unclosed</doc>", "dir/broken.xml").unwrap_err();
    assert_eq!(error.kind, ErrorKind::Extraction);
    assert_eq!(error.path, "dir/broken.xml");
    assert!(extract_text(b"", "empty.xml").is_err());
    assert!(extract_text(b"no markup at all", "plain.txt").is_err());
    assert!(extract_text(&[0xff, 0xfe, 0x00], "bytes.bin").is_err());
}

#[test]
fn markup_join_characters_leaves_other_events_out() {
    let events = vec![None, Some("one".to_string()), None, Some("two".to_string()), None];
    assert_eq!(join_characters(&events), "one two ");
    assert_eq!(join_characters(&Vec::new()), "");
    assert_eq!(join_characters(&vec![None, None]), "");
    assert_eq!(join_characters(&vec![Some(String::new())]), " ");
}

#[test]
fn markup_source_has_no_text_where_the_markup_is_malformed() {
    let good = source_of_markup("good.xml".to_string(), b"<a>fine</a>");
    assert_eq!(good.path, "good.xml");
    assert_eq!(good.text, Some("fine ".to_string()));
    let bad = source_of_markup("bad.xml".to_string(), b"<a>");
    assert_eq!(bad.path, "bad.xml");
    assert_eq!(bad.text, None);
}

#[test]
fn markup_one_malformed_document_does_not_stop_the_build() {
    let sources = vec![
        source_of_markup("1.xml".to_string(), b"<a>alpha beta</a>"),
        source_of_markup("2.xml".to_string(), b"<a>alpha"),
        source_of_markup("3.xml".to_string(), b"<a>gamma</a>"),
    ];
    let built = build(&sources).unwrap();
    assert_eq!(built.index.len(), 2);
    assert_eq!(built.skipped, vec!["2.xml".to_string()]);
    assert_eq!(built.index.document_frequency("ALPHA"), 1);
}
