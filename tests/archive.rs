use ereader::archive::{document_from_record, record_span, wilson_votes, ArchiveRecord};

fn record(likes: i64, dislikes: i64) -> ArchiveRecord {
    ArchiveRecord {
        id: 7,
        path: "p.epub".to_string(),
        author: "Ann".to_string(),
        title: None,
        description: None,
        status: "incomplete".to_string(),
        rating: "teen".to_string(),
        likes,
        dislikes,
        words: 42,
        tags: vec!["Comedy".to_string(), "Drama".to_string()],
    }
}

#[test]
fn record_span_skips_key_and_trailing_comma() {
    let line = br#""12":{"id":12},"#;
    assert_eq!(record_span(line), Some((5, 14)));
    assert_eq!(&line[5..14], br#"{"id":12}"#);
}

#[test]
fn record_span_keeps_closing_brace_at_end() {
    let line = br#"{"id":1}"#;
    assert_eq!(record_span(line), Some((0, 8)));
}

#[test]
fn record_span_of_marker_lines_is_none() {
    assert_eq!(record_span(b"{"), None);
    assert_eq!(record_span(b"}"), None);
    assert_eq!(record_span(b""), None);
}

#[test]
fn wilson_applies_only_with_likes() {
    assert_eq!(wilson_votes(10, 0), Some((10, 0)));
    assert_eq!(wilson_votes(0, 3), None);
    assert_eq!(wilson_votes(5, -1), None);
}

#[test]
fn record_defaults_fill_missing_fields() {
    let d = document_from_record(record(0, 3), 123);
    assert_eq!(d.title, "UNTITLED");
    assert_eq!(d.description, "");
    assert_eq!(d.wilson, 0);
    assert_eq!(d.author, "Ann");
    assert_eq!(d.words, 42);
    assert_eq!(d.tags, vec!["Comedy".to_string(), "Drama".to_string()]);
}

#[test]
fn record_keeps_given_wilson_when_it_applies() {
    let d = document_from_record(record(4, 1), 123);
    assert_eq!(d.wilson, 123);
    assert_eq!(d.status, "incomplete");
    assert_eq!(d.rating, "teen");
}
