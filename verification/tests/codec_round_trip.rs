use walkthrough_archive::{
    decode_archive, encode_archive, load_archive_content, DecodeError, IssueArchive,
    WalkthroughArticle,
};

fn article(title: &str, link: &str) -> WalkthroughArticle {
    WalkthroughArticle { title: title.to_string(), link: link.to_string() }
}

#[test]
fn encode_empty_archive() {
    let a = IssueArchive::new();
    assert_eq!(encode_archive(&a), "{}");
}

#[test]
fn encode_one_entry_exactly() {
    let mut a = IssueArchive::new();
    a.insert("u".to_string(), vec![article("t", "l")]);
    assert_eq!(encode_archive(&a), "{\"u\":[{\"title\":\"t\",\"link\":\"l\"}]}");
}

#[test]
fn encode_escapes_quote_and_backslash() {
    let mut a = IssueArchive::new();
    a.insert("u".to_string(), vec![article("say \"hi\"", "a\\b")]);
    assert_eq!(
        encode_archive(&a),
        "{\"u\":[{\"title\":\"say \\\"hi\\\"\",\"link\":\"a\\\\b\"}]}"
    );
}

#[test]
fn round_trip_returns_equal_archive() {
    let mut a = IssueArchive::new();
    a.insert(
        "https://example.com/1".to_string(),
        vec![article("Article A", "/a"), article("B \"quoted\" \\ title", "/b?x=1&y=2")],
    );
    a.insert("https://example.com/2".to_string(), Vec::new());
    let text = encode_archive(&a);
    let b = decode_archive(&text).unwrap();
    assert_eq!(b, a);
}

#[test]
fn round_trip_empty_archive() {
    let a = IssueArchive::new();
    let b = decode_archive(&encode_archive(&a)).unwrap();
    assert_eq!(b, a);
}

#[test]
fn decode_rejects_malformed_text() {
    assert!(decode_archive("not a cache file").is_none());
    assert!(decode_archive("{\"u\":[").is_none());
    assert!(decode_archive("{} ").is_none());
}

#[test]
fn decode_rejects_duplicate_links() {
    let text = "{\"u\":[],\"u\":[]}";
    assert!(decode_archive(text).is_none());
}

#[test]
fn load_absent_and_empty_yield_nothing() {
    // A missing cache file, and an empty one, both mean "no cache yet".
    assert!(load_archive_content(None).unwrap().is_none());
    assert!(load_archive_content(Some("")).unwrap().is_none());
}

#[test]
fn load_after_save_returns_saved_archive() {
    // Scenario: the first load finds nothing; after a crawl is saved, a
    // second load returns the saved archive unchanged.
    assert!(load_archive_content(None).unwrap().is_none());
    let mut crawled = IssueArchive::new();
    crawled.insert("https://example.com/1".to_string(), vec![article("A", "/a")]);
    let saved = encode_archive(&crawled);
    let loaded = load_archive_content(Some(&saved)).unwrap().unwrap();
    assert_eq!(loaded, crawled);
}

#[test]
fn load_malformed_is_an_error() {
    assert_eq!(load_archive_content(Some("{{")), Err(DecodeError::Malformed));
}
