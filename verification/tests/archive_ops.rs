use walkthrough_archive::{collect_archive, IssueArchive, IssueEntry, WalkthroughArticle};

fn article(title: &str, link: &str) -> WalkthroughArticle {
    WalkthroughArticle { title: title.to_string(), link: link.to_string() }
}

fn entry(link: &str, articles: Vec<WalkthroughArticle>) -> IssueEntry {
    IssueEntry { link: link.to_string(), articles }
}

#[test]
fn new_archive_is_empty() {
    let a = IssueArchive::new();
    assert!(a.is_empty());
    assert_eq!(a.issue_count(), 0);
    assert!(!a.contains_issue("https://example.com/1"));
    assert!(a.get("https://example.com/1").is_none());
}

#[test]
fn insert_and_get() {
    let mut a = IssueArchive::new();
    a.insert("https://example.com/1".to_string(), vec![article("A", "/a")]);
    a.insert("https://example.com/2".to_string(), Vec::new());
    assert!(!a.is_empty());
    assert_eq!(a.issue_count(), 2);
    assert_eq!(a.get("https://example.com/1").unwrap(), &vec![article("A", "/a")]);
    // An issue without a walkthrough section holds an empty record sequence.
    assert!(a.get("https://example.com/2").unwrap().is_empty());
    assert!(a.get("https://example.com/3").is_none());
}

#[test]
fn insert_same_link_replaces() {
    let mut a = IssueArchive::new();
    a.insert("https://example.com/1".to_string(), vec![article("A", "/a")]);
    a.insert("https://example.com/1".to_string(), vec![article("B", "/b")]);
    assert_eq!(a.issue_count(), 1);
    assert_eq!(a.get("https://example.com/1").unwrap(), &vec![article("B", "/b")]);
}

#[test]
fn collect_is_order_independent() {
    // Crawling [L1, L2] in either order yields the same key set and the same
    // records per key.
    let e1 = entry("https://example.com/1", vec![article("A", "/a")]);
    let e2 = entry("https://example.com/2", vec![article("B", "/b"), article("C", "/c")]);
    let forward = collect_archive(vec![e1, e2]);
    let e1 = entry("https://example.com/1", vec![article("A", "/a")]);
    let e2 = entry("https://example.com/2", vec![article("B", "/b"), article("C", "/c")]);
    let backward = collect_archive(vec![e2, e1]);
    assert_eq!(forward.issue_count(), 2);
    assert_eq!(backward.issue_count(), 2);
    for link in ["https://example.com/1", "https://example.com/2"] {
        assert_eq!(forward.get(link).unwrap(), backward.get(link).unwrap());
    }
}

#[test]
fn merge_with_disjoint_links_commutes() {
    let mut left = IssueArchive::new();
    left.insert("https://example.com/1".to_string(), vec![article("A", "/a")]);
    let mut right = IssueArchive::new();
    right.insert("https://example.com/2".to_string(), vec![article("B", "/b")]);

    let mut lr = IssueArchive::new();
    lr.merge(&left);
    lr.merge(&right);
    let mut rl = IssueArchive::new();
    rl.merge(&right);
    rl.merge(&left);

    assert_eq!(lr.issue_count(), 2);
    assert_eq!(rl.issue_count(), 2);
    for link in ["https://example.com/1", "https://example.com/2"] {
        assert_eq!(lr.get(link).unwrap(), rl.get(link).unwrap());
    }
}

#[test]
fn entries_keep_insertion_order() {
    let mut a = IssueArchive::new();
    a.insert("https://example.com/1".to_string(), Vec::new());
    a.insert("https://example.com/2".to_string(), Vec::new());
    let entries = a.entries();
    assert_eq!(entries.len(), 2);
    assert_eq!(entries[0].link, "https://example.com/1");
    assert_eq!(entries[1].link, "https://example.com/2");
}
