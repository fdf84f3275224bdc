use walkthrough_archive::{
    discover_issue_links, extract_walkthrough_articles, ExtractError, HtmlDoc, HtmlNode,
    WalkthroughArticle,
};

fn node(
    tag: &str,
    id: &str,
    classes: &[&str],
    href: Option<&str>,
    text: &str,
    subtree_end: usize,
) -> HtmlNode {
    HtmlNode {
        tag: tag.to_string(),
        id: id.to_string(),
        classes: classes.iter().map(|c| c.to_string()).collect(),
        href: href.map(|h| h.to_string()),
        text: text.to_string(),
        subtree_end,
    }
}

#[test]
fn discover_two_post_titles_in_order() {
    // An index page with two post-title containers, each holding one anchor.
    let doc = HtmlDoc {
        nodes: vec![
            node("div", "", &["post-title"], None, "Issue 1", 2),
            node("a", "", &[], Some("/issue/1"), "Issue 1", 2),
            node("div", "", &["post-title"], None, "Issue 2", 4),
            node("a", "", &[], Some("/issue/2"), "Issue 2", 4),
        ],
    };
    let links = discover_issue_links(&doc).unwrap();
    assert_eq!(links, vec!["/issue/1".to_string(), "/issue/2".to_string()]);
}

#[test]
fn discover_skips_unrelated_elements() {
    let doc = HtmlDoc {
        nodes: vec![
            node("h1", "", &[], None, "Archive", 1),
            node("div", "", &["post-title"], None, "Issue 1", 3),
            node("a", "", &[], Some("/issue/1"), "Issue 1", 3),
            node("p", "", &[], None, "footer", 4),
        ],
    };
    let links = discover_issue_links(&doc).unwrap();
    assert_eq!(links, vec!["/issue/1".to_string()]);
}

#[test]
fn discover_fails_on_post_title_without_anchor() {
    let doc = HtmlDoc {
        nodes: vec![
            node("div", "", &["post-title"], None, "Issue 1", 2),
            node("span", "", &[], None, "Issue 1", 2),
        ],
    };
    assert_eq!(discover_issue_links(&doc), Err(ExtractError::MissingAnchor));
}

#[test]
fn discover_rejects_malformed_model() {
    // A subtree that ends before its own node is not a well-formed model.
    let doc = HtmlDoc { nodes: vec![node("div", "", &["post-title"], None, "", 0)] };
    assert_eq!(discover_issue_links(&doc), Err(ExtractError::MalformedDocument));
}

#[test]
fn extract_walkthrough_list_skips_item_without_anchor() {
    // Scenario: a heading with the walkthrough id, then a list of two items,
    // one anchored and one not.
    let doc = HtmlDoc {
        nodes: vec![
            node("h4", "rust-walkthroughs", &[], None, "Rust Walkthroughs", 1),
            node("ul", "", &[], None, "", 5),
            node("li", "", &[], None, " Article A ", 4),
            node("a", "", &[], Some("/a"), "Article A", 4),
            node("li", "", &[], None, "Article B", 5),
        ],
    };
    let articles = extract_walkthrough_articles(&doc).unwrap();
    assert_eq!(
        articles,
        vec![WalkthroughArticle { title: "Article A".to_string(), link: "/a".to_string() }]
    );
}

#[test]
fn extract_without_marker_yields_empty() {
    let doc = HtmlDoc {
        nodes: vec![
            node("h4", "something-else", &[], None, "News", 1),
            node("ul", "", &[], None, "", 3),
            node("li", "", &[], None, "Article", 3),
        ],
    };
    let articles = extract_walkthrough_articles(&doc).unwrap();
    assert!(articles.is_empty());
}

#[test]
fn extract_keeps_document_order() {
    let doc = HtmlDoc {
        nodes: vec![
            node("h4", "rust-walkthroughs", &[], None, "Rust Walkthroughs", 1),
            node("ul", "", &[], None, "", 8),
            node("li", "", &[], None, "A", 4),
            node("a", "", &[], Some("/a"), "A", 4),
            node("li", "", &[], None, "B", 6),
            node("a", "", &[], Some("/b"), "B", 6),
            node("li", "", &[], None, "C", 8),
            node("a", "", &[], Some("/c"), "C", 8),
        ],
    };
    let articles = extract_walkthrough_articles(&doc).unwrap();
    let links: Vec<String> = articles.iter().map(|a| a.link.clone()).collect();
    assert_eq!(links, vec!["/a".to_string(), "/b".to_string(), "/c".to_string()]);
}

#[test]
fn extract_takes_nearest_following_list() {
    // The list the heading announces is not its immediate neighbour.
    let doc = HtmlDoc {
        nodes: vec![
            node("h4", "rust-walkthroughs", &[], None, "Rust Walkthroughs", 1),
            node("p", "", &[], None, "intro", 2),
            node("ol", "", &[], None, "", 5),
            node("li", "", &[], None, "A", 5),
            node("a", "", &[], Some("/a"), "A", 5),
        ],
    };
    let articles = extract_walkthrough_articles(&doc).unwrap();
    assert_eq!(articles.len(), 1);
    assert_eq!(articles[0].link, "/a");
}

#[test]
fn extract_fails_when_marker_has_no_list() {
    let doc = HtmlDoc {
        nodes: vec![
            node("h4", "rust-walkthroughs", &[], None, "Rust Walkthroughs", 1),
            node("p", "", &[], None, "nothing here", 2),
        ],
    };
    assert_eq!(extract_walkthrough_articles(&doc), Err(ExtractError::MissingList));
}

#[test]
fn extract_rejects_malformed_model() {
    let doc = HtmlDoc { nodes: vec![node("ul", "", &[], None, "", 9)] };
    assert_eq!(extract_walkthrough_articles(&doc), Err(ExtractError::MalformedDocument));
}

#[test]
fn extract_skips_item_whose_anchor_has_empty_target() {
    // A record never carries an empty link.
    let doc = HtmlDoc {
        nodes: vec![
            node("h4", "rust-walkthroughs", &[], None, "Rust Walkthroughs", 1),
            node("ul", "", &[], None, "", 6),
            node("li", "", &[], None, "A", 4),
            node("a", "", &[], Some(""), "A", 4),
            node("li", "", &[], None, "B", 6),
            node("a", "", &[], Some("/b"), "B", 6),
        ],
    };
    let articles = extract_walkthrough_articles(&doc).unwrap();
    assert_eq!(
        articles,
        vec![WalkthroughArticle { title: "B".to_string(), link: "/b".to_string() }]
    );
}

#[test]
fn extract_uses_first_anchor_of_item() {
    let doc = HtmlDoc {
        nodes: vec![
            node("h4", "rust-walkthroughs", &[], None, "Rust Walkthroughs", 1),
            node("ul", "", &[], None, "", 5),
            node("li", "", &[], None, "A", 5),
            node("a", "", &[], Some("/first"), "A", 4),
            node("a", "", &[], Some("/second"), "A", 5),
        ],
    };
    let articles = extract_walkthrough_articles(&doc).unwrap();
    assert_eq!(articles.len(), 1);
    assert_eq!(articles[0].link, "/first");
}
