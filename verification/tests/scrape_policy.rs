use walkthrough_archive::{
    as_markdown_list, default_ignored_hosts, page_text_content, scrape_file_path, should_scrape,
    HtmlDoc, HtmlNode, WalkthroughArticle,
};

fn article(title: &str, link: &str) -> WalkthroughArticle {
    WalkthroughArticle { title: title.to_string(), link: link.to_string() }
}

#[test]
fn test_should_scrape() {
    // ignored host
    let result = should_scrape(
        &WalkthroughArticle {
            title: String::new(),
            link: "https://www.youtube.com/playlist?list=PL2F_NKy2ueKOpAVPl-c3szUXuwB7K9sDq"
                .to_string(),
        },
        &default_ignored_hosts(),
    );
    assert_eq!(result, false);

    // title contains "[Video]"
    let result = should_scrape(
        &WalkthroughArticle {
            title: "[Video] today i code rust".to_string(),
            link: String::new(),
        },
        &default_ignored_hosts(),
    );
    assert_eq!(result, false);
}

#[test]
fn should_scrape_accepts_ordinary_article() {
    let ignored = default_ignored_hosts();
    let a = article("A fine walkthrough", "https://example.com/post");
    assert!(should_scrape(&a, &ignored));
}

#[test]
fn should_scrape_rejects_unparsable_link() {
    let ignored = default_ignored_hosts();
    assert!(!should_scrape(&article("A", "not a url"), &ignored));
}

#[test]
fn should_scrape_honours_injected_ignore_list() {
    let ignored = vec!["example.com".to_string()];
    assert!(!should_scrape(&article("A", "https://example.com/post"), &ignored));
    assert!(should_scrape(&article("A", "https://example.org/post"), &ignored));
}

#[test]
fn scrape_file_path_slugs_the_link() {
    assert_eq!(
        scrape_file_path("output/scrape/", "https://example.com/My Post!"),
        "output/scrape/https-example-com-my-post"
    );
}

#[test]
fn markdown_list_formats_each_article() {
    let articles = vec![article("Article A", "/a"), article("Article B", "/b")];
    assert_eq!(as_markdown_list(&articles), "- [Article A](/a)\n- [Article B](/b)");
}

#[test]
fn markdown_list_of_nothing_is_empty() {
    assert_eq!(as_markdown_list(&Vec::new()), "");
}

fn node(tag: &str, text: &str, subtree_end: usize) -> HtmlNode {
    HtmlNode {
        tag: tag.to_string(),
        id: String::new(),
        classes: Vec::new(),
        href: None,
        text: text.to_string(),
        subtree_end,
    }
}

#[test]
fn page_text_keeps_wanted_tags_in_order() {
    let doc = HtmlDoc {
        nodes: vec![
            node("title", " A Page ", 1),
            node("div", "chrome", 2),
            node("p", "First paragraph.", 3),
            node("p", "   ", 4),
            node("ul", "a list", 5),
        ],
    };
    assert_eq!(page_text_content(&doc), "A Page\nFirst paragraph.\na list");
}

#[test]
fn page_text_of_unwanted_markup_is_empty() {
    let doc = HtmlDoc { nodes: vec![node("div", "only chrome", 1)] };
    assert_eq!(page_text_content(&doc), "");
}
