//! A verified crawl-and-extract pipeline for a newsletter's "Rust Walkthrough"
//! sections: discovering per-issue links from an archive index page, pulling
//! structured article records out of each issue page, merging the per-issue
//! results into one archive, and encoding that archive for a local cache.

use vstd::prelude::*;

mod archive;
mod article;
mod codec;
mod content;
mod dom;
mod extract;
mod scrape;
mod textops;

pub use archive::{
    collect_archive, lemma_collect_order_independent, lemma_disjoint_merge_commutes, IssueArchive,
    IssueEntry,
};
pub use article::WalkthroughArticle;
pub use codec::{
    decode_archive, encode_archive, lemma_encode_decode_round_trip, load_archive_content,
    DecodeError,
};
pub use content::{as_markdown_list, page_text_content};
pub use dom::{HtmlDoc, HtmlNode};
pub use extract::{
    discover_issue_links, extract_walkthrough_articles, lemma_all_anchored_kept_in_order,
    lemma_extracted_links_not_empty, lemma_item_without_anchor_omitted,
    lemma_no_marker_extracts_empty, ExtractError,
};
pub use scrape::{default_ignored_hosts, scrape_file_path, should_scrape};

verus! {

} // verus!
