//! Deciding which article links the content export fetches, and where a
//! fetched page is stored.
//!
//! The ignore list is a parameter, not a constant: policy can change without
//! touching this logic. [`default_ignored_hosts`] is the stock list.

use vstd::prelude::*;
use vstd::string::StringExecFns;

use crate::article::{ArticleView, WalkthroughArticle};
use crate::textops::{contains_chars, contains_str, vec_contains_str};

verus! {

/// The registrable domain of a URL string, where the string parses as a URL
/// and its host is a domain name.
pub uninterp spec fn domain_of(s: Seq<char>) -> Option<Seq<char>>;

/// Relies on `url::Url::parse` and `url::Url::domain`: whether a string
/// parses, and what domain the parsed URL carries, depend on the string
/// alone.
#[verifier::external_body]
fn url_domain(link: &str) -> (r: Option<String>)
    ensures
        r.deep_view() == domain_of(link@),
{
    match url::Url::parse(link) {
        Err(_) => None,
        Ok(u) => u.domain().map(|d| d.to_string()),
    }
}

/// The ascii slug of a string, as the file name of a fetched page.
pub uninterp spec fn slug_of(s: Seq<char>) -> Seq<char>;

/// Relies on `slug::slugify`: the slug — lower-case ascii letters, digits
/// and dashes — is a function of the string alone.
#[verifier::external_body]
fn slugify(s: &str) -> (r: String)
    ensures
        r@ == slug_of(s@),
{
    slug::slugify(s)
}

/// The marker with which video links open their titles.
pub open spec fn video_marker() -> Seq<char> {
    seq!['[', 'V', 'i', 'd', 'e', 'o', ']']
}

/// Whether an article's page should be fetched: its title does not carry the
/// video marker, and its link has a domain that is not ignored.
pub open spec fn should_scrape_spec(a: ArticleView, ignored: Seq<Seq<char>>) -> bool {
    !contains_chars(a.title, video_marker()) && match domain_of(a.link) {
        Option::None => false,
        Option::Some(d) => !ignored.contains(d),
    }
}

/// Decides whether an article's page should be fetched.
pub fn should_scrape(article: &WalkthroughArticle, ignored_hosts: &Vec<String>) -> (r: bool)
    ensures
        r == should_scrape_spec(article@, ignored_hosts.deep_view()),
{
    proof {
        reveal_strlit("[Video]");
        assert("[Video]"@ =~= video_marker());
    }
    if contains_str(article.title.as_str(), "[Video]") {
        return false;
    }
    match url_domain(article.link.as_str()) {
        Option::None => false,
        Option::Some(d) => !vec_contains_str(ignored_hosts, d.as_str()),
    }
}

/// The stock ignore list: the video and aggregator hosts the export skips.
pub open spec fn default_ignored_hosts_spec() -> Seq<Seq<char>> {
    seq![
        "medium.com"@,
        "www.medium.com"@,
        "youtube.com"@,
        "www.youtube.com"@,
        "youtu.be"@,
        "www.youtu.be"@,
    ]
}

/// Builds the stock ignore list.
pub fn default_ignored_hosts() -> (r: Vec<String>)
    ensures
        r.deep_view() == default_ignored_hosts_spec(),
{
    let mut r: Vec<String> = Vec::new();
    r.push("medium.com".to_owned());
    r.push("www.medium.com".to_owned());
    r.push("youtube.com".to_owned());
    r.push("www.youtube.com".to_owned());
    r.push("youtu.be".to_owned());
    r.push("www.youtu.be".to_owned());
    proof {
        assert(r.deep_view() =~= default_ignored_hosts_spec());
    }
    r
}

/// The file under which a fetched page is stored: the output directory
/// followed by the slug of the link.
pub fn scrape_file_path(dir: &str, link: &str) -> (r: String)
    ensures
        r@ == dir@ + slug_of(link@),
{
    let mut out: String = dir.to_owned();
    let s: String = slugify(link);
    out.append(s.as_str());
    out
}

} // verus!
