//! The structured record extracted from one walkthrough list item.

use vstd::prelude::*;

verus! {

/// The mathematical value of a [`WalkthroughArticle`]: its two strings as
/// character sequences.
pub ghost struct ArticleView {
    pub title: Seq<char>,
    pub link: Seq<char>,
}

/// One article reference from a walkthrough list: the item's visible title and
/// the target of its first anchor.
#[derive(Debug, Clone)]
pub struct WalkthroughArticle {
    pub title: String,
    pub link: String,
}

impl View for WalkthroughArticle {
    type V = ArticleView;

    open spec fn view(&self) -> ArticleView {
        ArticleView { title: self.title@, link: self.link@ }
    }
}

impl DeepView for WalkthroughArticle {
    type V = ArticleView;

    open spec fn deep_view(&self) -> ArticleView {
        self.view()
    }
}

impl PartialEq for WalkthroughArticle {
    fn eq(&self, other: &Self) -> (r: bool) {
        self.title == other.title && self.link == other.link
    }
}

impl vstd::std_specs::cmp::PartialEqSpecImpl for WalkthroughArticle {
    open spec fn obeys_eq_spec() -> bool {
        true
    }

    open spec fn eq_spec(&self, other: &Self) -> bool {
        self@ == other@
    }
}

impl Eq for WalkthroughArticle {}

} // verus!
