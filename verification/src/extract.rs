//! Locating the walkthrough section of an issue page and pulling its article
//! records out, and discovering the per-issue links of the archive index page.
//!
//! Both walks run over the flat document model of [`crate::dom`]. The index
//! walk is strict: a post-title container without an anchored link is an
//! error. The issue walk is lenient: a missing walkthrough heading yields an
//! empty record sequence, and a list item without an anchor is skipped.

use vstd::prelude::*;

use crate::article::{ArticleView, WalkthroughArticle};
use crate::dom::{doc_wf, HtmlDoc, NodeView};
use crate::textops::{str_eq, trim, trim_spec, vec_contains_str};

verus! {

/// Why a document's structure defeated discovery or extraction.
#[derive(Debug, Clone, Copy, PartialEq, Eq, Structural)]
pub enum ExtractError {
    /// The document model is not well formed.
    MalformedDocument,
    /// A post-title container of the index page holds no anchor with a target.
    MissingAnchor,
    /// The walkthrough heading is present but no list follows it.
    MissingList,
}

/// An index-page container that carries one issue link.
pub open spec fn is_post_title(n: NodeView) -> bool {
    n.tag == "div"@ && n.classes.contains("post-title"@)
}

/// A list element.
pub open spec fn is_list_tag(t: Seq<char>) -> bool {
    t == "ul"@ || t == "ol"@
}

/// The target of the first anchor among the nodes of `[lo, hi)`: `None` where
/// no anchor stands there, or where the first one carries no `href`.
pub open spec fn anchor_href_in(doc: Seq<NodeView>, lo: int, hi: int) -> Option<Seq<char>>
    decreases hi - lo,
{
    if lo >= hi || lo < 0 || lo >= doc.len() {
        Option::None
    } else if doc[lo].tag == "a"@ {
        doc[lo].href
    } else {
        anchor_href_in(doc, lo + 1, hi)
    }
}

/// Folds the document from node `i` on, appending one link for every
/// post-title container, in document order; the first container without an
/// anchored link is an error.
pub open spec fn discover_from(
    doc: Seq<NodeView>,
    i: int,
    acc: Seq<Seq<char>>,
) -> Result<Seq<Seq<char>>, ExtractError>
    decreases doc.len() - i,
{
    if i < 0 || i >= doc.len() {
        Ok(acc)
    } else if is_post_title(doc[i]) {
        match anchor_href_in(doc, i + 1, doc[i].subtree_end) {
            Option::None => Err(ExtractError::MissingAnchor),
            Option::Some(h) => discover_from(doc, i + 1, acc.push(h)),
        }
    } else {
        discover_from(doc, i + 1, acc)
    }
}

/// What discovery returns on an index page: every post-title container's
/// first anchored link, in document order.
pub open spec fn discover_spec(doc: Seq<NodeView>) -> Result<Seq<Seq<char>>, ExtractError> {
    if !doc_wf(doc) {
        Err(ExtractError::MalformedDocument)
    } else {
        discover_from(doc, 0, Seq::empty())
    }
}

/// The first node from `i` on whose `id` is the walkthrough marker.
pub open spec fn find_heading_from(doc: Seq<NodeView>, i: int) -> Option<int>
    decreases doc.len() - i,
{
    if i < 0 || i >= doc.len() {
        Option::None
    } else if doc[i].id == "rust-walkthroughs"@ {
        Option::Some(i)
    } else {
        find_heading_from(doc, i + 1)
    }
}

/// The first list element from `i` on, in document order.
pub open spec fn find_list_from(doc: Seq<NodeView>, i: int) -> Option<int>
    decreases doc.len() - i,
{
    if i < 0 || i >= doc.len() {
        Option::None
    } else if is_list_tag(doc[i].tag) {
        Option::Some(i)
    } else {
        find_list_from(doc, i + 1)
    }
}

/// The record of the list item at `j`: its trimmed visible text and the
/// target of its first anchor, or `None` where it has no anchored,
/// non-empty target — a record never carries an empty link.
pub open spec fn record_at(doc: Seq<NodeView>, j: int) -> Option<ArticleView> {
    match anchor_href_in(doc, j + 1, doc[j].subtree_end) {
        Option::None => Option::None,
        Option::Some(h) => if h.len() > 0 {
            Option::Some(ArticleView { title: trim_spec(doc[j].text), link: h })
        } else {
            Option::None
        },
    }
}

/// One optional record per list item of `[lo, hi)`, in document order.
pub open spec fn item_results(doc: Seq<NodeView>, lo: int, hi: int) -> Seq<Option<ArticleView>>
    decreases hi - lo,
{
    if lo >= hi || lo < 0 || lo >= doc.len() {
        Seq::empty()
    } else if doc[lo].tag == "li"@ {
        seq![record_at(doc, lo)] + item_results(doc, lo + 1, hi)
    } else {
        item_results(doc, lo + 1, hi)
    }
}

/// Keeps the present values of an optional sequence, in order.
pub open spec fn collect_present<A>(s: Seq<Option<A>>) -> Seq<A>
    decreases s.len(),
{
    if s.len() == 0 {
        Seq::empty()
    } else {
        match s[0] {
            Option::None => collect_present(s.drop_first()),
            Option::Some(x) => seq![x] + collect_present(s.drop_first()),
        }
    }
}

/// What extraction returns on an issue page. No walkthrough marker anywhere
/// is the common, non-error case: an empty record sequence. With a marker,
/// the records come from the list items of the nearest list element that
/// follows the heading's subtree in document order; items without an anchored
/// target are skipped.
pub open spec fn extract_spec(doc: Seq<NodeView>) -> Result<Seq<ArticleView>, ExtractError> {
    if !doc_wf(doc) {
        Err(ExtractError::MalformedDocument)
    } else {
        match find_heading_from(doc, 0) {
            Option::None => Ok(Seq::empty()),
            Option::Some(h) => match find_list_from(doc, doc[h].subtree_end) {
                Option::None => Err(ExtractError::MissingList),
                Option::Some(l) => Ok(
                    collect_present(item_results(doc, l + 1, doc[l].subtree_end)),
                ),
            },
        }
    }
}

/// The mathematical value of a discovery result.
pub open spec fn links_view(r: Result<Vec<String>, ExtractError>) -> Result<
    Seq<Seq<char>>,
    ExtractError,
> {
    match r {
        Ok(v) => Ok(v.deep_view()),
        Err(e) => Err(e),
    }
}

/// The mathematical value of an extraction result.
pub open spec fn articles_view(r: Result<Vec<WalkthroughArticle>, ExtractError>) -> Result<
    Seq<ArticleView>,
    ExtractError,
> {
    match r {
        Ok(v) => Ok(v.deep_view()),
        Err(e) => Err(e),
    }
}

/// The target of the first anchor among the nodes of `[lo, hi)`.
fn first_anchor_href(doc: &HtmlDoc, lo: usize, hi: usize) -> (r: Option<String>)
    requires
        hi <= doc@.len(),
    ensures
        r.deep_view() == anchor_href_in(doc@, lo as int, hi as int),
{
    let mut j: usize = lo;
    while j < hi
        invariant
            lo <= j,
            hi <= doc@.len(),
            doc@ == doc.nodes.deep_view(),
            anchor_href_in(doc@, lo as int, hi as int) == anchor_href_in(
                doc@,
                j as int,
                hi as int,
            ),
        decreases hi - j,
    {
        assert(doc@[j as int] == doc.nodes.deep_view()[j as int]);
        if str_eq(doc.nodes[j].tag.as_str(), "a") {
            match &doc.nodes[j].href {
                Option::Some(h) => {
                    return Option::Some(h.clone());
                },
                Option::None => {
                    return Option::None;
                },
            }
        }
        j = j + 1;
    }
    Option::None
}

/// Finds the walkthrough heading.
fn find_heading(doc: &HtmlDoc) -> (r: Option<usize>)
    ensures
        match r {
            Option::Some(i) => find_heading_from(doc@, 0) == Option::Some(i as int) && i
                < doc@.len(),
            Option::None => find_heading_from(doc@, 0) == Option::<int>::None,
        },
{
    let n: usize = doc.nodes.len();
    let mut i: usize = 0;
    while i < n
        invariant
            0 <= i <= n,
            n == doc@.len(),
            doc@ == doc.nodes.deep_view(),
            find_heading_from(doc@, 0) == find_heading_from(doc@, i as int),
        decreases n - i,
    {
        assert(doc@[i as int] == doc.nodes.deep_view()[i as int]);
        if str_eq(doc.nodes[i].id.as_str(), "rust-walkthroughs") {
            return Option::Some(i);
        }
        i = i + 1;
    }
    Option::None
}

/// Finds the nearest list element at or after node `from`.
fn find_list(doc: &HtmlDoc, from: usize) -> (r: Option<usize>)
    ensures
        match r {
            Option::Some(i) => find_list_from(doc@, from as int) == Option::Some(i as int)
                && from <= i < doc@.len(),
            Option::None => find_list_from(doc@, from as int) == Option::<int>::None,
        },
{
    let n: usize = doc.nodes.len();
    let mut i: usize = from;
    while i < n
        invariant
            from <= i,
            n == doc@.len(),
            doc@ == doc.nodes.deep_view(),
            find_list_from(doc@, from as int) == find_list_from(doc@, i as int),
        decreases n - i,
    {
        assert(doc@[i as int] == doc.nodes.deep_view()[i as int]);
        if str_eq(doc.nodes[i].tag.as_str(), "ul") || str_eq(doc.nodes[i].tag.as_str(), "ol") {
            return Option::Some(i);
        }
        i = i + 1;
    }
    Option::None
}

/// Discovers the per-issue links of the archive index page: for every
/// post-title container, the target of its first anchor, in document order.
/// A container without an anchored target is a fatal structural error, as is
/// a model that is not well formed.
pub fn discover_issue_links(doc: &HtmlDoc) -> (r: Result<Vec<String>, ExtractError>)
    ensures
        links_view(r) == discover_spec(doc@),
{
    if !doc.is_well_formed() {
        return Err(ExtractError::MalformedDocument);
    }
    let n: usize = doc.nodes.len();
    let mut links: Vec<String> = Vec::new();
    proof {
        assert(links.deep_view() =~= Seq::<Seq<char>>::empty());
    }
    let mut i: usize = 0;
    while i < n
        invariant
            0 <= i <= n,
            n == doc@.len(),
            doc@ == doc.nodes.deep_view(),
            doc_wf(doc@),
            discover_from(doc@, 0, Seq::empty()) == discover_from(
                doc@,
                i as int,
                links.deep_view(),
            ),
        decreases n - i,
    {
        assert(doc@[i as int] == doc.nodes.deep_view()[i as int]);
        if str_eq(doc.nodes[i].tag.as_str(), "div") && vec_contains_str(
            &doc.nodes[i].classes,
            "post-title",
        ) {
            assert(is_post_title(doc@[i as int]));
            let hi: usize = doc.nodes[i].subtree_end;
            assert(hi == doc@[i as int].subtree_end && hi <= n);
            match first_anchor_href(doc, i + 1, hi) {
                Option::None => {
                    return Err(ExtractError::MissingAnchor);
                },
                Option::Some(h) => {
                    let ghost pre = links.deep_view();
                    let ghost hv = h@;
                    links.push(h);
                    proof {
                        assert(links.deep_view() =~= pre.push(hv));
                    }
                },
            }
        }
        i = i + 1;
    }
    Ok(links)
}

/// Extracts the walkthrough article records of one issue page. An issue
/// without the walkthrough marker yields an empty sequence; list items
/// without an anchored target are skipped; a marker with no following list,
/// or a model that is not well formed, is a structural error.
pub fn extract_walkthrough_articles(doc: &HtmlDoc) -> (r: Result<
    Vec<WalkthroughArticle>,
    ExtractError,
>)
    ensures
        articles_view(r) == extract_spec(doc@),
{
    if !doc.is_well_formed() {
        return Err(ExtractError::MalformedDocument);
    }
    let n: usize = doc.nodes.len();
    let heading: usize = match find_heading(doc) {
        Option::None => {
            let no_articles: Vec<WalkthroughArticle> = Vec::new();
            proof {
                assert(no_articles.deep_view() =~= Seq::<ArticleView>::empty());
            }
            return Ok(no_articles);
        },
        Option::Some(h) => h,
    };
    assert(0 <= heading < doc@.len() && heading < doc@[heading as int].subtree_end <= n);
    let heading_end: usize = doc.nodes[heading].subtree_end;
    let list: usize = match find_list(doc, heading_end) {
        Option::None => {
            return Err(ExtractError::MissingList);
        },
        Option::Some(l) => l,
    };
    let list_end: usize = doc.nodes[list].subtree_end;
    assert(list_end == doc@[list as int].subtree_end && list < list_end <= n);
    let mut articles: Vec<WalkthroughArticle> = Vec::new();
    let mut j: usize = list + 1;
    while j < list_end
        invariant
            list < j,
            list_end <= n,
            n == doc@.len(),
            doc@ == doc.nodes.deep_view(),
            doc_wf(doc@),
            collect_present(item_results(doc@, list + 1, list_end as int)) =~= articles.deep_view()
                + collect_present(item_results(doc@, j as int, list_end as int)),
        decreases list_end - j,
    {
        assert(doc@[j as int] == doc.nodes.deep_view()[j as int]);
        let ghost items_here = item_results(doc@, j as int, list_end as int);
        if str_eq(doc.nodes[j].tag.as_str(), "li") {
            let item_end: usize = doc.nodes[j].subtree_end;
            assert(item_end == doc@[j as int].subtree_end && item_end <= n);
            let title: String = trim(doc.nodes[j].text.as_str());
            proof {
                assert(items_here == seq![record_at(doc@, j as int)] + item_results(
                    doc@,
                    j + 1,
                    list_end as int,
                ));
                assert(items_here.drop_first() =~= item_results(doc@, j + 1, list_end as int));
            }
            match first_anchor_href(doc, j + 1, item_end) {
                Option::None => {
                    assert(record_at(doc@, j as int) is None);
                },
                Option::Some(h) => {
                    if h.unicode_len() > 0 {
                        assert(record_at(doc@, j as int) == Option::Some(
                            ArticleView { title: title@, link: h@ },
                        ));
                        let ghost pre = articles.deep_view();
                        let ghost av = ArticleView { title: title@, link: h@ };
                        articles.push(WalkthroughArticle { title, link: h });
                        proof {
                            assert(articles.deep_view() =~= pre.push(av));
                            assert(pre.push(av) =~= pre + seq![av]);
                        }
                    } else {
                        assert(record_at(doc@, j as int) is None);
                    }
                },
            }
        }
        j = j + 1;
    }
    proof {
        assert(item_results(doc@, j as int, list_end as int) == Seq::<Option<ArticleView>>::empty());
        assert(articles.deep_view() + Seq::<ArticleView>::empty() =~= articles.deep_view());
    }
    Ok(articles)
}

/// Law: an issue page whose model has no walkthrough marker anywhere yields
/// an empty record sequence, never an error.
pub proof fn lemma_no_marker_extracts_empty(doc: Seq<NodeView>)
    requires
        doc_wf(doc),
        forall|i: int| 0 <= i < doc.len() ==> (#[trigger] doc[i]).id != "rust-walkthroughs"@,
    ensures
        extract_spec(doc) == Ok::<Seq<ArticleView>, ExtractError>(Seq::empty()),
{
    lemma_find_heading_none(doc, 0);
}

proof fn lemma_find_heading_none(doc: Seq<NodeView>, i: int)
    requires
        forall|k: int| 0 <= k < doc.len() ==> (#[trigger] doc[k]).id != "rust-walkthroughs"@,
    ensures
        find_heading_from(doc, i) == Option::<int>::None,
    decreases doc.len() - i,
{
    if 0 <= i < doc.len() {
        lemma_find_heading_none(doc, i + 1);
    }
}

/// Law: a list item without an anchor is silently omitted, and the records of
/// the items around it are exactly what they would be without it.
pub proof fn lemma_item_without_anchor_omitted<A>(
    before: Seq<Option<A>>,
    after: Seq<Option<A>>,
)
    ensures
        collect_present(before + seq![Option::<A>::None] + after) == collect_present(
            before + after,
        ),
    decreases before.len(),
{
    let whole = before + seq![Option::<A>::None] + after;
    if before.len() == 0 {
        assert(whole[0] is None);
        assert(whole.drop_first() =~= after);
        assert(before + after =~= after);
    } else {
        assert(whole[0] == before[0]);
        assert((before + after)[0] == before[0]);
        lemma_item_without_anchor_omitted(before.drop_first(), after);
        assert(whole.drop_first() =~= before.drop_first() + seq![Option::<A>::None] + after);
        assert((before + after).drop_first() =~= before.drop_first() + after);
    }
}

/// Whatever holds of every present value of `s` holds of every kept one.
proof fn lemma_collect_present_preserves<A>(s: Seq<Option<A>>, p: spec_fn(A) -> bool)
    requires
        forall|j: int| 0 <= j < s.len() ==> match #[trigger] s[j] {
            Option::Some(a) => p(a),
            Option::None => true,
        },
    ensures
        forall|k: int| 0 <= k < collect_present(s).len() ==> p(#[trigger] collect_present(s)[k]),
    decreases s.len(),
{
    if s.len() > 0 {
        assert(forall|j: int| 0 <= j < s.drop_first().len() ==> s.drop_first()[j] == s[j + 1]);
        lemma_collect_present_preserves(s.drop_first(), p);
        match s[0] {
            Option::None => {
                assert(collect_present(s) == collect_present(s.drop_first()));
            },
            Option::Some(x) => {
                assert(p(x));
                assert(collect_present(s) == seq![x] + collect_present(s.drop_first()));
                assert(collect_present(s)[0] == x);
                assert(forall|k: int|
                    1 <= k < collect_present(s).len() ==> #[trigger] collect_present(s)[k]
                        == collect_present(s.drop_first())[k - 1]);
            },
        }
    }
}

/// Every optional record of a list range carries a non-empty link.
proof fn lemma_item_results_links(doc: Seq<NodeView>, lo: int, hi: int)
    ensures
        forall|j: int|
            0 <= j < item_results(doc, lo, hi).len() ==> match #[trigger] item_results(
                doc,
                lo,
                hi,
            )[j] {
                Option::Some(a) => a.link.len() > 0,
                Option::None => true,
            },
    decreases hi - lo,
{
    if !(lo >= hi || lo < 0 || lo >= doc.len()) {
        lemma_item_results_links(doc, lo + 1, hi);
        if doc[lo].tag == "li"@ {
            assert(forall|j: int|
                1 <= j < item_results(doc, lo, hi).len() ==> #[trigger] item_results(
                    doc,
                    lo,
                    hi,
                )[j] == item_results(doc, lo + 1, hi)[j - 1]);
        }
    }
}

/// Law: a record never carries an empty link — every article that
/// extraction returns has one.
pub proof fn lemma_extracted_links_not_empty(doc: Seq<NodeView>)
    ensures
        match extract_spec(doc) {
            Ok(rs) => forall|k: int| 0 <= k < rs.len() ==> (#[trigger] rs[k]).link.len() > 0,
            Err(_) => true,
        },
{
    if doc_wf(doc) {
        match find_heading_from(doc, 0) {
            Option::None => {},
            Option::Some(h) => {
                match find_list_from(doc, doc[h].subtree_end) {
                    Option::None => {},
                    Option::Some(l) => {
                        let items = item_results(doc, l + 1, doc[l].subtree_end);
                        lemma_item_results_links(doc, l + 1, doc[l].subtree_end);
                        lemma_collect_present_preserves(
                            items,
                            |a: ArticleView| a.link.len() > 0,
                        );
                    },
                }
            },
        }
    }
}

/// Law: where every list item carries an anchored record, extraction keeps
/// them all, in document order: the k-th record is the k-th item's.
pub proof fn lemma_all_anchored_kept_in_order<A>(s: Seq<Option<A>>)
    requires
        forall|k: int| 0 <= k < s.len() ==> (#[trigger] s[k]) is Some,
    ensures
        collect_present(s).len() == s.len(),
        forall|k: int| 0 <= k < s.len() ==> s[k] == Option::Some(#[trigger] collect_present(s)[k]),
    decreases s.len(),
{
    if s.len() > 0 {
        lemma_all_anchored_kept_in_order(s.drop_first());
        let x = s[0]->Some_0;
        assert(collect_present(s) =~= seq![x] + collect_present(s.drop_first()));
        assert(forall|k: int|
            1 <= k < s.len() ==> #[trigger] collect_present(s)[k] == collect_present(
                s.drop_first(),
            )[k - 1]);
    }
}

} // verus!
