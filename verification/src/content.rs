//! Reducing a fetched page to plain text for the content export, and
//! printing an article list as markdown.

use vstd::prelude::*;

use crate::article::{ArticleView, WalkthroughArticle};
use crate::dom::{HtmlDoc, NodeView};
use crate::textops::{
    chars_to_string, join_lines, join_with_newlines, str_eq, str_to_chars, trim, trim_spec,
};

verus! {

/// The element names whose text the export keeps.
pub open spec fn wanted_tag(t: Seq<char>) -> bool {
    t == "title"@ || t == "p"@ || t == "ul"@ || t == "ol"@
}

/// The trimmed, non-empty texts of the kept elements, in document order.
pub open spec fn content_pieces(doc: Seq<NodeView>, i: int) -> Seq<Seq<char>>
    decreases doc.len() - i,
{
    if i < 0 || i >= doc.len() {
        Seq::empty()
    } else if wanted_tag(doc[i].tag) && trim_spec(doc[i].text).len() > 0 {
        seq![trim_spec(doc[i].text)] + content_pieces(doc, i + 1)
    } else {
        content_pieces(doc, i + 1)
    }
}

/// The text export of a page: the kept texts joined with newlines.
pub open spec fn page_text_spec(doc: Seq<NodeView>) -> Seq<char> {
    join_lines(content_pieces(doc, 0))
}

/// Reduces a page to the trimmed texts of its title, paragraph and list
/// elements, one per line.
pub fn page_text_content(doc: &HtmlDoc) -> (r: String)
    ensures
        r@ == page_text_spec(doc@),
{
    let n: usize = doc.nodes.len();
    let mut pieces: Vec<String> = Vec::new();
    proof {
        assert(pieces.deep_view() =~= Seq::<Seq<char>>::empty());
    }
    let mut i: usize = 0;
    while i < n
        invariant
            0 <= i <= n,
            n == doc@.len(),
            doc@ == doc.nodes.deep_view(),
            content_pieces(doc@, 0) == pieces.deep_view() + content_pieces(doc@, i as int),
        decreases n - i,
    {
        assert(doc@[i as int] == doc.nodes.deep_view()[i as int]);
        let tag: &str = doc.nodes[i].tag.as_str();
        if str_eq(tag, "title") || str_eq(tag, "p") || str_eq(tag, "ul") || str_eq(tag, "ol") {
            let t: String = trim(doc.nodes[i].text.as_str());
            if t.unicode_len() > 0 {
                let ghost pre = pieces.deep_view();
                let ghost tv = t@;
                pieces.push(t);
                proof {
                    assert(pieces.deep_view() =~= pre.push(tv));
                    assert(pre.push(tv) =~= pre + seq![tv]);
                    assert(content_pieces(doc@, i as int) == seq![tv] + content_pieces(
                        doc@,
                        i + 1,
                    ));
                    assert(pre + (seq![tv] + content_pieces(doc@, i + 1)) =~= (pre + seq![tv])
                        + content_pieces(doc@, i + 1));
                }
            }
        }
        i = i + 1;
    }
    proof {
        assert(content_pieces(doc@, n as int) == Seq::<Seq<char>>::empty());
        assert(pieces.deep_view() + Seq::<Seq<char>>::empty() =~= pieces.deep_view());
    }
    join_with_newlines(&pieces)
}

/// One markdown bullet for an article: `- [title](link)`.
pub open spec fn md_line(a: ArticleView) -> Seq<char> {
    seq!['-', ' ', '['] + a.title + seq![']', '('] + a.link + seq![')']
}

/// The markdown list of a record sequence, one bullet per line.
pub open spec fn md_list_spec(s: Seq<ArticleView>) -> Seq<char> {
    join_lines(s.map_values(|a: ArticleView| md_line(a)))
}

/// Builds one markdown bullet.
fn md_line_exec(a: &WalkthroughArticle) -> (r: String)
    ensures
        r@ == md_line(a@),
{
    let mut out: Vec<char> = Vec::new();
    out.push('-');
    out.push(' ');
    out.push('[');
    let mut title: Vec<char> = str_to_chars(a.title.as_str());
    out.append(&mut title);
    out.push(']');
    out.push('(');
    let mut link: Vec<char> = str_to_chars(a.link.as_str());
    out.append(&mut link);
    out.push(')');
    proof {
        assert(out@ =~= md_line(a@));
    }
    chars_to_string(&out)
}

/// Writes the articles as a markdown bullet list, one per line.
pub fn as_markdown_list(articles: &Vec<WalkthroughArticle>) -> (r: String)
    ensures
        r@ == md_list_spec(articles.deep_view()),
{
    let ghost dv = articles.deep_view();
    let n: usize = articles.len();
    let mut lines: Vec<String> = Vec::new();
    proof {
        assert(lines.deep_view() =~= dv.subrange(0, 0).map_values(|a: ArticleView| md_line(a)));
    }
    let mut i: usize = 0;
    while i < n
        invariant
            0 <= i <= n,
            n == dv.len(),
            dv == articles.deep_view(),
            n == articles.len(),
            lines.deep_view() == dv.subrange(0, i as int).map_values(
                |a: ArticleView| md_line(a),
            ),
        decreases n - i,
    {
        assert(dv[i as int] == articles[i as int].deep_view());
        let line: String = md_line_exec(&articles[i]);
        let ghost pre = lines.deep_view();
        let ghost lv = line@;
        lines.push(line);
        proof {
            assert(lines.deep_view() =~= pre.push(lv));
            assert(pre.push(lv) =~= dv.subrange(0, i + 1).map_values(
                |a: ArticleView| md_line(a),
            ));
        }
        i = i + 1;
    }
    proof {
        assert(dv.subrange(0, n as int) =~= dv);
    }
    join_with_newlines(&lines)
}

} // verus!
