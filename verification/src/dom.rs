//! A plain-value model of a parsed markup document.
//!
//! A document is the sequence of its element nodes in document order
//! (pre-order). Each node carries the pieces of an element that the
//! extraction logic reads — tag name, `id`, class list, `href`, visible
//! text — together with `subtree_end`, the index one past the last node of
//! its subtree in the flat sequence. Whatever parses real markup converts
//! its tree into this shape; everything in this crate that walks a document
//! works on this model alone.

use vstd::prelude::*;

verus! {

/// The mathematical value of an [`HtmlNode`].
pub ghost struct NodeView {
    pub tag: Seq<char>,
    pub id: Seq<char>,
    pub classes: Seq<Seq<char>>,
    pub href: Option<Seq<char>>,
    pub text: Seq<char>,
    pub subtree_end: int,
}

/// One element node of a parsed document, reduced to the plain values the
/// extraction logic reads.
#[derive(Debug, Clone)]
pub struct HtmlNode {
    /// Lower-case element name, `"div"`, `"a"`, `"li"`, ...
    pub tag: String,
    /// The `id` attribute, or the empty string where the element has none.
    pub id: String,
    /// The class names of the `class` attribute, in order.
    pub classes: Vec<String>,
    /// The `href` attribute, where the element has one.
    pub href: Option<String>,
    /// The full visible text of the element's subtree, untrimmed.
    pub text: String,
    /// One past the index of the last node of this element's subtree, in the
    /// flat document-order sequence that holds this node.
    pub subtree_end: usize,
}

impl View for HtmlNode {
    type V = NodeView;

    open spec fn view(&self) -> NodeView {
        NodeView {
            tag: self.tag@,
            id: self.id@,
            classes: self.classes.deep_view(),
            href: self.href.deep_view(),
            text: self.text@,
            subtree_end: self.subtree_end as int,
        }
    }
}

impl DeepView for HtmlNode {
    type V = NodeView;

    open spec fn deep_view(&self) -> NodeView {
        self.view()
    }
}

/// A parsed document: its element nodes in document order.
#[derive(Debug, Clone)]
pub struct HtmlDoc {
    pub nodes: Vec<HtmlNode>,
}

impl View for HtmlDoc {
    type V = Seq<NodeView>;

    open spec fn view(&self) -> Seq<NodeView> {
        self.nodes.deep_view()
    }
}

/// A document model is well formed when every node's subtree reaches past the
/// node itself and stays inside the document.
pub open spec fn doc_wf(doc: Seq<NodeView>) -> bool {
    forall|i: int|
        0 <= i < doc.len() ==> i < (#[trigger] doc[i]).subtree_end <= doc.len()
}

impl HtmlDoc {
    pub open spec fn wf(&self) -> bool {
        doc_wf(self@)
    }

    /// Decides whether this model is well formed.
    pub fn is_well_formed(&self) -> (r: bool)
        ensures
            r == self.wf(),
    {
        let n: usize = self.nodes.len();
        let mut i: usize = 0;
        while i < n
            invariant
                0 <= i <= n,
                n == self@.len(),
                self@ == self.nodes.deep_view(),
                forall|k: int| 0 <= k < i ==> k < (#[trigger] self@[k]).subtree_end <= n,
            decreases n - i,
        {
            let e: usize = self.nodes[i].subtree_end;
            assert(self@[i as int] == self.nodes[i as int].deep_view());
            if e <= i || e > n {
                return false;
            }
            i = i + 1;
        }
        true
    }
}

} // verus!
