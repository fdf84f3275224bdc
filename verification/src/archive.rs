//! The aggregate of per-issue extraction results: an association from issue
//! link to that issue's article records, with unique links.
//!
//! The archive's mathematical value is a `Map` from link to record sequence,
//! so merging contributions is insertion into a map: the outcome depends only
//! on which `(link, records)` pairs went in, not on the order they arrived
//! in — the property that makes the parallel fan-out sound.

use vstd::prelude::*;

use crate::article::{ArticleView, WalkthroughArticle};
use crate::textops::str_eq;

verus! {

/// The mathematical value of an [`IssueEntry`].
pub ghost struct EntryView {
    pub link: Seq<char>,
    pub articles: Seq<ArticleView>,
}

/// One issue's contribution: its link and its article records in document
/// order.
#[derive(Debug)]
pub struct IssueEntry {
    pub link: String,
    pub articles: Vec<WalkthroughArticle>,
}

impl View for IssueEntry {
    type V = EntryView;

    open spec fn view(&self) -> EntryView {
        EntryView { link: self.link@, articles: self.articles.deep_view() }
    }
}

impl DeepView for IssueEntry {
    type V = EntryView;

    open spec fn deep_view(&self) -> EntryView {
        self.view()
    }
}

/// The association that a sequence of entries stands for, later entries
/// overwriting earlier ones with the same link.
pub open spec fn entries_map(s: Seq<EntryView>) -> Map<Seq<char>, Seq<ArticleView>>
    decreases s.len(),
{
    if s.len() == 0 {
        Map::empty()
    } else {
        entries_map(s.drop_last()).insert(s.last().link, s.last().articles)
    }
}

/// No two entries share a link.
pub open spec fn unique_links(s: Seq<EntryView>) -> bool {
    forall|i: int, j: int|
        0 <= i < j < s.len() ==> (#[trigger] s[i]).link != (#[trigger] s[j]).link
}

/// A link occurs in `s`.
pub open spec fn has_link(s: Seq<EntryView>, k: Seq<char>) -> bool {
    exists|i: int| 0 <= i < s.len() && (#[trigger] s[i]).link == k
}

/// The keys of the map of `s` are exactly the links of `s`.
pub proof fn lemma_entries_map_domain(s: Seq<EntryView>)
    ensures
        forall|k: Seq<char>| #[trigger] entries_map(s).contains_key(k) <==> has_link(s, k),
    decreases s.len(),
{
    if s.len() > 0 {
        let t = s.drop_last();
        lemma_entries_map_domain(t);
        assert forall|k: Seq<char>| #[trigger] entries_map(s).contains_key(k) implies has_link(
            s,
            k,
        ) by {
            if k == s.last().link {
                assert(s[s.len() - 1].link == k);
            } else {
                assert(entries_map(t).contains_key(k));
                assert(has_link(t, k));
                let i = choose|i: int| 0 <= i < t.len() && (#[trigger] t[i]).link == k;
                assert(t[i] == s[i]);
                assert(s[i].link == k);
            }
        }
        assert forall|k: Seq<char>| has_link(s, k) implies #[trigger] entries_map(
            s,
        ).contains_key(k) by {
            let i = choose|i: int| 0 <= i < s.len() && (#[trigger] s[i]).link == k;
            if i < s.len() - 1 {
                assert(t[i].link == k);
                assert(has_link(t, k));
                assert(entries_map(t).contains_key(k));
            }
        }
    }
}

/// With unique links, the map of `s` sends each entry's link to that entry's
/// records.
pub proof fn lemma_entries_map_values(s: Seq<EntryView>)
    requires
        unique_links(s),
    ensures
        forall|i: int|
            0 <= i < s.len() ==> entries_map(s)[(#[trigger] s[i]).link] == s[i].articles,
    decreases s.len(),
{
    if s.len() > 0 {
        assert(unique_links(s.drop_last()));
        lemma_entries_map_values(s.drop_last());
        assert forall|i: int|
            0 <= i < s.len() implies entries_map(s)[(#[trigger] s[i]).link]
            == s[i].articles by {
            if i < s.len() - 1 {
                assert(s[i].link != s.last().link);
                assert(s.drop_last()[i] == s[i]);
            }
        }
    }
}

/// The archive: per-issue record sequences, keyed by issue link.
#[derive(Debug)]
pub struct IssueArchive {
    entries: Vec<IssueEntry>,
}

impl View for IssueArchive {
    type V = Map<Seq<char>, Seq<ArticleView>>;

    closed spec fn view(&self) -> Map<Seq<char>, Seq<ArticleView>> {
        entries_map(self.entries.deep_view())
    }
}

impl IssueArchive {
    /// The entries the archive holds, in insertion order.
    pub closed spec fn entry_seq(&self) -> Seq<EntryView> {
        self.entries.deep_view()
    }

    /// Validity: no two entries share a link.
    pub open spec fn wf(&self) -> bool {
        unique_links(self.entry_seq())
    }

    /// An empty archive.
    pub fn new() -> (r: IssueArchive)
        ensures
            r.wf(),
            r@ == Map::<Seq<char>, Seq<ArticleView>>::empty(),
            r.entry_seq() == Seq::<EntryView>::empty(),
    {
        let r = IssueArchive { entries: Vec::new() };
        proof {
            assert(r.entry_seq() =~= Seq::<EntryView>::empty());
        }
        r
    }

    /// The position of the entry with this link.
    fn find_link(&self, link: &str) -> (r: Option<usize>)
        ensures
            match r {
                Option::Some(i) => 0 <= i < self.entry_seq().len() && self.entry_seq()[i as int].link
                    == link@,
                Option::None => !has_link(self.entry_seq(), link@),
            },
    {
        let n: usize = self.entries.len();
        let mut i: usize = 0;
        while i < n
            invariant
                0 <= i <= n,
                n == self.entry_seq().len(),
                self.entry_seq() == self.entries.deep_view(),
                forall|j: int| 0 <= j < i ==> (#[trigger] self.entry_seq()[j]).link != link@,
            decreases n - i,
        {
            assert(self.entry_seq()[i as int] == self.entries.deep_view()[i as int]);
            if str_eq(self.entries[i].link.as_str(), link) {
                return Option::Some(i);
            }
            i = i + 1;
        }
        Option::None
    }

    /// Whether the archive holds records for this link.
    pub fn contains_issue(&self, link: &str) -> (r: bool)
        ensures
            r == self@.contains_key(link@),
            r == has_link(self.entry_seq(), link@),
    {
        proof {
            lemma_entries_map_domain(self.entry_seq());
        }
        match self.find_link(link) {
            Option::Some(_) => true,
            Option::None => false,
        }
    }

    /// The records stored for this link.
    pub fn get(&self, link: &str) -> (r: Option<&Vec<WalkthroughArticle>>)
        requires
            self.wf(),
        ensures
            match r {
                Option::Some(v) => self@.contains_key(link@) && v.deep_view() == self@[link@],
                Option::None => !self@.contains_key(link@),
            },
    {
        proof {
            lemma_entries_map_domain(self.entry_seq());
            lemma_entries_map_values(self.entry_seq());
        }
        match self.find_link(link) {
            Option::Some(i) => Option::Some(&self.entries[i].articles),
            Option::None => Option::None,
        }
    }

    /// Whether the archive holds nothing.
    pub fn is_empty(&self) -> (r: bool)
        ensures
            r == (self@.dom() == Set::<Seq<char>>::empty()),
    {
        proof {
            lemma_entries_map_domain(self.entry_seq());
            if self.entry_seq().len() == 0 {
                assert(self@.dom() =~= Set::<Seq<char>>::empty());
            } else {
                assert(has_link(self.entry_seq(), self.entry_seq()[0].link));
                assert(self@.dom().contains(self.entry_seq()[0].link));
            }
        }
        self.entries.is_empty()
    }

    /// The number of issues held.
    pub fn issue_count(&self) -> (r: usize)
        ensures
            r == self.entry_seq().len(),
    {
        self.entries.len()
    }

    /// Borrows the entries, in insertion order.
    pub fn entries(&self) -> (r: &Vec<IssueEntry>)
        ensures
            r.deep_view() == self.entry_seq(),
    {
        &self.entries
    }

    /// Stores records under a link, replacing any the link already had.
    pub fn insert(&mut self, link: String, articles: Vec<WalkthroughArticle>)
        requires
            old(self).wf(),
        ensures
            final(self).wf(),
            final(self)@ == old(self)@.insert(link@, articles.deep_view()),
            !has_link(old(self).entry_seq(), link@) ==> final(self).entry_seq() == old(
                self,
            ).entry_seq().push(EntryView { link: link@, articles: articles.deep_view() }),
    {
        proof {
            lemma_entries_map_domain(self.entry_seq());
        }
        let ghost pre = self.entry_seq();
        let ghost ev = EntryView { link: link@, articles: articles.deep_view() };
        match self.find_link(link.as_str()) {
            Option::Some(i) => {
                let n: usize = self.entries.len();
                let ghost updated = pre.update(i as int, ev);
                let mut neu: Vec<IssueEntry> = Vec::new();
                proof {
                    assert(neu.deep_view() =~= updated.subrange(0, 0));
                }
                let mut k: usize = 0;
                while k < n
                    invariant
                        0 <= k <= n,
                        0 <= i < n,
                        n == self.entries.len(),
                        pre == self.entries.deep_view(),
                        updated == pre.update(i as int, ev),
                        ev == (EntryView { link: link@, articles: articles.deep_view() }),
                        neu.deep_view() =~= updated.subrange(0, k as int),
                    decreases n - k,
                {
                    let ghost prer = neu.deep_view();
                    let ghost cv: EntryView;
                    if k == i {
                        let e = IssueEntry {
                            link: clone_string(&link),
                            articles: clone_articles(&articles),
                        };
                        proof {
                            cv = e.deep_view();
                            assert(cv == updated[k as int]);
                        }
                        neu.push(e);
                    } else {
                        assert(self.entries.deep_view()[k as int]
                            == self.entries[k as int].deep_view());
                        let e = IssueEntry {
                            link: clone_string(&self.entries[k].link),
                            articles: clone_articles(&self.entries[k].articles),
                        };
                        proof {
                            cv = e.deep_view();
                            assert(cv == updated[k as int]);
                        }
                        neu.push(e);
                    }
                    proof {
                        assert(neu.deep_view() =~= prer.push(cv));
                        assert(prer.push(cv) =~= updated.subrange(0, k + 1));
                    }
                    k = k + 1;
                }
                self.entries = neu;
                proof {
                    assert(updated.subrange(0, n as int) =~= updated);
                    lemma_update_keeps_unique(pre, i as int, ev);
                    lemma_entries_map_update(pre, i as int, ev);
                }
            },
            Option::None => {
                self.entries.push(IssueEntry { link, articles });
                proof {
                    assert(self.entry_seq() =~= pre.push(ev));
                    assert(self.entry_seq().drop_last() =~= pre);
                    assert forall|a: int, b: int|
                        0 <= a < b < self.entry_seq().len() implies (#[trigger] self.entry_seq()[a]).link
                        != (#[trigger] self.entry_seq()[b]).link by {
                        if b == self.entry_seq().len() - 1 {
                            assert(self.entry_seq()[a] == pre[a]);
                            assert(!has_link(pre, link@));
                        }
                    }
                }
            },
        }
    }

    /// Folds every entry of `other` into this archive, `other`'s records
    /// winning where a link occurs in both.
    pub fn merge(&mut self, other: &IssueArchive)
        requires
            old(self).wf(),
        ensures
            final(self).wf(),
            final(self)@ == old(self)@.union_prefer_right(other@),
    {
        let n: usize = other.entries.len();
        let mut k: usize = 0;
        proof {
            assert(old(self)@.union_prefer_right(entries_map(other.entry_seq().subrange(0, 0)))
                =~= old(self)@);
        }
        while k < n
            invariant
                0 <= k <= n,
                n == other.entry_seq().len(),
                other.entry_seq() == other.entries.deep_view(),
                self.wf(),
                self@ == old(self)@.union_prefer_right(
                    entries_map(other.entry_seq().subrange(0, k as int)),
                ),
            decreases n - k,
        {
            assert(other.entry_seq()[k as int] == other.entries.deep_view()[k as int]);
            let link: String = clone_string(&other.entries[k].link);
            let articles: Vec<WalkthroughArticle> = clone_articles(&other.entries[k].articles);
            self.insert(link, articles);
            proof {
                let prefix = other.entry_seq().subrange(0, k as int);
                let prefix1 = other.entry_seq().subrange(0, k + 1);
                assert(prefix1.drop_last() =~= prefix);
                assert(entries_map(prefix1) == entries_map(prefix).insert(
                    other.entry_seq()[k as int].link,
                    other.entry_seq()[k as int].articles,
                ));
                lemma_union_insert_right(
                    old(self)@,
                    entries_map(prefix),
                    other.entry_seq()[k as int].link,
                    other.entry_seq()[k as int].articles,
                );
            }
            k = k + 1;
        }
        proof {
            assert(other.entry_seq().subrange(0, n as int) =~= other.entry_seq());
        }
    }
}

/// Builds the archive out of per-issue contributions, in the order given.
pub fn collect_archive(entries: Vec<IssueEntry>) -> (r: IssueArchive)
    ensures
        r.wf(),
        r@ == entries_map(entries.deep_view()),
{
    let mut r = IssueArchive::new();
    let n: usize = entries.len();
    let mut k: usize = 0;
    let mut entries = entries;
    while k < n
        invariant
            0 <= k <= n,
            n == entries.deep_view().len(),
            r.wf(),
            r@ == entries_map(entries.deep_view().subrange(0, k as int)),
        decreases n - k,
    {
        assert(entries.deep_view()[k as int] == entries[k as int].deep_view());
        let link: String = clone_string(&entries[k].link);
        let articles: Vec<WalkthroughArticle> = clone_articles(&entries[k].articles);
        r.insert(link, articles);
        proof {
            let prefix = entries.deep_view().subrange(0, k as int);
            let prefix1 = entries.deep_view().subrange(0, k + 1);
            assert(prefix1.drop_last() =~= prefix);
        }
        k = k + 1;
    }
    proof {
        assert(entries.deep_view().subrange(0, n as int) =~= entries.deep_view());
    }
    r
}

/// Law: building the archive is order independent. Two entry sequences with
/// unique links that hold the same entries — in whatever order — stand for
/// the same archive.
pub proof fn lemma_collect_order_independent(s1: Seq<EntryView>, s2: Seq<EntryView>)
    requires
        unique_links(s1),
        unique_links(s2),
        forall|e: EntryView| s1.contains(e) <==> s2.contains(e),
    ensures
        entries_map(s1) == entries_map(s2),
{
    lemma_entries_map_domain(s1);
    lemma_entries_map_domain(s2);
    lemma_entries_map_values(s1);
    lemma_entries_map_values(s2);
    assert forall|k: Seq<char>| entries_map(s1).contains_key(k) implies entries_map(
        s2,
    ).contains_key(k) && entries_map(s1)[k] == entries_map(s2)[k] by {
        let i = choose|i: int| 0 <= i < s1.len() && (#[trigger] s1[i]).link == k;
        assert(s1.contains(s1[i]));
        let j = choose|j: int| 0 <= j < s2.len() && s2[j] == s1[i];
        assert(s2[j].link == k);
    }
    assert forall|k: Seq<char>| entries_map(s2).contains_key(k) implies entries_map(
        s1,
    ).contains_key(k) by {
        let j = choose|j: int| 0 <= j < s2.len() && (#[trigger] s2[j]).link == k;
        assert(s2.contains(s2[j]));
        let i = choose|i: int| 0 <= i < s1.len() && s1[i] == s2[j];
        assert(s1[i].link == k);
    }
    assert(entries_map(s1) =~= entries_map(s2));
}

/// Law: merging archives with no link in common is commutative.
pub proof fn lemma_disjoint_merge_commutes(
    m1: Map<Seq<char>, Seq<ArticleView>>,
    m2: Map<Seq<char>, Seq<ArticleView>>,
)
    requires
        m1.dom().disjoint(m2.dom()),
    ensures
        m1.union_prefer_right(m2) == m2.union_prefer_right(m1),
{
    assert forall|k: Seq<char>| m1.union_prefer_right(m2).contains_key(k) implies m1
        .union_prefer_right(m2)[k] == m2.union_prefer_right(m1)[k] by {
        if m2.dom().contains(k) {
            assert(!m1.dom().contains(k));
        }
    }
    assert(m1.union_prefer_right(m2) =~= m2.union_prefer_right(m1));
}

proof fn lemma_union_insert_right(
    m1: Map<Seq<char>, Seq<ArticleView>>,
    m2: Map<Seq<char>, Seq<ArticleView>>,
    k: Seq<char>,
    v: Seq<ArticleView>,
)
    ensures
        m1.union_prefer_right(m2.insert(k, v)) == m1.union_prefer_right(m2).insert(k, v),
{
    assert(m1.union_prefer_right(m2.insert(k, v)) =~= m1.union_prefer_right(m2).insert(k, v));
}

proof fn lemma_update_keeps_unique(s: Seq<EntryView>, i: int, e: EntryView)
    requires
        unique_links(s),
        0 <= i < s.len(),
        s[i].link == e.link,
    ensures
        unique_links(s.update(i, e)),
{
    let t = s.update(i, e);
    assert forall|a: int, b: int|
        0 <= a < b < t.len() implies (#[trigger] t[a]).link != (#[trigger] t[b]).link by {
        assert(s[a].link != s[b].link);
    }
}

proof fn lemma_entries_map_update(s: Seq<EntryView>, i: int, e: EntryView)
    requires
        unique_links(s),
        0 <= i < s.len(),
        s[i].link == e.link,
    ensures
        entries_map(s.update(i, e)) == entries_map(s).insert(e.link, e.articles),
{
    let t = s.update(i, e);
    lemma_update_keeps_unique(s, i, e);
    lemma_entries_map_domain(s);
    lemma_entries_map_domain(t);
    lemma_entries_map_values(s);
    lemma_entries_map_values(t);
    assert forall|k: Seq<char>| entries_map(t).contains_key(k) implies entries_map(s).insert(
        e.link,
        e.articles,
    ).contains_key(k) && entries_map(t)[k] == entries_map(s).insert(e.link, e.articles)[k] by {
        let a = choose|a: int| 0 <= a < t.len() && (#[trigger] t[a]).link == k;
        if a == i {
            assert(t[a] == e);
            assert(entries_map(t)[k] == e.articles);
        } else {
            assert(t[a] == s[a]);
            assert(s[a].link == k);
            assert(k != e.link);
            assert(entries_map(t)[k] == t[a].articles);
            assert(entries_map(s)[k] == s[a].articles);
        }
    }
    assert forall|k: Seq<char>| entries_map(s).insert(e.link, e.articles).contains_key(
        k,
    ) implies entries_map(t).contains_key(k) by {
        if k == e.link {
            assert(t[i].link == k);
        } else {
            let a = choose|a: int| 0 <= a < s.len() && (#[trigger] s[a]).link == k;
            assert(t[a].link == k);
        }
    }
    assert(entries_map(t) =~= entries_map(s).insert(e.link, e.articles));
}

/// Element-for-element record equality.
fn articles_eq(x: &Vec<WalkthroughArticle>, y: &Vec<WalkthroughArticle>) -> (r: bool)
    ensures
        r == (x.deep_view() == y.deep_view()),
{
    let n: usize = x.len();
    if n != y.len() {
        proof {
            assert(x.deep_view().len() != y.deep_view().len());
        }
        return false;
    }
    let mut i: usize = 0;
    while i < n
        invariant
            0 <= i <= n,
            n == x.len(),
            n == y.len(),
            forall|j: int| 0 <= j < i ==> #[trigger] x.deep_view()[j] == y.deep_view()[j],
        decreases n - i,
    {
        assert(x.deep_view()[i as int] == x[i as int].deep_view());
        assert(y.deep_view()[i as int] == y[i as int].deep_view());
        if !(x[i] == y[i]) {
            proof {
                assert(x.deep_view()[i as int] != y.deep_view()[i as int]);
            }
            return false;
        }
        i = i + 1;
    }
    proof {
        assert(x.deep_view() =~= y.deep_view());
    }
    true
}

impl PartialEq for IssueEntry {
    fn eq(&self, other: &Self) -> (r: bool) {
        self.link == other.link && articles_eq(&self.articles, &other.articles)
    }
}

impl vstd::std_specs::cmp::PartialEqSpecImpl for IssueEntry {
    open spec fn obeys_eq_spec() -> bool {
        true
    }

    open spec fn eq_spec(&self, other: &Self) -> bool {
        self@ == other@
    }
}

impl Eq for IssueEntry {}

/// Element-for-element entry equality.
fn entries_eq(x: &Vec<IssueEntry>, y: &Vec<IssueEntry>) -> (r: bool)
    ensures
        r == (x.deep_view() == y.deep_view()),
{
    let n: usize = x.len();
    if n != y.len() {
        proof {
            assert(x.deep_view().len() != y.deep_view().len());
        }
        return false;
    }
    let mut i: usize = 0;
    while i < n
        invariant
            0 <= i <= n,
            n == x.len(),
            n == y.len(),
            forall|j: int| 0 <= j < i ==> #[trigger] x.deep_view()[j] == y.deep_view()[j],
        decreases n - i,
    {
        assert(x.deep_view()[i as int] == x[i as int].deep_view());
        assert(y.deep_view()[i as int] == y[i as int].deep_view());
        if !(x[i] == y[i]) {
            proof {
                assert(x.deep_view()[i as int] != y.deep_view()[i as int]);
            }
            return false;
        }
        i = i + 1;
    }
    proof {
        assert(x.deep_view() =~= y.deep_view());
    }
    true
}

impl PartialEq for IssueArchive {
    /// Archives are equal when they hold the same entries in the same order.
    fn eq(&self, other: &Self) -> (r: bool) {
        entries_eq(&self.entries, &other.entries)
    }
}

impl vstd::std_specs::cmp::PartialEqSpecImpl for IssueArchive {
    open spec fn obeys_eq_spec() -> bool {
        true
    }

    open spec fn eq_spec(&self, other: &Self) -> bool {
        self.entry_seq() == other.entry_seq()
    }
}

impl Eq for IssueArchive {}

/// A field-for-field copy of a string.
pub fn clone_string(s: &String) -> (r: String)
    ensures
        r@ == s@,
{
    s.clone()
}

/// A field-for-field copy of an article record.
pub fn clone_article(a: &WalkthroughArticle) -> (r: WalkthroughArticle)
    ensures
        r@ == a@,
{
    WalkthroughArticle { title: a.title.clone(), link: a.link.clone() }
}

/// An element-for-element copy of a record sequence.
pub fn clone_articles(v: &Vec<WalkthroughArticle>) -> (r: Vec<WalkthroughArticle>)
    ensures
        r.deep_view() == v.deep_view(),
{
    let n: usize = v.len();
    let mut r: Vec<WalkthroughArticle> = Vec::new();
    let mut i: usize = 0;
    while i < n
        invariant
            0 <= i <= n,
            n == v.len(),
            r.deep_view() =~= v.deep_view().subrange(0, i as int),
        decreases n - i,
    {
        assert(v.deep_view()[i as int] == v[i as int].deep_view());
        let c = clone_article(&v[i]);
        let ghost prer = r.deep_view();
        let ghost cv = c.deep_view();
        r.push(c);
        proof {
            assert(r.deep_view() =~= prer.push(cv));
            assert(prer.push(cv) =~= v.deep_view().subrange(0, i + 1));
        }
        i = i + 1;
    }
    proof {
        assert(v.deep_view().subrange(0, n as int) =~= v.deep_view());
    }
    r
}

} // verus!
