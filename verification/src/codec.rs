//! The cache text format for an archive, with a proved round trip.
//!
//! An archive is written as one object: each entry is `"link":[...]`, each
//! record an object with the field names `title` and `link`, entries and
//! records separated by commas, nothing else between the tokens. Inside a
//! string the quote and the backslash are escaped with a backslash; every
//! other character stands as itself.
//!
//! `enc_*` are the encoding spec functions, `parse_*` the decoding ones; the
//! `lemma_parse_*_of_enc` chain proves that decoding an encoding yields the
//! entries that went in.

use vstd::prelude::*;

use crate::archive::{clone_articles, clone_string, EntryView, IssueArchive, IssueEntry};
use crate::article::{ArticleView, WalkthroughArticle};
use crate::textops::{chars_to_string, str_to_chars};

verus! {

/// How one character stands inside an encoded string.
pub open spec fn enc_char(c: char) -> Seq<char> {
    if c == '"' {
        seq!['\\', '"']
    } else if c == '\\' {
        seq!['\\', '\\']
    } else {
        seq![c]
    }
}

/// The body of an encoded string: each character in turn.
pub open spec fn enc_str_body(t: Seq<char>) -> Seq<char>
    decreases t.len(),
{
    if t.len() == 0 {
        Seq::empty()
    } else {
        enc_char(t[0]) + enc_str_body(t.drop_first())
    }
}

/// An encoded string: the body between quotes.
pub open spec fn enc_string(t: Seq<char>) -> Seq<char> {
    seq!['"'] + enc_str_body(t) + seq!['"']
}

/// The token opening a record and naming its first field.
pub open spec fn title_tok() -> Seq<char> {
    seq!['{', '"', 't', 'i', 't', 'l', 'e', '"', ':']
}

/// The token between a record's fields, naming the second.
pub open spec fn link_tok() -> Seq<char> {
    seq![',', '"', 'l', 'i', 'n', 'k', '"', ':']
}

/// One encoded record.
pub open spec fn enc_record(a: ArticleView) -> Seq<char> {
    title_tok() + enc_string(a.title) + link_tok() + enc_string(a.link) + seq!['}']
}

/// What follows the first record of an array: `,record` repeated, then `]`.
pub open spec fn enc_records_rest(rs: Seq<ArticleView>) -> Seq<char>
    decreases rs.len(),
{
    if rs.len() == 0 {
        seq![']']
    } else {
        seq![','] + enc_record(rs[0]) + enc_records_rest(rs.drop_first())
    }
}

/// An encoded record array.
pub open spec fn enc_array(rs: Seq<ArticleView>) -> Seq<char> {
    if rs.len() == 0 {
        seq!['[', ']']
    } else {
        seq!['['] + enc_record(rs[0]) + enc_records_rest(rs.drop_first())
    }
}

/// One encoded entry: the link, a colon, the record array.
pub open spec fn enc_entry(e: EntryView) -> Seq<char> {
    enc_string(e.link) + seq![':'] + enc_array(e.articles)
}

/// What follows the first entry of an archive: `,entry` repeated, then `}`.
pub open spec fn enc_entries_rest(es: Seq<EntryView>) -> Seq<char>
    decreases es.len(),
{
    if es.len() == 0 {
        seq!['}']
    } else {
        seq![','] + enc_entry(es[0]) + enc_entries_rest(es.drop_first())
    }
}

/// The whole encoded archive.
pub open spec fn enc_archive(es: Seq<EntryView>) -> Seq<char> {
    if es.len() == 0 {
        seq!['{', '}']
    } else {
        seq!['{'] + enc_entry(es[0]) + enc_entries_rest(es.drop_first())
    }
}

/// The fixed token `tok` stands at position `i` of `s`.
pub open spec fn expect_tok(s: Seq<char>, i: int, tok: Seq<char>) -> bool {
    0 <= i && i + tok.len() <= s.len() && s.subrange(i, i + tok.len()) == tok
}

/// Reads an encoded string body up to and past its closing quote: the decoded
/// characters and the position after the quote.
pub open spec fn parse_str_body(s: Seq<char>, i: int) -> Option<(Seq<char>, int)>
    decreases s.len() - i,
{
    if i < 0 || i >= s.len() {
        Option::None
    } else if s[i] == '"' {
        Option::Some((Seq::empty(), i + 1))
    } else if s[i] == '\\' {
        if i + 1 < s.len() && (s[i + 1] == '"' || s[i + 1] == '\\') {
            match parse_str_body(s, i + 2) {
                Option::None => Option::None,
                Option::Some((t, j)) => Option::Some((seq![s[i + 1]] + t, j)),
            }
        } else {
            Option::None
        }
    } else {
        match parse_str_body(s, i + 1) {
            Option::None => Option::None,
            Option::Some((t, j)) => Option::Some((seq![s[i]] + t, j)),
        }
    }
}

/// Reads an encoded string: an opening quote, then the body.
pub open spec fn parse_string(s: Seq<char>, i: int) -> Option<(Seq<char>, int)> {
    if 0 <= i < s.len() && s[i] == '"' {
        parse_str_body(s, i + 1)
    } else {
        Option::None
    }
}

/// Reads one encoded record.
pub open spec fn parse_record(s: Seq<char>, i: int) -> Option<(ArticleView, int)> {
    if !expect_tok(s, i, title_tok()) {
        Option::None
    } else {
        match parse_string(s, i + 9) {
            Option::None => Option::None,
            Option::Some((t, j)) => if expect_tok(s, j, link_tok()) {
                match parse_string(s, j + 8) {
                    Option::None => Option::None,
                    Option::Some((l, m)) => if m < s.len() && s[m] == '}' {
                        Option::Some((ArticleView { title: t, link: l }, m + 1))
                    } else {
                        Option::None
                    },
                }
            } else {
                Option::None
            },
        }
    }
}

/// Reads what follows the first record of an array.
pub open spec fn parse_records_rest(s: Seq<char>, i: int) -> Option<(Seq<ArticleView>, int)>
    decreases s.len() - i,
{
    if i < 0 || i >= s.len() {
        Option::None
    } else if s[i] == ']' {
        Option::Some((Seq::empty(), i + 1))
    } else if s[i] == ',' {
        match parse_record(s, i + 1) {
            Option::None => Option::None,
            Option::Some((a, j)) => if i < j <= s.len() {
                match parse_records_rest(s, j) {
                    Option::None => Option::None,
                    Option::Some((rs, m)) => Option::Some((seq![a] + rs, m)),
                }
            } else {
                Option::None
            },
        }
    } else {
        Option::None
    }
}

/// Reads an encoded record array.
pub open spec fn parse_array(s: Seq<char>, i: int) -> Option<(Seq<ArticleView>, int)> {
    if !(0 <= i && i + 1 < s.len() && s[i] == '[') {
        Option::None
    } else if s[i + 1] == ']' {
        Option::Some((Seq::empty(), i + 2))
    } else {
        match parse_record(s, i + 1) {
            Option::None => Option::None,
            Option::Some((a, j)) => if i < j <= s.len() {
                match parse_records_rest(s, j) {
                    Option::None => Option::None,
                    Option::Some((rs, m)) => Option::Some((seq![a] + rs, m)),
                }
            } else {
                Option::None
            },
        }
    }
}

/// Reads one encoded entry.
pub open spec fn parse_entry(s: Seq<char>, i: int) -> Option<(EntryView, int)> {
    match parse_string(s, i) {
        Option::None => Option::None,
        Option::Some((k, j)) => if j < s.len() && s[j] == ':' {
            match parse_array(s, j + 1) {
                Option::None => Option::None,
                Option::Some((rs, m)) => Option::Some((EntryView { link: k, articles: rs }, m)),
            }
        } else {
            Option::None
        },
    }
}

/// Reads what follows the first entry of an archive.
pub open spec fn parse_entries_rest(s: Seq<char>, i: int) -> Option<(Seq<EntryView>, int)>
    decreases s.len() - i,
{
    if i < 0 || i >= s.len() {
        Option::None
    } else if s[i] == '}' {
        Option::Some((Seq::empty(), i + 1))
    } else if s[i] == ',' {
        match parse_entry(s, i + 1) {
            Option::None => Option::None,
            Option::Some((e, j)) => if i < j <= s.len() {
                match parse_entries_rest(s, j) {
                    Option::None => Option::None,
                    Option::Some((es, m)) => Option::Some((seq![e] + es, m)),
                }
            } else {
                Option::None
            },
        }
    } else {
        Option::None
    }
}

/// Reads a whole encoded archive; the text must hold nothing else.
pub open spec fn parse_archive_chars(s: Seq<char>) -> Option<Seq<EntryView>> {
    if !(s.len() >= 2 && s[0] == '{') {
        Option::None
    } else if s[1] == '}' {
        if s.len() == 2 {
            Option::Some(Seq::empty())
        } else {
            Option::None
        }
    } else {
        match parse_entry(s, 1) {
            Option::None => Option::None,
            Option::Some((e, j)) => if 1 < j <= s.len() {
                match parse_entries_rest(s, j) {
                    Option::None => Option::None,
                    Option::Some((es, m)) => if m == s.len() {
                        Option::Some(seq![e] + es)
                    } else {
                        Option::None
                    },
                }
            } else {
                Option::None
            },
        }
    }
}

/// What decoding accepts: a well-formed encoding whose entries carry unique
/// links.
pub open spec fn decode_spec(s: Seq<char>) -> Option<Seq<EntryView>> {
    match parse_archive_chars(s) {
        Option::None => Option::None,
        Option::Some(es) => if crate::archive::unique_links(es) {
            Option::Some(es)
        } else {
            Option::None
        },
    }
}

/// The characters of a slice of `s`, one by one.
proof fn lemma_slice_chars(s: Seq<char>, i: int, j: int, w: Seq<char>)
    requires
        0 <= i <= j <= s.len(),
        s.subrange(i, j) == w,
    ensures
        j - i == w.len(),
        forall|k: int| 0 <= k < w.len() ==> s[i + k] == #[trigger] w[k],
{
    assert(s.subrange(i, j).len() == j - i);
    assert forall|k: int| 0 <= k < w.len() implies s[i + k] == #[trigger] w[k] by {
        assert(s.subrange(i, j)[k] == s[i + k]);
    }
}

/// An inner slice of `s` equals `piece` when `w`'s characters from `off` on
/// are `piece`'s.
proof fn lemma_slice_piece(s: Seq<char>, i: int, w: Seq<char>, p: int, q: int, piece: Seq<char>)
    requires
        0 <= i <= p <= q <= s.len(),
        q - p == piece.len(),
        forall|k: int| 0 <= k < w.len() ==> s[i + k] == #[trigger] w[k],
        forall|m: int| 0 <= m < piece.len() ==> w[(p - i) + m] == #[trigger] piece[m],
        p - i + piece.len() <= w.len(),
    ensures
        s.subrange(p, q) == piece,
{
    assert forall|m: int| 0 <= m < q - p implies s.subrange(p, q)[m] == piece[m] by {
        assert(s.subrange(p, q)[m] == s[p + m]);
        assert(w[(p - i) + m] == piece[m]);
        assert(s[i + ((p - i) + m)] == w[(p - i) + m]);
    }
    assert(s.subrange(p, q) =~= piece);
}

/// Appending one character to a string extends its encoded body by that
/// character's encoding.
pub proof fn lemma_enc_body_push(t: Seq<char>, c: char)
    ensures
        enc_str_body(t.push(c)) == enc_str_body(t) + enc_char(c),
    decreases t.len(),
{
    reveal_with_fuel(enc_str_body, 3);
    if t.len() == 0 {
        assert(t.push(c)[0] == c);
        assert(t.push(c).drop_first() =~= Seq::<char>::empty());
        assert(enc_str_body(t.push(c)) =~= enc_str_body(t) + enc_char(c));
    } else {
        assert(t.push(c).drop_first() =~= t.drop_first().push(c));
        lemma_enc_body_push(t.drop_first(), c);
        assert(t.push(c)[0] == t[0]);
        assert(enc_char(t[0]) + (enc_str_body(t.drop_first()) + enc_char(c)) =~= (enc_char(t[0])
            + enc_str_body(t.drop_first())) + enc_char(c));
        assert(enc_str_body(t.push(c)) =~= enc_str_body(t) + enc_char(c));
    }
}

/// Decoding inverts the string-body encoding.
proof fn lemma_parse_body_of_enc(s: Seq<char>, i: int, t: Seq<char>, j: int)
    requires
        0 <= i <= j <= s.len(),
        s.subrange(i, j) == enc_str_body(t) + seq!['"'],
    ensures
        parse_str_body(s, i) == Option::Some((t, j)),
    decreases t.len(),
{
    let whole = enc_str_body(t) + seq!['"'];
    lemma_slice_chars(s, i, j, whole);
    if t.len() == 0 {
        assert(whole[0] == '"');
        assert(s[i] == '"');
        assert(j == i + 1);
    } else {
        let c = t[0];
        let t1 = t.drop_first();
        let body1 = enc_str_body(t1);
        let piece = body1 + seq!['"'];
        assert(enc_str_body(t) == enc_char(c) + body1);
        if c == '"' || c == '\\' {
            assert(whole[0] == '\\');
            assert(whole[1] == c);
            assert(s[i] == '\\');
            assert(s[i + 1] == c);
            assert(forall|m: int| 0 <= m < piece.len() ==> whole[2 + m] == #[trigger] piece[m]);
            lemma_slice_piece(s, i, whole, i + 2, j, piece);
            lemma_parse_body_of_enc(s, i + 2, t1, j);
            assert(seq![s[i + 1]] + t1 =~= t);
        } else {
            assert(whole[0] == c);
            assert(s[i] == c);
            assert(forall|m: int| 0 <= m < piece.len() ==> whole[1 + m] == #[trigger] piece[m]);
            lemma_slice_piece(s, i, whole, i + 1, j, piece);
            lemma_parse_body_of_enc(s, i + 1, t1, j);
            assert(seq![s[i]] + t1 =~= t);
        }
    }
}

/// Decoding inverts the string encoding.
proof fn lemma_parse_string_of_enc(s: Seq<char>, i: int, t: Seq<char>, j: int)
    requires
        0 <= i <= j <= s.len(),
        s.subrange(i, j) == enc_string(t),
    ensures
        parse_string(s, i) == Option::Some((t, j)),
{
    let whole = enc_string(t);
    lemma_slice_chars(s, i, j, whole);
    assert(whole[0] == '"');
    assert(s[i] == '"');
    let piece = enc_str_body(t) + seq!['"'];
    assert(forall|m: int| 0 <= m < piece.len() ==> whole[1 + m] == #[trigger] piece[m]);
    lemma_slice_piece(s, i, whole, i + 1, j, piece);
    lemma_parse_body_of_enc(s, i + 1, t, j);
}

/// Decoding inverts the record encoding.
proof fn lemma_parse_record_of_enc(s: Seq<char>, i: int, a: ArticleView, j: int)
    requires
        0 <= i <= j <= s.len(),
        s.subrange(i, j) == enc_record(a),
    ensures
        parse_record(s, i) == Option::Some((a, j)),
{
    let whole = enc_record(a);
    let est = enc_string(a.title);
    let esl = enc_string(a.link);
    assert(whole == title_tok() + est + link_tok() + esl + seq!['}']);
    lemma_slice_chars(s, i, j, whole);
    assert(title_tok().len() == 9);
    assert(link_tok().len() == 8);
    let p1 = i + 9;
    let p2 = p1 + est.len();
    let p3 = p2 + 8;
    let p4 = p3 + esl.len();
    assert(j == p4 + 1);
    assert(forall|m: int| 0 <= m < 9 ==> whole[m] == #[trigger] title_tok()[m]);
    lemma_slice_piece(s, i, whole, i, p1, title_tok());
    assert(expect_tok(s, i, title_tok()));
    assert(forall|m: int| 0 <= m < est.len() ==> whole[9 + m] == #[trigger] est[m]);
    lemma_slice_piece(s, i, whole, p1, p2, est);
    lemma_parse_string_of_enc(s, p1, a.title, p2);
    assert(forall|m: int| 0 <= m < 8 ==> whole[(p2 - i) + m] == #[trigger] link_tok()[m]);
    lemma_slice_piece(s, i, whole, p2, p3, link_tok());
    assert(expect_tok(s, p2, link_tok()));
    assert(forall|m: int| 0 <= m < esl.len() ==> whole[(p3 - i) + m] == #[trigger] esl[m]);
    lemma_slice_piece(s, i, whole, p3, p4, esl);
    lemma_parse_string_of_enc(s, p3, a.link, p4);
    assert(whole[p4 - i] == '}');
    assert(s[i + (p4 - i)] == whole[p4 - i]);
    assert(s[p4] == '}');
    assert(a == (ArticleView { title: a.title, link: a.link }));
}

/// Decoding inverts the encoding of an array's tail.
proof fn lemma_parse_records_rest_of_enc(s: Seq<char>, i: int, rs: Seq<ArticleView>, j: int)
    requires
        0 <= i <= j <= s.len(),
        s.subrange(i, j) == enc_records_rest(rs),
    ensures
        parse_records_rest(s, i) == Option::Some((rs, j)),
    decreases rs.len(),
{
    let whole = enc_records_rest(rs);
    lemma_slice_chars(s, i, j, whole);
    if rs.len() == 0 {
        assert(whole[0] == ']');
        assert(s[i] == ']');
        assert(j == i + 1);
    } else {
        let a = rs[0];
        let rest = rs.drop_first();
        let era = enc_record(a);
        let tail = enc_records_rest(rest);
        assert(whole == seq![','] + era + tail);
        let p1 = i + 1;
        let p2 = p1 + era.len();
        assert(whole[0] == ',');
        assert(s[i] == ',');
        assert(forall|m: int| 0 <= m < era.len() ==> whole[1 + m] == #[trigger] era[m]);
        lemma_slice_piece(s, i, whole, p1, p2, era);
        lemma_parse_record_of_enc(s, p1, a, p2);
        assert(era.len() >= 1);
        assert(forall|m: int| 0 <= m < tail.len() ==> whole[(p2 - i) + m] == #[trigger] tail[m]);
        lemma_slice_piece(s, i, whole, p2, j, tail);
        lemma_parse_records_rest_of_enc(s, p2, rest, j);
        assert(seq![a] + rest =~= rs);
    }
}

/// Decoding inverts the array encoding.
proof fn lemma_parse_array_of_enc(s: Seq<char>, i: int, rs: Seq<ArticleView>, j: int)
    requires
        0 <= i <= j <= s.len(),
        s.subrange(i, j) == enc_array(rs),
    ensures
        parse_array(s, i) == Option::Some((rs, j)),
{
    let whole = enc_array(rs);
    lemma_slice_chars(s, i, j, whole);
    if rs.len() == 0 {
        assert(whole[0] == '[');
        assert(whole[1] == ']');
        assert(s[i] == '[');
        assert(s[i + 1] == ']');
        assert(j == i + 2);
    } else {
        let a = rs[0];
        let rest = rs.drop_first();
        let era = enc_record(a);
        let tail = enc_records_rest(rest);
        assert(whole == seq!['['] + era + tail);
        let p1 = i + 1;
        let p2 = p1 + era.len();
        assert(whole[0] == '[');
        assert(s[i] == '[');
        assert(era[0] == '{');
        assert(whole[1] == '{');
        assert(s[i + 1] == '{');
        assert(forall|m: int| 0 <= m < era.len() ==> whole[1 + m] == #[trigger] era[m]);
        lemma_slice_piece(s, i, whole, p1, p2, era);
        lemma_parse_record_of_enc(s, p1, a, p2);
        assert(forall|m: int| 0 <= m < tail.len() ==> whole[(p2 - i) + m] == #[trigger] tail[m]);
        lemma_slice_piece(s, i, whole, p2, j, tail);
        lemma_parse_records_rest_of_enc(s, p2, rest, j);
        assert(seq![a] + rest =~= rs);
    }
}

/// Decoding inverts the entry encoding.
proof fn lemma_parse_entry_of_enc(s: Seq<char>, i: int, e: EntryView, j: int)
    requires
        0 <= i <= j <= s.len(),
        s.subrange(i, j) == enc_entry(e),
    ensures
        parse_entry(s, i) == Option::Some((e, j)),
{
    let whole = enc_entry(e);
    let esl = enc_string(e.link);
    let ea = enc_array(e.articles);
    assert(whole == esl + seq![':'] + ea);
    lemma_slice_chars(s, i, j, whole);
    let p1 = i + esl.len();
    let p2 = p1 + 1;
    assert(forall|m: int| 0 <= m < esl.len() ==> whole[m] == #[trigger] esl[m]);
    lemma_slice_piece(s, i, whole, i, p1, esl);
    lemma_parse_string_of_enc(s, i, e.link, p1);
    assert(whole[p1 - i] == ':');
    assert(s[i + (p1 - i)] == whole[p1 - i]);
    assert(s[p1] == ':');
    assert(ea.len() >= 2);
    assert(forall|m: int| 0 <= m < ea.len() ==> whole[(p2 - i) + m] == #[trigger] ea[m]);
    lemma_slice_piece(s, i, whole, p2, j, ea);
    lemma_parse_array_of_enc(s, p2, e.articles, j);
    assert(e == (EntryView { link: e.link, articles: e.articles }));
}

/// Decoding inverts the encoding of an archive's tail.
proof fn lemma_parse_entries_rest_of_enc(s: Seq<char>, i: int, es: Seq<EntryView>, j: int)
    requires
        0 <= i <= j <= s.len(),
        s.subrange(i, j) == enc_entries_rest(es),
    ensures
        parse_entries_rest(s, i) == Option::Some((es, j)),
    decreases es.len(),
{
    let whole = enc_entries_rest(es);
    lemma_slice_chars(s, i, j, whole);
    if es.len() == 0 {
        assert(whole[0] == '}');
        assert(s[i] == '}');
        assert(j == i + 1);
    } else {
        let e = es[0];
        let rest = es.drop_first();
        let ee = enc_entry(e);
        let tail = enc_entries_rest(rest);
        assert(whole == seq![','] + ee + tail);
        let p1 = i + 1;
        let p2 = p1 + ee.len();
        assert(whole[0] == ',');
        assert(s[i] == ',');
        assert(forall|m: int| 0 <= m < ee.len() ==> whole[1 + m] == #[trigger] ee[m]);
        lemma_slice_piece(s, i, whole, p1, p2, ee);
        lemma_parse_entry_of_enc(s, p1, e, p2);
        assert(ee.len() >= 1);
        assert(forall|m: int| 0 <= m < tail.len() ==> whole[(p2 - i) + m] == #[trigger] tail[m]);
        lemma_slice_piece(s, i, whole, p2, j, tail);
        lemma_parse_entries_rest_of_enc(s, p2, rest, j);
        assert(seq![e] + rest =~= es);
    }
}

/// Decoding inverts the archive encoding.
#[verifier::rlimit(100)]
pub proof fn lemma_parse_archive_of_enc(es: Seq<EntryView>)
    ensures
        parse_archive_chars(enc_archive(es)) == Option::Some(es),
{
    let s = enc_archive(es);
    if es.len() == 0 {
        assert(s =~= seq!['{', '}']);
        assert(s[0] == '{');
        assert(s[1] == '}');
        assert(s.len() == 2);
        assert(es =~= Seq::<EntryView>::empty());
    } else {
        let e = es[0];
        let rest = es.drop_first();
        let ee = enc_entry(e);
        let tail = enc_entries_rest(rest);
        assert(s == seq!['{'] + ee + tail);
        let p1: int = 1;
        let p2 = p1 + ee.len();
        assert(s[0] == '{');
        assert(enc_string(e.link)[0] == '"');
        assert(ee[0] == '"');
        assert(s[1] == ee[0]);
        assert forall|m: int| 0 <= m < ee.len() implies s.subrange(p1, p2)[m] == ee[m] by {
            assert(s.subrange(p1, p2)[m] == s[1 + m]);
        }
        assert(s.subrange(p1, p2) =~= ee);
        lemma_parse_entry_of_enc(s, p1, e, p2);
        assert(tail.len() >= 1);
        assert forall|m: int|
            0 <= m < tail.len() implies s.subrange(p2, s.len() as int)[m] == tail[m] by {
            assert(s.subrange(p2, s.len() as int)[m] == s[p2 + m]);
        }
        assert(s.subrange(p2, s.len() as int) =~= tail);
        lemma_parse_entries_rest_of_enc(s, p2, rest, s.len() as int);
        assert(seq![e] + rest =~= es);
    }
}

/// Law: decoding an encoded archive gives back exactly the entries that were
/// encoded — saving and loading the cache returns an equal archive.
pub proof fn lemma_encode_decode_round_trip(es: Seq<EntryView>)
    requires
        crate::archive::unique_links(es),
    ensures
        decode_spec(enc_archive(es)) == Option::Some(es),
{
    lemma_parse_archive_of_enc(es);
}

/// Appends one character's encoding.
fn emit_char(out: &mut Vec<char>, c: char)
    ensures
        final(out)@ == old(out)@ + enc_char(c),
{
    if c == '"' {
        out.push('\\');
        out.push('"');
    } else if c == '\\' {
        out.push('\\');
        out.push('\\');
    } else {
        out.push(c);
    }
    proof {
        assert(out@ =~= old(out)@ + enc_char(c));
    }
}

/// Appends a string's encoded body.
fn emit_str_body(out: &mut Vec<char>, s: &str)
    ensures
        final(out)@ == old(out)@ + enc_str_body(s@),
{
    let n: usize = s.unicode_len();
    proof {
        assert(s@.subrange(0, 0) =~= Seq::<char>::empty());
        assert(out@ =~= out@ + enc_str_body(s@.subrange(0, 0)));
    }
    let mut i: usize = 0;
    while i < n
        invariant
            0 <= i <= n,
            n == s@.len(),
            out@ == old(out)@ + enc_str_body(s@.subrange(0, i as int)),
        decreases n - i,
    {
        let c = s.get_char(i);
        emit_char(out, c);
        proof {
            lemma_enc_body_push(s@.subrange(0, i as int), c);
            assert(s@.subrange(0, i as int).push(c) =~= s@.subrange(0, i + 1));
            assert(out@ =~= old(out)@ + enc_str_body(s@.subrange(0, i + 1)));
        }
        i = i + 1;
    }
    proof {
        assert(s@.subrange(0, n as int) =~= s@);
    }
}

/// Appends an encoded string.
fn emit_string(out: &mut Vec<char>, s: &str)
    ensures
        final(out)@ == old(out)@ + enc_string(s@),
{
    out.push('"');
    emit_str_body(out, s);
    out.push('"');
    proof {
        assert(out@ =~= old(out)@ + enc_string(s@));
    }
}

/// Appends one encoded record.
fn emit_record(out: &mut Vec<char>, a: &WalkthroughArticle)
    ensures
        final(out)@ == old(out)@ + enc_record(a@),
{
    out.push('{');
    out.push('"');
    out.push('t');
    out.push('i');
    out.push('t');
    out.push('l');
    out.push('e');
    out.push('"');
    out.push(':');
    proof {
        assert(out@ =~= old(out)@ + title_tok());
    }
    emit_string(out, a.title.as_str());
    let ghost after_title = out@;
    out.push(',');
    out.push('"');
    out.push('l');
    out.push('i');
    out.push('n');
    out.push('k');
    out.push('"');
    out.push(':');
    proof {
        assert(out@ =~= after_title + link_tok());
    }
    emit_string(out, a.link.as_str());
    out.push('}');
    proof {
        assert(out@ =~= old(out)@ + enc_record(a@));
    }
}

/// Appends what follows the first record: the records from `k` on, then `]`.
fn emit_records_rest(out: &mut Vec<char>, arts: &Vec<WalkthroughArticle>, k: usize)
    requires
        k <= arts.len(),
    ensures
        final(out)@ == old(out)@ + enc_records_rest(arts.deep_view().skip(k as int)),
    decreases arts.len() - k,
{
    let ghost dv = arts.deep_view();
    if k == arts.len() {
        out.push(']');
        proof {
            assert(dv.skip(k as int) =~= Seq::<ArticleView>::empty());
            assert(out@ =~= old(out)@ + enc_records_rest(dv.skip(k as int)));
        }
    } else {
        out.push(',');
        assert(dv[k as int] == arts[k as int].deep_view());
        emit_record(out, &arts[k]);
        emit_records_rest(out, arts, k + 1);
        proof {
            assert(dv.skip(k as int)[0] == dv[k as int]);
            assert(dv.skip(k as int).drop_first() =~= dv.skip(k + 1));
            assert(enc_records_rest(dv.skip(k as int)) == seq![','] + enc_record(dv[k as int])
                + enc_records_rest(dv.skip(k + 1)));
            assert(out@ =~= old(out)@ + enc_records_rest(dv.skip(k as int)));
        }
    }
}

/// Appends an encoded record array.
fn emit_array(out: &mut Vec<char>, arts: &Vec<WalkthroughArticle>)
    ensures
        final(out)@ == old(out)@ + enc_array(arts.deep_view()),
{
    let ghost dv = arts.deep_view();
    out.push('[');
    if arts.len() == 0 {
        out.push(']');
        proof {
            assert(out@ =~= old(out)@ + enc_array(dv));
        }
    } else {
        assert(dv[0] == arts[0].deep_view());
        emit_record(out, &arts[0]);
        emit_records_rest(out, arts, 1);
        proof {
            assert(dv.skip(1) =~= dv.drop_first());
            assert(out@ =~= old(out)@ + enc_array(dv));
        }
    }
}

/// Appends one encoded entry.
fn emit_entry(out: &mut Vec<char>, e: &IssueEntry)
    ensures
        final(out)@ == old(out)@ + enc_entry(e@),
{
    emit_string(out, e.link.as_str());
    out.push(':');
    emit_array(out, &e.articles);
    proof {
        assert(out@ =~= old(out)@ + enc_entry(e@));
    }
}

/// Appends what follows the first entry: the entries from `k` on, then `}`.
fn emit_entries_rest(out: &mut Vec<char>, entries: &Vec<IssueEntry>, k: usize)
    requires
        k <= entries.len(),
    ensures
        final(out)@ == old(out)@ + enc_entries_rest(entries.deep_view().skip(k as int)),
    decreases entries.len() - k,
{
    let ghost dv = entries.deep_view();
    if k == entries.len() {
        out.push('}');
        proof {
            assert(dv.skip(k as int) =~= Seq::<EntryView>::empty());
            assert(out@ =~= old(out)@ + enc_entries_rest(dv.skip(k as int)));
        }
    } else {
        out.push(',');
        assert(dv[k as int] == entries[k as int].deep_view());
        emit_entry(out, &entries[k]);
        emit_entries_rest(out, entries, k + 1);
        proof {
            assert(dv.skip(k as int)[0] == dv[k as int]);
            assert(dv.skip(k as int).drop_first() =~= dv.skip(k + 1));
            assert(enc_entries_rest(dv.skip(k as int)) == seq![','] + enc_entry(dv[k as int])
                + enc_entries_rest(dv.skip(k + 1)));
            assert(out@ =~= old(out)@ + enc_entries_rest(dv.skip(k as int)));
        }
    }
}

/// Writes the archive in the cache text format.
pub fn encode_archive(archive: &IssueArchive) -> (r: String)
    ensures
        r@ == enc_archive(archive.entry_seq()),
{
    let entries: &Vec<IssueEntry> = archive.entries();
    let ghost dv = archive.entry_seq();
    let mut out: Vec<char> = Vec::new();
    out.push('{');
    if entries.len() == 0 {
        out.push('}');
        proof {
            assert(out@ =~= enc_archive(dv));
        }
    } else {
        assert(dv[0] == entries[0].deep_view());
        emit_entry(&mut out, &entries[0]);
        emit_entries_rest(&mut out, entries, 1);
        proof {
            assert(dv.skip(1) =~= dv.drop_first());
            assert(out@ =~= enc_archive(dv));
        }
    }
    chars_to_string(&out)
}

/// Why loading the cache content failed.
#[derive(Debug, Clone, Copy, PartialEq, Eq, Structural)]
pub enum DecodeError {
    /// The content is neither empty nor a well-formed encoded archive with
    /// unique links.
    Malformed,
}

/// Whether the fixed token `tok` stands at position `i`.
fn expect_str(s: &Vec<char>, i: usize, tok: &str) -> (r: bool)
    ensures
        r == expect_tok(s@, i as int, tok@),
{
    let tn: usize = tok.unicode_len();
    if i > s.len() || s.len() - i < tn {
        return false;
    }
    let mut m: usize = 0;
    while m < tn
        invariant
            0 <= m <= tn,
            i + tn <= s.len(),
            tn == tok@.len(),
            forall|q: int| 0 <= q < m ==> s@[i + q] == tok@[q],
        decreases tn - m,
    {
        if s[i + m] != tok.get_char(m) {
            proof {
                assert(s@.subrange(i as int, i + tn) [m as int] == s@[i + m]);
            }
            return false;
        }
        m = m + 1;
    }
    proof {
        assert(s@.subrange(i as int, i + tn as int) =~= tok@);
    }
    true
}

/// Reads an encoded string body up to and past its closing quote.
fn parse_str_body_exec(s: &Vec<char>, i: usize) -> (r: Option<(Vec<char>, usize)>)
    ensures
        match r {
            Option::Some(p) => parse_str_body(s@, i as int) == Option::Some((p.0@, p.1 as int))
                && i < p.1 <= s.len(),
            Option::None => parse_str_body(s@, i as int) is None,
        },
    decreases s@.len() - i,
{
    if i >= s.len() {
        return Option::None;
    }
    let c: char = s[i];
    if c == '"' {
        let v: Vec<char> = Vec::new();
        proof {
            assert(v@ =~= Seq::<char>::empty());
        }
        return Option::Some((v, i + 1));
    }
    if c == '\\' {
        if i + 1 < s.len() && (s[i + 1] == '"' || s[i + 1] == '\\') {
            match parse_str_body_exec(s, i + 2) {
                Option::None => Option::None,
                Option::Some((t, j)) => {
                    let mut v: Vec<char> = Vec::new();
                    v.push(s[i + 1]);
                    let mut t = t;
                    let ghost tv = t@;
                    v.append(&mut t);
                    proof {
                        assert(v@ =~= seq![s@[i + 1]] + tv);
                    }
                    Option::Some((v, j))
                },
            }
        } else {
            Option::None
        }
    } else {
        match parse_str_body_exec(s, i + 1) {
            Option::None => Option::None,
            Option::Some((t, j)) => {
                let mut v: Vec<char> = Vec::new();
                v.push(c);
                let mut t = t;
                let ghost tv = t@;
                v.append(&mut t);
                proof {
                    assert(v@ =~= seq![s@[i as int]] + tv);
                }
                Option::Some((v, j))
            },
        }
    }
}

/// Reads an encoded string.
fn parse_string_exec(s: &Vec<char>, i: usize) -> (r: Option<(String, usize)>)
    ensures
        match r {
            Option::Some(p) => parse_string(s@, i as int) == Option::Some((p.0@, p.1 as int))
                && i < p.1 <= s.len(),
            Option::None => parse_string(s@, i as int) is None,
        },
{
    if i < s.len() && s[i] == '"' {
        match parse_str_body_exec(s, i + 1) {
            Option::None => Option::None,
            Option::Some((t, j)) => Option::Some((chars_to_string(&t), j)),
        }
    } else {
        Option::None
    }
}

/// Reads one encoded record.
fn parse_record_exec(s: &Vec<char>, i: usize) -> (r: Option<(WalkthroughArticle, usize)>)
    ensures
        match r {
            Option::Some(p) => parse_record(s@, i as int) == Option::Some((p.0@, p.1 as int))
                && i < p.1 <= s.len(),
            Option::None => parse_record(s@, i as int) is None,
        },
{
    proof {
        reveal_strlit("{\"title\":");
        assert("{\"title\":"@ =~= title_tok());
        reveal_strlit(",\"link\":");
        assert(",\"link\":"@ =~= link_tok());
    }
    if !expect_str(s, i, "{\"title\":") {
        return Option::None;
    }
    let sn: usize = s.len();
    proof {
        assert(i + 9 <= sn);
    }
    match parse_string_exec(s, i + 9) {
        Option::None => Option::None,
        Option::Some((t, j)) => {
            if !expect_str(s, j, ",\"link\":") {
                return Option::None;
            }
            proof {
                assert(j + 8 <= sn);
            }
            match parse_string_exec(s, j + 8) {
                Option::None => Option::None,
                Option::Some((l, m)) => {
                    if m < s.len() && s[m] == '}' {
                        Option::Some((WalkthroughArticle { title: t, link: l }, m + 1))
                    } else {
                        Option::None
                    }
                },
            }
        },
    }
}

/// Reads what follows the first record of an array.
fn parse_records_rest_exec(s: &Vec<char>, i: usize) -> (r: Option<(Vec<WalkthroughArticle>, usize)>)
    ensures
        match r {
            Option::Some(p) => parse_records_rest(s@, i as int) == Option::Some(
                (p.0.deep_view(), p.1 as int),
            ) && i < p.1 <= s.len(),
            Option::None => parse_records_rest(s@, i as int) is None,
        },
    decreases s@.len() - i,
{
    if i >= s.len() {
        return Option::None;
    }
    if s[i] == ']' {
        let v: Vec<WalkthroughArticle> = Vec::new();
        proof {
            assert(v.deep_view() =~= Seq::<ArticleView>::empty());
        }
        return Option::Some((v, i + 1));
    }
    if s[i] != ',' {
        return Option::None;
    }
    match parse_record_exec(s, i + 1) {
        Option::None => Option::None,
        Option::Some((a, j)) => {
            match parse_records_rest_exec(s, j) {
                Option::None => Option::None,
                Option::Some((rs, m)) => {
                    let ghost adv = a@;
                    let ghost rsdv = rs.deep_view();
                    let mut v: Vec<WalkthroughArticle> = Vec::new();
                    v.push(a);
                    let mut rs = rs;
                    v.append(&mut rs);
                    proof {
                        assert(v.deep_view() =~= seq![adv] + rsdv);
                    }
                    Option::Some((v, m))
                },
            }
        },
    }
}

/// Reads an encoded record array.
fn parse_array_exec(s: &Vec<char>, i: usize) -> (r: Option<(Vec<WalkthroughArticle>, usize)>)
    ensures
        match r {
            Option::Some(p) => parse_array(s@, i as int) == Option::Some(
                (p.0.deep_view(), p.1 as int),
            ) && i < p.1 <= s.len(),
            Option::None => parse_array(s@, i as int) is None,
        },
{
    if !(i < s.len() && i + 1 < s.len() && s[i] == '[') {
        return Option::None;
    }
    if s[i + 1] == ']' {
        let v: Vec<WalkthroughArticle> = Vec::new();
        proof {
            assert(v.deep_view() =~= Seq::<ArticleView>::empty());
        }
        return Option::Some((v, i + 2));
    }
    match parse_record_exec(s, i + 1) {
        Option::None => Option::None,
        Option::Some((a, j)) => {
            match parse_records_rest_exec(s, j) {
                Option::None => Option::None,
                Option::Some((rs, m)) => {
                    let ghost adv = a@;
                    let ghost rsdv = rs.deep_view();
                    let mut v: Vec<WalkthroughArticle> = Vec::new();
                    v.push(a);
                    let mut rs = rs;
                    v.append(&mut rs);
                    proof {
                        assert(v.deep_view() =~= seq![adv] + rsdv);
                    }
                    Option::Some((v, m))
                },
            }
        },
    }
}

/// Reads one encoded entry.
fn parse_entry_exec(s: &Vec<char>, i: usize) -> (r: Option<(IssueEntry, usize)>)
    ensures
        match r {
            Option::Some(p) => parse_entry(s@, i as int) == Option::Some((p.0@, p.1 as int)) && i
                < p.1 <= s.len(),
            Option::None => parse_entry(s@, i as int) is None,
        },
{
    match parse_string_exec(s, i) {
        Option::None => Option::None,
        Option::Some((k, j)) => {
            if j < s.len() && s[j] == ':' {
                match parse_array_exec(s, j + 1) {
                    Option::None => Option::None,
                    Option::Some((rs, m)) => Option::Some(
                        (IssueEntry { link: k, articles: rs }, m),
                    ),
                }
            } else {
                Option::None
            }
        },
    }
}

/// Reads what follows the first entry of an archive.
fn parse_entries_rest_exec(s: &Vec<char>, i: usize) -> (r: Option<(Vec<IssueEntry>, usize)>)
    ensures
        match r {
            Option::Some(p) => parse_entries_rest(s@, i as int) == Option::Some(
                (p.0.deep_view(), p.1 as int),
            ) && i < p.1 <= s.len(),
            Option::None => parse_entries_rest(s@, i as int) is None,
        },
    decreases s@.len() - i,
{
    if i >= s.len() {
        return Option::None;
    }
    if s[i] == '}' {
        let v: Vec<IssueEntry> = Vec::new();
        proof {
            assert(v.deep_view() =~= Seq::<EntryView>::empty());
        }
        return Option::Some((v, i + 1));
    }
    if s[i] != ',' {
        return Option::None;
    }
    match parse_entry_exec(s, i + 1) {
        Option::None => Option::None,
        Option::Some((e, j)) => {
            match parse_entries_rest_exec(s, j) {
                Option::None => Option::None,
                Option::Some((es, m)) => {
                    let ghost edv = e@;
                    let ghost esdv = es.deep_view();
                    let mut v: Vec<IssueEntry> = Vec::new();
                    v.push(e);
                    let mut es = es;
                    v.append(&mut es);
                    proof {
                        assert(v.deep_view() =~= seq![edv] + esdv);
                    }
                    Option::Some((v, m))
                },
            }
        },
    }
}

/// Reads a whole encoded archive; the text must hold nothing else.
fn parse_archive_exec(s: &Vec<char>) -> (r: Option<Vec<IssueEntry>>)
    ensures
        match r {
            Option::Some(v) => parse_archive_chars(s@) == Option::Some(v.deep_view()),
            Option::None => parse_archive_chars(s@) is None,
        },
{
    if !(s.len() >= 2 && s[0] == '{') {
        return Option::None;
    }
    if s[1] == '}' {
        if s.len() == 2 {
            let v: Vec<IssueEntry> = Vec::new();
            proof {
                assert(v.deep_view() =~= Seq::<EntryView>::empty());
            }
            return Option::Some(v);
        } else {
            return Option::None;
        }
    }
    match parse_entry_exec(s, 1) {
        Option::None => Option::None,
        Option::Some((e, j)) => {
            match parse_entries_rest_exec(s, j) {
                Option::None => Option::None,
                Option::Some((es, m)) => {
                    if m == s.len() {
                        let ghost edv = e@;
                        let ghost esdv = es.deep_view();
                        let mut v: Vec<IssueEntry> = Vec::new();
                        v.push(e);
                        let mut es = es;
                        v.append(&mut es);
                        proof {
                            assert(v.deep_view() =~= seq![edv] + esdv);
                        }
                        Option::Some(v)
                    } else {
                        Option::None
                    }
                },
            }
        },
    }
}

/// Reads an archive out of cache text: the text must be one whole encoded
/// archive whose entries carry unique links.
pub fn decode_archive(s: &str) -> (r: Option<IssueArchive>)
    ensures
        match r {
            Option::Some(a) => a.wf() && decode_spec(s@) == Option::Some(a.entry_seq()),
            Option::None => decode_spec(s@) is None,
        },
{
    let chars: Vec<char> = str_to_chars(s);
    match parse_archive_exec(&chars) {
        Option::None => Option::None,
        Option::Some(entries) => {
            let ghost es = entries.deep_view();
            let n: usize = entries.len();
            let mut a = IssueArchive::new();
            let mut k: usize = 0;
            while k < n
                invariant
                    0 <= k <= n,
                    n == es.len(),
                    es == entries.deep_view(),
                    n == entries.len(),
                    parse_archive_chars(s@) == Option::Some(es),
                    a.wf(),
                    a.entry_seq() == es.subrange(0, k as int),
                decreases n - k,
            {
                assert(es[k as int] == entries[k as int].deep_view());
                if a.contains_issue(entries[k].link.as_str()) {
                    proof {
                        assert(crate::archive::has_link(a.entry_seq(), es[k as int].link));
                        let q = choose|q: int|
                            0 <= q < a.entry_seq().len() && (#[trigger] a.entry_seq()[q]).link
                                == es[k as int].link;
                        assert(a.entry_seq()[q] == es.subrange(0, k as int)[q]);
                        assert(es.subrange(0, k as int)[q] == es[q]);
                        assert(es[q].link == es[k as int].link);
                        assert(0 <= q < k < es.len());
                        assert(!crate::archive::unique_links(es));
                    }
                    return Option::None;
                }
                let link: String = clone_string(&entries[k].link);
                let articles: Vec<WalkthroughArticle> = clone_articles(&entries[k].articles);
                a.insert(link, articles);
                proof {
                    assert(a.entry_seq() =~= es.subrange(0, k + 1));
                }
                k = k + 1;
            }
            proof {
                assert(es.subrange(0, n as int) =~= es);
            }
            Option::Some(a)
        },
    }
}

/// What the cache yields for given content: nothing where the file was
/// absent or empty, the decoded archive where the content decodes, and an
/// error otherwise.
pub fn load_archive_content(content: Option<&str>) -> (r: Result<Option<IssueArchive>, DecodeError>)
    ensures
        match content {
            Option::None => r matches Ok(a) && a is None,
            Option::Some(s) => if s@.len() == 0 {
                r matches Ok(a) && a is None
            } else {
                match decode_spec(s@) {
                    Option::Some(es) => r matches Ok(a) && a matches Some(ar) && ar.wf()
                        && ar.entry_seq() == es,
                    Option::None => r == Err::<Option<IssueArchive>, DecodeError>(
                        DecodeError::Malformed,
                    ),
                }
            },
        },
{
    match content {
        Option::None => Ok(Option::None),
        Option::Some(s) => {
            if s.unicode_len() == 0 {
                Ok(Option::None)
            } else {
                match decode_archive(s) {
                    Option::Some(a) => Ok(Option::Some(a)),
                    Option::None => Err(DecodeError::Malformed),
                }
            }
        },
    }
}

} // verus!
