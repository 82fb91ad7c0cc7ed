//! Properties of escaping and of the HTML document: escaping is undone by
//! the usual chain of replacements, escaped text holds no markup, and the
//! document holds markup only in its own tags.
use vstd::prelude::*;
use crate::blocks::{blocks_of, BlockModel};
use crate::render::{block_html, blocks_html, escape, escape_char, html_of, list_items_html};

verus! {

// ---------------------------------------------------------------------------
// Undoing the escapes
// ---------------------------------------------------------------------------

/// `s` starts with `p`.
pub open spec fn starts_with(s: Seq<char>, p: Seq<char>) -> bool {
    p.len() <= s.len() && s.take(p.len() as int) == p
}

/// `s` with every occurrence of the non-empty `pat`, found from left to
/// right without overlapping, replaced by `rep` (what `str::replace` does).
pub open spec fn replace_all(s: Seq<char>, pat: Seq<char>, rep: Seq<char>) -> Seq<char>
    decreases s.len(),
{
    if s.len() == 0 {
        Seq::empty()
    } else if pat.len() > 0 && starts_with(s, pat) {
        rep + replace_all(s.skip(pat.len() as int), pat, rep)
    } else {
        seq![s[0]] + replace_all(s.drop_first(), pat, rep)
    }
}

/// HTML text put back: `&quot;`, `&gt;`, `&lt;` and then `&amp;` replaced
/// by the characters they stand for, in that order.
pub open spec fn unescape_chain(s: Seq<char>) -> Seq<char> {
    replace_all(
        replace_all(
            replace_all(replace_all(s, escape_char('"'), seq!['"']), escape_char('>'), seq!['>']),
            escape_char('<'),
            seq!['<'],
        ),
        escape_char('&'),
        seq!['&'],
    )
}

/// The character whose entity the `k`-th replacement of the chain undoes.
spec fn chain_char(k: nat) -> char {
    if k == 0 {
        '"'
    } else if k == 1 {
        '>'
    } else if k == 2 {
        '<'
    } else {
        '&'
    }
}

/// After `k` replacements of the chain, `c` stands as itself.
spec fn undone(c: char, k: nat) -> bool {
    ||| (k >= 1 && c == '"')
    ||| (k >= 2 && c == '>')
    ||| (k >= 3 && c == '<')
    ||| (k >= 4 && c == '&')
}

/// How `c` reads after `k` replacements of the chain.
spec fn staged_char(c: char, k: nat) -> Seq<char> {
    if undone(c, k) {
        seq![c]
    } else {
        escape_char(c)
    }
}

/// How `escape(s)` reads after `k` replacements of the chain.
spec fn staged(s: Seq<char>, k: nat) -> Seq<char>
    decreases s.len(),
{
    if s.len() == 0 {
        Seq::empty()
    } else {
        staged_char(s[0], k) + staged(s.drop_first(), k)
    }
}

/// Escaping a concatenation escapes each part.
pub proof fn lemma_escape_add(a: Seq<char>, b: Seq<char>)
    ensures
        escape(a + b) == escape(a) + escape(b),
    decreases b.len(),
{
    if b.len() == 0 {
        assert(a + b =~= a);
        assert(escape(a) + escape(b) =~= escape(a));
    } else {
        lemma_escape_add(a, b.drop_last());
        assert((a + b).drop_last() =~= a + b.drop_last());
        assert(escape(a) + escape(b) =~= escape(a) + escape(b.drop_last()) + escape_char(b.last()));
    }
}

proof fn lemma_escape_is_staged(s: Seq<char>)
    ensures
        escape(s) == staged(s, 0),
    decreases s.len(),
{
    if s.len() > 0 {
        let rest = s.drop_first();
        let one = seq![s[0]];
        assert(s =~= one + rest);
        lemma_escape_add(one, rest);
        assert(one.drop_last() =~= Seq::<char>::empty());
        assert(escape(one.drop_last()) =~= Seq::<char>::empty());
        assert(escape(one) =~= escape_char(s[0]));
        lemma_escape_is_staged(rest);
    }
}

proof fn lemma_staged_done(s: Seq<char>)
    ensures
        staged(s, 4) == s,
    decreases s.len(),
{
    if s.len() > 0 {
        lemma_staged_done(s.drop_first());
        assert(staged_char(s[0], 4) =~= seq![s[0]]);
        assert(s =~= seq![s[0]] + s.drop_first());
    }
}

/// A prefix without `&` is left alone by a replacement whose pattern starts
/// with `&`.
proof fn lemma_replace_plain_prefix(p: Seq<char>, rest: Seq<char>, pat: Seq<char>, rep: Seq<char>)
    requires
        pat.len() > 0,
        pat[0] == '&',
        forall|j: int| 0 <= j < p.len() ==> p[j] != '&',
    ensures
        replace_all(p + rest, pat, rep) == p + replace_all(rest, pat, rep),
    decreases p.len(),
{
    if p.len() == 0 {
        assert(p + rest =~= rest);
        assert(p + replace_all(rest, pat, rep) =~= replace_all(rest, pat, rep));
    } else {
        let w = p + rest;
        assert(w[0] == p[0]);
        if starts_with(w, pat) {
            assert(w.take(pat.len() as int)[0] == w[0]);
        }
        assert(w.drop_first() =~= p.drop_first() + rest);
        lemma_replace_plain_prefix(p.drop_first(), rest, pat, rep);
        assert(p =~= seq![p[0]] + p.drop_first());
        assert(p + replace_all(rest, pat, rep) =~= seq![p[0]] + (p.drop_first() + replace_all(
            rest,
            pat,
            rep,
        )));
    }
}

proof fn lemma_staged_char_step(c: char, k: nat, rest: Seq<char>)
    requires
        k < 4,
    ensures
        replace_all(staged_char(c, k) + rest, escape_char(chain_char(k)), seq![chain_char(k)])
            == staged_char(c, k + 1) + replace_all(
            rest,
            escape_char(chain_char(k)),
            seq![chain_char(k)],
        ),
{
    let pat = escape_char(chain_char(k));
    let rep = seq![chain_char(k)];
    let e = staged_char(c, k);
    let w = e + rest;
    if c == chain_char(k) {
        assert(e == pat);
        assert(w.take(pat.len() as int) =~= pat);
        assert(w.skip(pat.len() as int) =~= rest);
        assert(staged_char(c, k + 1) == rep);
    } else if e == seq![c] && c != '&' {
        assert(staged_char(c, k + 1) == e);
        lemma_replace_plain_prefix(e, rest, pat, rep);
    } else {
        assert(e == escape_char(c));
        assert(staged_char(c, k + 1) == e);
        assert(c == '&' || c == '<' || c == '>' || c == '"');
        assert(w[0] == '&');
        assert(w[1] == e[1]);
        assert(e[1] != pat[1]);
        if starts_with(w, pat) {
            assert(w.take(pat.len() as int)[1] == w[1]);
        }
        let tail = e.drop_first();
        assert(w.drop_first() =~= tail + rest);
        lemma_replace_plain_prefix(tail, rest, pat, rep);
        assert(e =~= seq!['&'] + tail);
        assert(e + replace_all(rest, pat, rep) =~= seq!['&'] + (tail + replace_all(rest, pat, rep)));
    }
}

proof fn lemma_staged_step(s: Seq<char>, k: nat)
    requires
        k < 4,
    ensures
        replace_all(staged(s, k), escape_char(chain_char(k)), seq![chain_char(k)]) == staged(
            s,
            k + 1,
        ),
    decreases s.len(),
{
    if s.len() > 0 {
        lemma_staged_char_step(s[0], k, staged(s.drop_first(), k));
        lemma_staged_step(s.drop_first(), k);
    }
}

/// Escaping is undone by replacing `&quot;`, `&gt;`, `&lt;` and then
/// `&amp;` by the characters they stand for.
pub proof fn law_escape_undone_by_replacements(s: Seq<char>)
    ensures
        unescape_chain(escape(s)) == s,
{
    lemma_escape_is_staged(s);
    lemma_staged_step(s, 0);
    lemma_staged_step(s, 1);
    lemma_staged_step(s, 2);
    lemma_staged_step(s, 3);
    lemma_staged_done(s);
}

/// No `<`, `>` or `"` in `s`.
pub open spec fn free_of_markup(s: Seq<char>) -> bool {
    forall|j: int| 0 <= j < s.len() ==> #[trigger] s[j] != '<' && s[j] != '>' && s[j] != '"'
}

/// Escaped text holds no `<`, `>` or `"`, so it cannot open or close a tag
/// or end an attribute value.
pub proof fn law_escape_free_of_markup(s: Seq<char>)
    ensures
        free_of_markup(escape(s)),
    decreases s.len(),
{
    if s.len() > 0 {
        law_escape_free_of_markup(s.drop_last());
        let a = escape(s.drop_last());
        let e = escape_char(s.last());
        assert(free_of_markup(e));
        assert forall|j: int| 0 <= j < (a + e).len() implies #[trigger] (a + e)[j] != '<' && (a
            + e)[j] != '>' && (a + e)[j] != '"' by {
            if j < a.len() {
                assert((a + e)[j] == a[j]);
            } else {
                assert((a + e)[j] == e[j - a.len()]);
            }
        }
    }
}

// ---------------------------------------------------------------------------
// The document holds markup only in its tags
// ---------------------------------------------------------------------------

/// A piece of the HTML document: one of its tags, or text.
pub enum HtmlPiece {
    Tag(Seq<char>),
    Text(Seq<char>),
}

/// The tags that the document is made of.
pub open spec fn is_document_tag(t: Seq<char>) -> bool {
    ||| t == "<html><body>"@
    ||| t == "</body></html>"@
    ||| t == "<h1>"@
    ||| t == "</h1>"@
    ||| t == "<p>"@
    ||| t == "</p>"@
    ||| t == "<ol>"@
    ||| t == "</ol>"@
    ||| t == "<ul>"@
    ||| t == "</ul>"@
    ||| t == "<li>"@
    ||| t == "</li>"@
}

/// A tag of the document, or text without markup.
pub open spec fn piece_ok(p: HtmlPiece) -> bool {
    match p {
        HtmlPiece::Tag(t) => is_document_tag(t),
        HtmlPiece::Text(s) => free_of_markup(s),
    }
}

/// The characters of a piece.
pub open spec fn piece_chars(p: HtmlPiece) -> Seq<char> {
    match p {
        HtmlPiece::Tag(t) => t,
        HtmlPiece::Text(s) => s,
    }
}

/// The pieces one after the other.
pub open spec fn render_pieces(ps: Seq<HtmlPiece>) -> Seq<char>
    decreases ps.len(),
{
    if ps.len() == 0 {
        Seq::empty()
    } else {
        render_pieces(ps.drop_last()) + piece_chars(ps.last())
    }
}

/// `open`, the escaped `s`, `close`.
pub open spec fn element_pieces(open: Seq<char>, s: Seq<char>, close: Seq<char>) -> Seq<HtmlPiece> {
    seq![HtmlPiece::Tag(open), HtmlPiece::Text(escape(s)), HtmlPiece::Tag(close)]
}

/// The pieces of the `<li>` elements of a list.
pub open spec fn list_pieces(items: Seq<Seq<char>>) -> Seq<HtmlPiece>
    decreases items.len(),
{
    if items.len() == 0 {
        Seq::empty()
    } else {
        list_pieces(items.drop_last()) + element_pieces("<li>"@, items.last(), "</li>"@)
    }
}

/// The pieces of one block.
pub open spec fn block_pieces(b: BlockModel) -> Seq<HtmlPiece> {
    match b {
        BlockModel::Heading(h) => element_pieces("<h1>"@, h, "</h1>"@),
        BlockModel::Paragraph(p) => element_pieces("<p>"@, p, "</p>"@),
        BlockModel::NumberedList(items) => seq![HtmlPiece::Tag("<ol>"@)] + list_pieces(items)
            + seq![HtmlPiece::Tag("</ol>"@)],
        BlockModel::BulletList(items) => seq![HtmlPiece::Tag("<ul>"@)] + list_pieces(items)
            + seq![HtmlPiece::Tag("</ul>"@)],
    }
}

/// The pieces of a sequence of blocks.
pub open spec fn blocks_pieces(bs: Seq<BlockModel>) -> Seq<HtmlPiece>
    decreases bs.len(),
{
    if bs.len() == 0 {
        Seq::empty()
    } else {
        blocks_pieces(bs.drop_last()) + block_pieces(bs.last())
    }
}

/// The pieces of the HTML document for `text`.
pub open spec fn html_pieces(text: Seq<char>) -> Seq<HtmlPiece> {
    seq![HtmlPiece::Tag("<html><body>"@)] + blocks_pieces(blocks_of(text)) + seq![
        HtmlPiece::Tag("</body></html>"@),
    ]
}

/// Every piece is a document tag or text without markup.
pub open spec fn all_pieces_ok(ps: Seq<HtmlPiece>) -> bool {
    forall|i: int| 0 <= i < ps.len() ==> piece_ok(#[trigger] ps[i])
}

proof fn lemma_render_add(a: Seq<HtmlPiece>, b: Seq<HtmlPiece>)
    ensures
        render_pieces(a + b) == render_pieces(a) + render_pieces(b),
    decreases b.len(),
{
    if b.len() == 0 {
        assert(a + b =~= a);
        assert(render_pieces(a) + render_pieces(b) =~= render_pieces(a));
    } else {
        lemma_render_add(a, b.drop_last());
        assert((a + b).drop_last() =~= a + b.drop_last());
        assert(render_pieces(a) + render_pieces(b) =~= render_pieces(a) + render_pieces(
            b.drop_last(),
        ) + piece_chars(b.last()));
    }
}

proof fn lemma_render_one(p: HtmlPiece)
    ensures
        render_pieces(seq![p]) == piece_chars(p),
{
    assert(seq![p].drop_last() =~= Seq::<HtmlPiece>::empty());
    assert(render_pieces(Seq::<HtmlPiece>::empty()) + piece_chars(p) =~= piece_chars(p));
}

proof fn lemma_ok_add(a: Seq<HtmlPiece>, b: Seq<HtmlPiece>)
    requires
        all_pieces_ok(a),
        all_pieces_ok(b),
    ensures
        all_pieces_ok(a + b),
{
    assert forall|i: int| 0 <= i < (a + b).len() implies piece_ok(#[trigger] (a + b)[i]) by {
        if i < a.len() {
            assert((a + b)[i] == a[i]);
        } else {
            assert((a + b)[i] == b[i - a.len()]);
        }
    }
}

proof fn lemma_element(open: Seq<char>, s: Seq<char>, close: Seq<char>)
    requires
        is_document_tag(open),
        is_document_tag(close),
    ensures
        render_pieces(element_pieces(open, s, close)) == open + escape(s) + close,
        all_pieces_ok(element_pieces(open, s, close)),
{
    let ps = element_pieces(open, s, close);
    assert(ps =~= seq![HtmlPiece::Tag(open)] + seq![HtmlPiece::Text(escape(s))] + seq![
        HtmlPiece::Tag(close),
    ]);
    lemma_render_add(
        seq![HtmlPiece::Tag(open)] + seq![HtmlPiece::Text(escape(s))],
        seq![HtmlPiece::Tag(close)],
    );
    lemma_render_add(seq![HtmlPiece::Tag(open)], seq![HtmlPiece::Text(escape(s))]);
    lemma_render_one(HtmlPiece::Tag(open));
    lemma_render_one(HtmlPiece::Text(escape(s)));
    lemma_render_one(HtmlPiece::Tag(close));
    law_escape_free_of_markup(s);
    assert forall|i: int| 0 <= i < ps.len() implies piece_ok(#[trigger] ps[i]) by {
        if i == 1 {
            assert(ps[i] == HtmlPiece::Text(escape(s)));
        }
    }
}

proof fn lemma_list_pieces(items: Seq<Seq<char>>)
    ensures
        render_pieces(list_pieces(items)) == list_items_html(items),
        all_pieces_ok(list_pieces(items)),
    decreases items.len(),
{
    if items.len() > 0 {
        lemma_list_pieces(items.drop_last());
        lemma_element("<li>"@, items.last(), "</li>"@);
        lemma_render_add(
            list_pieces(items.drop_last()),
            element_pieces("<li>"@, items.last(), "</li>"@),
        );
        lemma_ok_add(
            list_pieces(items.drop_last()),
            element_pieces("<li>"@, items.last(), "</li>"@),
        );
        assert(list_items_html(items.drop_last()) + ("<li>"@ + escape(items.last()) + "</li>"@)
            =~= list_items_html(items));
    }
}

proof fn lemma_wrapped(open: Seq<char>, inner: Seq<HtmlPiece>, close: Seq<char>)
    requires
        is_document_tag(open),
        is_document_tag(close),
        all_pieces_ok(inner),
    ensures
        render_pieces(seq![HtmlPiece::Tag(open)] + inner + seq![HtmlPiece::Tag(close)]) == open
            + render_pieces(inner) + close,
        all_pieces_ok(seq![HtmlPiece::Tag(open)] + inner + seq![HtmlPiece::Tag(close)]),
{
    let a = seq![HtmlPiece::Tag(open)];
    let c = seq![HtmlPiece::Tag(close)];
    lemma_render_add(a + inner, c);
    lemma_render_add(a, inner);
    lemma_render_one(HtmlPiece::Tag(open));
    lemma_render_one(HtmlPiece::Tag(close));
    assert(all_pieces_ok(a)) by {
        assert forall|i: int| 0 <= i < a.len() implies piece_ok(#[trigger] a[i]) by {
            assert(a[i] == HtmlPiece::Tag(open));
        }
    }
    assert(all_pieces_ok(c)) by {
        assert forall|i: int| 0 <= i < c.len() implies piece_ok(#[trigger] c[i]) by {
            assert(c[i] == HtmlPiece::Tag(close));
        }
    }
    lemma_ok_add(a, inner);
    lemma_ok_add(a + inner, c);
}

proof fn lemma_block_pieces(b: BlockModel)
    ensures
        render_pieces(block_pieces(b)) == block_html(b),
        all_pieces_ok(block_pieces(b)),
{
    match b {
        BlockModel::Heading(h) => lemma_element("<h1>"@, h, "</h1>"@),
        BlockModel::Paragraph(p) => lemma_element("<p>"@, p, "</p>"@),
        BlockModel::NumberedList(items) => {
            lemma_list_pieces(items);
            lemma_wrapped("<ol>"@, list_pieces(items), "</ol>"@);
        },
        BlockModel::BulletList(items) => {
            lemma_list_pieces(items);
            lemma_wrapped("<ul>"@, list_pieces(items), "</ul>"@);
        },
    }
}

proof fn lemma_blocks_pieces(bs: Seq<BlockModel>)
    ensures
        render_pieces(blocks_pieces(bs)) == blocks_html(bs),
        all_pieces_ok(blocks_pieces(bs)),
    decreases bs.len(),
{
    if bs.len() > 0 {
        lemma_blocks_pieces(bs.drop_last());
        lemma_block_pieces(bs.last());
        lemma_render_add(blocks_pieces(bs.drop_last()), block_pieces(bs.last()));
        lemma_ok_add(blocks_pieces(bs.drop_last()), block_pieces(bs.last()));
    }
}

/// The HTML document is made of its own tags (`<html><body>`, `<h1>`,
/// `<p>`, `<ol>`, `<ul>`, `<li>`, their closing tags and `</body></html>`)
/// and of text without `<`, `>` or `"`: no markup comes from the text.
pub proof fn law_html_markup_only_in_tags(text: Seq<char>)
    ensures
        render_pieces(html_pieces(text)) == html_of(text),
        all_pieces_ok(html_pieces(text)),
{
    lemma_blocks_pieces(blocks_of(text));
    lemma_wrapped("<html><body>"@, blocks_pieces(blocks_of(text)), "</body></html>"@);
}

} // verus!
