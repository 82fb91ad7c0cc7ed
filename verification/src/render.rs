//! Rendering blocks as Markdown and as HTML.
use vstd::prelude::*;
use crate::blocks::{blocks_of, blocks_view, lines_view, parse_blocks, Block, BlockModel};
use crate::chars::{chars_of, decimal, push_decimal, push_range, push_str, string_of, string_of_range, trim, trim_bounds};

verus! {

// ---------------------------------------------------------------------------
// HTML escaping
// ---------------------------------------------------------------------------

/// The HTML text for one character: `&`, `<`, `>` and `"` become entities.
pub open spec fn escape_char(c: char) -> Seq<char> {
    if c == '&' {
        seq!['&', 'a', 'm', 'p', ';']
    } else if c == '<' {
        seq!['&', 'l', 't', ';']
    } else if c == '>' {
        seq!['&', 'g', 't', ';']
    } else if c == '"' {
        seq!['&', 'q', 'u', 'o', 't', ';']
    } else {
        seq![c]
    }
}

/// `s` with `&`, `<`, `>` and `"` replaced by their HTML entities.
pub open spec fn escape(s: Seq<char>) -> Seq<char>
    decreases s.len(),
{
    if s.len() == 0 {
        Seq::empty()
    } else {
        escape(s.drop_last()) + escape_char(s.last())
    }
}

/// Appends `escape(s)` to `out`.
pub fn push_escaped(out: &mut Vec<char>, s: &[char])
    ensures
        final(out)@ == old(out)@ + escape(s@),
{
    let ghost start = out@;
    let mut i: usize = 0;
    assert(s@.take(0) =~= Seq::<char>::empty());
    assert(start + escape(Seq::<char>::empty()) =~= start);
    while i < s.len()
        invariant
            i <= s@.len(),
            out@ == start + escape(s@.take(i as int)),
        decreases s@.len() - i,
    {
        let c = s[i];
        assert(s@.take(i + 1).drop_last() =~= s@.take(i as int));
        if c == '&' {
            push_str(out, "&amp;");
            proof {
                reveal_strlit("&amp;");
            }
        } else if c == '<' {
            push_str(out, "&lt;");
            proof {
                reveal_strlit("&lt;");
            }
        } else if c == '>' {
            push_str(out, "&gt;");
            proof {
                reveal_strlit("&gt;");
            }
        } else if c == '"' {
            push_str(out, "&quot;");
            proof {
                reveal_strlit("&quot;");
            }
        } else {
            out.push(c);
        }
        i = i + 1;
        assert(out@ =~= start + escape(s@.take(i as int)));
    }
    assert(s@.take(s@.len() as int) =~= s@);
}

/// `s` with `&`, `<`, `>` and `"` replaced by `&amp;`, `&lt;`, `&gt;` and
/// `&quot;`.
pub fn escape_html(s: &str) -> (r: String)
    ensures
        r@ == escape(s@),
{
    let v = chars_of(s);
    let mut out: Vec<char> = Vec::new();
    push_escaped(&mut out, v.as_slice());
    assert(out@ =~= escape(s@));
    string_of(out.as_slice())
}

// ---------------------------------------------------------------------------
// HTML
// ---------------------------------------------------------------------------

/// The `<li>` elements of a list.
pub open spec fn list_items_html(items: Seq<Seq<char>>) -> Seq<char>
    decreases items.len(),
{
    if items.len() == 0 {
        Seq::empty()
    } else {
        list_items_html(items.drop_last()) + "<li>"@ + escape(items.last()) + "</li>"@
    }
}

/// The HTML of one block.
pub open spec fn block_html(b: BlockModel) -> Seq<char> {
    match b {
        BlockModel::Heading(h) => "<h1>"@ + escape(h) + "</h1>"@,
        BlockModel::Paragraph(p) => "<p>"@ + escape(p) + "</p>"@,
        BlockModel::NumberedList(items) => "<ol>"@ + list_items_html(items) + "</ol>"@,
        BlockModel::BulletList(items) => "<ul>"@ + list_items_html(items) + "</ul>"@,
    }
}

/// The HTML of a sequence of blocks, one after the other.
pub open spec fn blocks_html(bs: Seq<BlockModel>) -> Seq<char>
    decreases bs.len(),
{
    if bs.len() == 0 {
        Seq::empty()
    } else {
        blocks_html(bs.drop_last()) + block_html(bs.last())
    }
}

/// The HTML document for `text`.
pub open spec fn html_of(text: Seq<char>) -> Seq<char> {
    "<html><body>"@ + blocks_html(blocks_of(text)) + "</body></html>"@
}

fn push_list_html(out: &mut Vec<char>, items: &Vec<Vec<char>>)
    ensures
        final(out)@ == old(out)@ + list_items_html(lines_view(items@)),
{
    let ghost start = out@;
    let ghost iv = lines_view(items@);
    let n = items.len();
    let mut k: usize = 0;
    assert(iv.take(0) =~= Seq::<Seq<char>>::empty());
    assert(start + list_items_html(Seq::<Seq<char>>::empty()) =~= start);
    while k < n
        invariant
            k <= n == items@.len(),
            iv == lines_view(items@),
            out@ == start + list_items_html(iv.take(k as int)),
        decreases n - k,
    {
        assert(iv.take(k + 1).drop_last() =~= iv.take(k as int));
        assert(iv[k as int] == items@[k as int]@);
        push_str(out, "<li>");
        push_escaped(out, items[k].as_slice());
        push_str(out, "</li>");
        k = k + 1;
        assert(out@ =~= start + list_items_html(iv.take(k as int)));
    }
    assert(iv.take(n as int) =~= iv);
}

fn push_block_html(out: &mut Vec<char>, b: &Block)
    ensures
        final(out)@ == old(out)@ + block_html(b@),
{
    let ghost start = out@;
    match b {
        Block::Heading(h) => {
            push_str(out, "<h1>");
            push_escaped(out, h.as_slice());
            push_str(out, "</h1>");
        },
        Block::Paragraph(p) => {
            push_str(out, "<p>");
            push_escaped(out, p.as_slice());
            push_str(out, "</p>");
        },
        Block::NumberedList(items) => {
            push_str(out, "<ol>");
            push_list_html(out, items);
            push_str(out, "</ol>");
        },
        Block::BulletList(items) => {
            push_str(out, "<ul>");
            push_list_html(out, items);
            push_str(out, "</ul>");
        },
    }
    assert(out@ =~= start + block_html(b@));
}

/// Renders `text` as an HTML document: `<html><body>`, then each block as
/// `<h1>`, `<p>`, `<ol>` or `<ul>` with `<li>` items, its text escaped, then
/// `</body></html>`.
pub fn to_html(text: &str) -> (r: String)
    ensures
        r@ == html_of(text@),
{
    let blocks = parse_blocks(text);
    let ghost bv = blocks_view(blocks@);
    let mut out: Vec<char> = Vec::new();
    push_str(&mut out, "<html><body>");
    let ghost start = out@;
    let n = blocks.len();
    let mut k: usize = 0;
    assert(bv.take(0) =~= Seq::<BlockModel>::empty());
    assert(start + blocks_html(Seq::<BlockModel>::empty()) =~= start);
    while k < n
        invariant
            k <= n == blocks@.len(),
            bv == blocks_view(blocks@),
            out@ == start + blocks_html(bv.take(k as int)),
        decreases n - k,
    {
        assert(bv.take(k + 1).drop_last() =~= bv.take(k as int));
        assert(bv[k as int] == blocks@[k as int]@);
        push_block_html(&mut out, &blocks[k]);
        k = k + 1;
        assert(out@ =~= start + blocks_html(bv.take(k as int)));
    }
    assert(bv.take(n as int) =~= bv);
    push_str(&mut out, "</body></html>");
    assert(out@ =~= html_of(text@));
    string_of(out.as_slice())
}

// ---------------------------------------------------------------------------
// Markdown
// ---------------------------------------------------------------------------

/// The lines `1. item`, `2. item`, ... of a numbered list.
pub open spec fn numbered_md(items: Seq<Seq<char>>) -> Seq<Seq<char>> {
    Seq::new(items.len(), |i: int| decimal((i + 1) as nat) + ". "@ + items[i])
}

/// The lines `- item` of a bullet list.
pub open spec fn bullet_md(items: Seq<Seq<char>>) -> Seq<Seq<char>> {
    items.map_values(|it: Seq<char>| "- "@ + it)
}

/// The Markdown lines of one block, each block followed by a blank line;
/// a heading is also preceded by a blank line unless nothing came before.
pub open spec fn block_md(b: BlockModel, nothing_before: bool) -> Seq<Seq<char>> {
    match b {
        BlockModel::Heading(h) => (if nothing_before {
            Seq::<Seq<char>>::empty()
        } else {
            seq![Seq::<char>::empty()]
        }) + seq!["# "@ + h, Seq::<char>::empty()],
        BlockModel::Paragraph(p) => seq![p, Seq::<char>::empty()],
        BlockModel::NumberedList(items) => numbered_md(items).push(Seq::<char>::empty()),
        BlockModel::BulletList(items) => bullet_md(items).push(Seq::<char>::empty()),
    }
}

/// The Markdown lines of a sequence of blocks.
pub open spec fn md_lines(bs: Seq<BlockModel>) -> Seq<Seq<char>>
    decreases bs.len(),
{
    if bs.len() == 0 {
        Seq::empty()
    } else {
        let prev = md_lines(bs.drop_last());
        prev + block_md(bs.last(), prev.len() == 0)
    }
}

/// The lines joined with newline characters between them.
pub open spec fn join_lines(ls: Seq<Seq<char>>) -> Seq<char>
    decreases ls.len(),
{
    if ls.len() == 0 {
        Seq::empty()
    } else if ls.len() == 1 {
        ls[0]
    } else {
        join_lines(ls.drop_last()) + seq!['\n'] + ls.last()
    }
}

/// The Markdown for `text`.
pub open spec fn markdown_of(text: Seq<char>) -> Seq<char> {
    trim(join_lines(md_lines(blocks_of(text))))
}

/// Appends one line to the output of `join_lines`.
fn emit_line(out: &mut Vec<char>, any: &mut bool, line: &[char], Ghost(ls): Ghost<Seq<Seq<char>>>)
    requires
        old(out)@ == join_lines(ls),
        *old(any) == (ls.len() > 0),
    ensures
        final(out)@ == join_lines(ls.push(line@)),
        *final(any),
{
    assert(ls.push(line@).drop_last() =~= ls);
    if *any {
        out.push('\n');
    }
    let ghost mid = out@;
    let mut i: usize = 0;
    while i < line.len()
        invariant
            i <= line@.len(),
            out@ == mid + line@.take(i as int),
        decreases line@.len() - i,
    {
        out.push(line[i]);
        i = i + 1;
        assert(out@ =~= mid + line@.take(i as int));
    }
    assert(line@.take(line@.len() as int) =~= line@);
    proof {
        if ls.len() == 0 {
            assert(out@ =~= join_lines(ls.push(line@)));
        }
    }
    *any = true;
}

/// `prefix` followed by `s`.
fn prefixed(prefix: &str, s: &[char]) -> (v: Vec<char>)
    ensures
        v@ == prefix@ + s@,
{
    let mut v: Vec<char> = Vec::new();
    push_str(&mut v, prefix);
    push_range(&mut v, s, 0, s.len());
    assert(s@.subrange(0, s@.len() as int) =~= s@);
    assert(v@ =~= prefix@ + s@);
    v
}

fn emit_block_md(
    out: &mut Vec<char>,
    any: &mut bool,
    b: &Block,
    Ghost(ls): Ghost<Seq<Seq<char>>>,
) -> (ls2: Ghost<Seq<Seq<char>>>)
    requires
        old(out)@ == join_lines(ls),
        *old(any) == (ls.len() > 0),
    ensures
        ls2@ == ls + block_md(b@, ls.len() == 0),
        final(out)@ == join_lines(ls2@),
        *final(any) == (ls2@.len() > 0),
{
    let empty: Vec<char> = Vec::new();
    match b {
        Block::Heading(h) => {
            let ghost mut cur = ls;
            if *any {
                emit_line(out, any, empty.as_slice(), Ghost(cur));
                proof {
                    cur = cur.push(Seq::<char>::empty());
                }
            }
            let line = prefixed("# ", h.as_slice());
            emit_line(out, any, line.as_slice(), Ghost(cur));
            proof {
                cur = cur.push(line@);
            }
            emit_line(out, any, empty.as_slice(), Ghost(cur));
            proof {
                cur = cur.push(Seq::<char>::empty());
                assert(cur =~= ls + block_md(b@, ls.len() == 0));
            }
            Ghost(cur)
        },
        Block::Paragraph(p) => {
            emit_line(out, any, p.as_slice(), Ghost(ls));
            emit_line(out, any, empty.as_slice(), Ghost(ls.push(p@)));
            assert(ls.push(p@).push(Seq::<char>::empty()) =~= ls + block_md(b@, ls.len() == 0));
            Ghost(ls.push(p@).push(Seq::<char>::empty()))
        },
        Block::NumberedList(items) => {
            let ghost iv = lines_view(items@);
            let ghost mut cur = ls;
            let n = items.len();
            let mut k: usize = 0;
            assert(ls + numbered_md(iv).take(0) =~= ls);
            while k < n
                invariant
                    k <= n == items@.len(),
                    iv == lines_view(items@),
                    cur == ls + numbered_md(iv).take(k as int),
                    out@ == join_lines(cur),
                    *any == (cur.len() > 0),
                decreases n - k,
            {
                let mut line: Vec<char> = Vec::new();
                push_decimal(&mut line, k + 1);
                push_str(&mut line, ". ");
                push_range(&mut line, items[k].as_slice(), 0, items[k].len());
                assert(items@[k as int]@.subrange(0, items@[k as int]@.len() as int)
                    =~= items@[k as int]@);
                assert(iv[k as int] == items@[k as int]@);
                assert(line@ =~= decimal((k + 1) as nat) + ". "@ + iv[k as int]);
                emit_line(out, any, line.as_slice(), Ghost(cur));
                proof {
                    cur = cur.push(line@);
                }
                k = k + 1;
                assert(cur =~= ls + numbered_md(iv).take(k as int));
            }
            assert(numbered_md(iv).take(n as int) =~= numbered_md(iv));
            emit_line(out, any, empty.as_slice(), Ghost(cur));
            proof {
                cur = cur.push(Seq::<char>::empty());
                assert(cur =~= ls + block_md(b@, ls.len() == 0));
            }
            Ghost(cur)
        },
        Block::BulletList(items) => {
            let ghost iv = lines_view(items@);
            let ghost mut cur = ls;
            let n = items.len();
            let mut k: usize = 0;
            assert(ls + bullet_md(iv).take(0) =~= ls);
            while k < n
                invariant
                    k <= n == items@.len(),
                    iv == lines_view(items@),
                    cur == ls + bullet_md(iv).take(k as int),
                    out@ == join_lines(cur),
                    *any == (cur.len() > 0),
                decreases n - k,
            {
                let line = prefixed("- ", items[k].as_slice());
                assert(iv[k as int] == items@[k as int]@);
                emit_line(out, any, line.as_slice(), Ghost(cur));
                proof {
                    cur = cur.push(line@);
                }
                k = k + 1;
                assert(cur =~= ls + bullet_md(iv).take(k as int));
            }
            assert(bullet_md(iv).take(n as int) =~= bullet_md(iv));
            emit_line(out, any, empty.as_slice(), Ghost(cur));
            proof {
                cur = cur.push(Seq::<char>::empty());
                assert(cur =~= ls + block_md(b@, ls.len() == 0));
            }
            Ghost(cur)
        },
    }
}

/// Renders `text` as Markdown: a heading as `# text`, a paragraph as its
/// text, a numbered list as `1. item`, `2. item`, ..., a bullet list as
/// `- item`; each block followed by a blank line and each heading after the
/// first block also preceded by one; the whole trimmed of white space.
pub fn to_markdown(text: &str) -> (r: String)
    ensures
        r@ == markdown_of(text@),
{
    let blocks = parse_blocks(text);
    let ghost bv = blocks_view(blocks@);
    let mut out: Vec<char> = Vec::new();
    let mut any = false;
    let ghost mut ls: Seq<Seq<char>> = Seq::empty();
    let n = blocks.len();
    let mut k: usize = 0;
    assert(bv.take(0) =~= Seq::<BlockModel>::empty());
    while k < n
        invariant
            k <= n == blocks@.len(),
            bv == blocks_view(blocks@),
            ls == md_lines(bv.take(k as int)),
            out@ == join_lines(ls),
            any == (ls.len() > 0),
        decreases n - k,
    {
        assert(bv.take(k + 1).drop_last() =~= bv.take(k as int));
        assert(bv[k as int] == blocks@[k as int]@);
        let Ghost(next) = emit_block_md(&mut out, &mut any, &blocks[k], Ghost(ls));
        proof {
            ls = next;
        }
        k = k + 1;
    }
    assert(bv.take(n as int) =~= bv);
    let (lo, hi) = trim_bounds(out.as_slice());
    string_of_range(out.as_slice(), lo, hi)
}

} // verus!
