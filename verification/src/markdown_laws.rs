//! Properties of the Markdown output and of text with content: every
//! Markdown line is trimmed and on one line, blank lines come at most two in
//! a row, and text that is not blank gives blocks, Markdown and HTML.
use vstd::prelude::*;
use crate::blocks::{
    blocks_of, parse_run, parse_step, split_newlines, text_lines, trimmed_lines, BlockModel,
    ParseState,
};
use crate::chars::{
    decimal, digit_char, is_ascii_digit, is_trimmed, is_white_space, lemma_trim_start_shape, trim,
    trim_end, trim_start,
};
use crate::laws::{all_white, good_block, good_text, law_blocks_well_formed, no_newline};
use crate::render::{
    block_html, block_md, blocks_html, bullet_md, html_of, join_lines, markdown_of, md_lines,
    numbered_md,
};

verus! {

// ---------------------------------------------------------------------------
// The shape of the Markdown lines
// ---------------------------------------------------------------------------

/// Every line has no white space at either end and no newline.
pub open spec fn lines_clean(ls: Seq<Seq<char>>) -> bool {
    forall|i: int| 0 <= i < ls.len() ==> is_trimmed(#[trigger] ls[i]) && no_newline(ls[i])
}

/// Never three blank lines in a row.
pub open spec fn no_three_blank(ls: Seq<Seq<char>>) -> bool {
    forall|i: int|
        0 <= i && i + 2 < ls.len() ==> !((#[trigger] ls[i]).len() == 0 && ls[i + 1].len() == 0
            && ls[i + 2].len() == 0)
}

/// The Markdown lines of blocks: clean, at most two blank lines in a row,
/// starting with a line of content and ending with one blank line after a
/// line of content.
pub open spec fn md_shape(ls: Seq<Seq<char>>) -> bool {
    &&& lines_clean(ls)
    &&& no_three_blank(ls)
    &&& ls.len() > 0 ==> {
        &&& ls.len() >= 2
        &&& ls[0].len() > 0
        &&& ls.last().len() == 0
        &&& ls[ls.len() - 2].len() > 0
    }
}

proof fn lemma_decimal_digits(n: nat)
    ensures
        decimal(n).len() > 0,
        forall|j: int| 0 <= j < decimal(n).len() ==> is_ascii_digit(#[trigger] decimal(n)[j]),
    decreases n,
{
    if n < 10 {
        assert(is_ascii_digit(digit_char(n)));
    } else {
        lemma_decimal_digits(n / 10);
        assert(is_ascii_digit(digit_char(n % 10)));
        let d = decimal(n);
        assert forall|j: int| 0 <= j < d.len() implies is_ascii_digit(#[trigger] d[j]) by {
            if j < decimal(n / 10).len() {
                assert(d[j] == decimal(n / 10)[j]);
            }
        }
    }
}

proof fn lemma_concat_clean(a: Seq<char>, b: Seq<char>)
    requires
        no_newline(a),
        no_newline(b),
        a.len() > 0 ==> !is_white_space(a[0]),
        b.len() > 0,
        !is_white_space(b.last()),
    ensures
        no_newline(a + b),
        (a + b).len() > 0,
        (a + b).last() == b.last(),
        a.len() > 0 ==> (a + b)[0] == a[0],
        a.len() > 0 ==> is_trimmed(a + b),
{
    let c = a + b;
    assert(c[c.len() - 1] == b[b.len() - 1]);
    assert forall|k: int| 0 <= k < c.len() implies c[k] != '\n' by {
        if k < a.len() {
            assert(c[k] == a[k]);
        } else {
            assert(c[k] == b[k - a.len()]);
        }
    }
    if a.len() > 0 {
        assert(c[0] == a[0]);
    }
}

proof fn lemma_marker_line(marker: Seq<char>, t: Seq<char>)
    requires
        marker.len() > 0,
        !is_white_space(marker[0]),
        no_newline(marker),
        good_text(t),
    ensures
        is_trimmed(marker + t),
        no_newline(marker + t),
        (marker + t).len() > 0,
{
    lemma_concat_clean(marker, t);
}

proof fn lemma_numbered_line(n: nat, t: Seq<char>)
    requires
        good_text(t),
    ensures
        is_trimmed(decimal(n) + ". "@ + t),
        no_newline(decimal(n) + ". "@ + t),
        (decimal(n) + ". "@ + t).len() > 0,
{
    reveal_strlit(". ");
    lemma_decimal_digits(n);
    let d = decimal(n);
    let m = d + ". "@;
    assert(m[0] == d[0]);
    assert(is_ascii_digit(d[0]));
    assert forall|k: int| 0 <= k < m.len() implies m[k] != '\n' by {
        if k < d.len() {
            assert(m[k] == d[k]);
            assert(is_ascii_digit(d[k]));
        } else {
            assert(m[k] == ". "@[k - d.len()]);
        }
    }
    assert(m + t == decimal(n) + ". "@ + t);
    lemma_marker_line(m, t);
}

/// The lines of a block, with the properties that let them be appended.
proof fn lemma_block_md_shape(b: BlockModel, nothing_before: bool)
    requires
        good_block(b),
    ensures
        ({
            let add = block_md(b, nothing_before);
            &&& lines_clean(add)
            &&& no_three_blank(add)
            &&& add.len() >= 2
            &&& add.last().len() == 0
            &&& add[add.len() - 2].len() > 0
            &&& (add[0].len() > 0 || add[1].len() > 0)
            &&& nothing_before ==> add[0].len() > 0
        }),
{
    let add = block_md(b, nothing_before);
    let e = Seq::<char>::empty();
    reveal_strlit("# ");
    reveal_strlit("- ");
    match b {
        BlockModel::Heading(h) => {
            lemma_marker_line("# "@, h);
            let hl = "# "@ + h;
            if nothing_before {
                assert(add =~= seq![hl, e]);
            } else {
                assert(add =~= seq![e, hl, e]);
            }
            assert forall|i: int| 0 <= i < add.len() implies is_trimmed(#[trigger] add[i])
                && no_newline(add[i]) by {
                if add[i].len() > 0 {
                    assert(add[i] == hl);
                }
            }
        },
        BlockModel::Paragraph(p) => {
            assert(add =~= seq![p, e]);
            assert forall|i: int| 0 <= i < add.len() implies is_trimmed(#[trigger] add[i])
                && no_newline(add[i]) by {
                if i == 0 {
                    assert(add[i] == p);
                }
            }
        },
        BlockModel::NumberedList(items) => {
            let ls = numbered_md(items);
            assert(add == ls.push(e));
            assert forall|i: int| 0 <= i < ls.len() implies (#[trigger] ls[i]).len() > 0
                && is_trimmed(ls[i]) && no_newline(ls[i]) by {
                assert(good_text(items[i]));
                lemma_numbered_line((i + 1) as nat, items[i]);
            }
            assert forall|i: int| 0 <= i < add.len() implies is_trimmed(#[trigger] add[i])
                && no_newline(add[i]) by {
                if i < ls.len() {
                    assert(add[i] == ls[i]);
                }
            }
            assert forall|i: int| 0 <= i && i + 2 < add.len() implies !((#[trigger] add[i]).len()
                == 0 && add[i + 1].len() == 0 && add[i + 2].len() == 0) by {
                assert(add[i] == ls[i]);
            }
            assert(add[0] == ls[0]);
            assert(add[add.len() - 2] == ls[ls.len() - 1]);
        },
        BlockModel::BulletList(items) => {
            let ls = bullet_md(items);
            assert(add == ls.push(e));
            assert forall|i: int| 0 <= i < ls.len() implies (#[trigger] ls[i]).len() > 0
                && is_trimmed(ls[i]) && no_newline(ls[i]) by {
                assert(good_text(items[i]));
                lemma_marker_line("- "@, items[i]);
            }
            assert forall|i: int| 0 <= i < add.len() implies is_trimmed(#[trigger] add[i])
                && no_newline(add[i]) by {
                if i < ls.len() {
                    assert(add[i] == ls[i]);
                }
            }
            assert forall|i: int| 0 <= i && i + 2 < add.len() implies !((#[trigger] add[i]).len()
                == 0 && add[i + 1].len() == 0 && add[i + 2].len() == 0) by {
                assert(add[i] == ls[i]);
            }
            assert(add[0] == ls[0]);
            assert(add[add.len() - 2] == ls[ls.len() - 1]);
        },
    }
}

proof fn lemma_append_shape(ls: Seq<Seq<char>>, add: Seq<Seq<char>>)
    requires
        md_shape(ls),
        lines_clean(add),
        no_three_blank(add),
        add.len() >= 2,
        add.last().len() == 0,
        add[add.len() - 2].len() > 0,
        add[0].len() > 0 || add[1].len() > 0,
        ls.len() == 0 ==> add[0].len() > 0,
    ensures
        md_shape(ls + add),
{
    let r = ls + add;
    let n = ls.len();
    assert forall|i: int| 0 <= i < r.len() implies is_trimmed(#[trigger] r[i]) && no_newline(
        r[i],
    ) by {
        if i < n {
            assert(r[i] == ls[i]);
        } else {
            assert(r[i] == add[i - n]);
        }
    }
    assert forall|i: int| 0 <= i && i + 2 < r.len() implies !((#[trigger] r[i]).len() == 0
        && r[i + 1].len() == 0 && r[i + 2].len() == 0) by {
        if i + 2 < n {
            assert(r[i] == ls[i]);
            assert(r[i + 1] == ls[i + 1]);
            assert(r[i + 2] == ls[i + 2]);
        } else if i >= n {
            assert(r[i] == add[i - n]);
            assert(r[i + 1] == add[i + 1 - n]);
            assert(r[i + 2] == add[i + 2 - n]);
        } else if i == n - 2 {
            assert(r[i] == ls[n - 2]);
        } else {
            assert(r[i + 1] == add[0]);
            assert(r[i + 2] == add[1]);
        }
    }
    if n == 0 {
        assert(r =~= add);
    } else {
        assert(r[0] == ls[0]);
    }
    assert(r.last() == add.last());
    assert(r[r.len() - 2] == add[add.len() - 2]);
}

proof fn lemma_md_lines_shape(bs: Seq<BlockModel>)
    requires
        forall|i: int| 0 <= i < bs.len() ==> good_block(#[trigger] bs[i]),
    ensures
        md_shape(md_lines(bs)),
        bs.len() > 0 ==> md_lines(bs).len() > 0,
    decreases bs.len(),
{
    if bs.len() > 0 {
        let prev = bs.drop_last();
        assert forall|i: int| 0 <= i < prev.len() implies good_block(#[trigger] prev[i]) by {
            assert(prev[i] == bs[i]);
        }
        lemma_md_lines_shape(prev);
        assert(good_block(bs[bs.len() - 1]));
        let pl = md_lines(prev);
        lemma_block_md_shape(bs.last(), pl.len() == 0);
        lemma_append_shape(pl, block_md(bs.last(), pl.len() == 0));
    }
}

/// The lines of the Markdown (before the final trim) each have no white space
/// at either end and no newline; blank lines come at most two in a row; the
/// first line has content and the last is blank.
pub proof fn law_markdown_lines(text: Seq<char>)
    ensures
        md_shape(md_lines(blocks_of(text))),
        markdown_of(text) == trim(join_lines(md_lines(blocks_of(text)))),
{
    law_blocks_well_formed(text);
    lemma_md_lines_shape(blocks_of(text));
}

// ---------------------------------------------------------------------------
// Text with content
// ---------------------------------------------------------------------------

proof fn lemma_split_has_content(t: Seq<char>, p: int)
    requires
        0 <= p < t.len(),
        !is_white_space(t[p]),
    ensures
        exists|i: int, q: int|
            0 <= i < split_newlines(t).len() && 0 <= q < split_newlines(t)[i].len()
                && !is_white_space(#[trigger] split_newlines(t)[i][q]),
    decreases t.len(),
{
    crate::blocks::lemma_split_newlines_nonempty(t.drop_last());
    let r = split_newlines(t.drop_last());
    let s = split_newlines(t);
    assert(t[p] != '\n');
    if p == t.len() - 1 {
        let i = r.len() - 1;
        assert(s[i] == r[i].push(t.last()));
        assert(s[i][r[i].len() as int] == t[p]);
    } else {
        assert(t.drop_last()[p] == t[p]);
        lemma_split_has_content(t.drop_last(), p);
        let (i, q) = choose|i: int, q: int|
            0 <= i < r.len() && 0 <= q < r[i].len() && !is_white_space(#[trigger] r[i][q]);
        if t.last() == '\n' {
            assert(s[i] == r[i]);
        } else if i < r.len() - 1 {
            assert(s[i] == r[i]);
        } else {
            assert(s[i] == r[i].push(t.last()));
            assert(s[i][q] == r[i][q]);
        }
    }
}

proof fn lemma_trim_start_keeps(s: Seq<char>, j: int)
    requires
        0 <= j < s.len(),
        !is_white_space(s[j]),
    ensures
        trim_start(s).len() > 0,
    decreases s.len(),
{
    if is_white_space(s[0]) {
        assert(s.drop_first()[j - 1] == s[j]);
        lemma_trim_start_keeps(s.drop_first(), j - 1);
    }
}

proof fn lemma_trim_end_keeps(s: Seq<char>, j: int)
    requires
        0 <= j < s.len(),
        !is_white_space(s[j]),
    ensures
        trim_end(s).len() > 0,
    decreases s.len(),
{
    if is_white_space(s.last()) {
        assert(s.drop_last()[j] == s[j]);
        lemma_trim_end_keeps(s.drop_last(), j);
    }
}

/// A sequence with a character that is not white space keeps one after `trim`.
proof fn lemma_trim_keeps(s: Seq<char>, j: int)
    requires
        0 <= j < s.len(),
        !is_white_space(s[j]),
    ensures
        trim(s).len() > 0,
{
    lemma_trim_start_keeps(s, j);
    lemma_trim_start_shape(s);
    lemma_trim_end_keeps(trim_start(s), 0);
}

proof fn lemma_step_grows(st: ParseState, line: Seq<char>, next_empty: bool)
    ensures
        parse_step(st, line, next_empty).blocks.len() >= st.blocks.len(),
        line.len() > 0 ==> parse_step(st, line, next_empty).blocks.len() > 0,
{
}

proof fn lemma_run_has_block(lines: Seq<Seq<char>>, n: nat, i: int)
    requires
        0 <= i < n <= lines.len(),
        lines[i].len() > 0,
    ensures
        parse_run(lines, n).blocks.len() > 0,
    decreases n,
{
    let st = parse_run(lines, (n - 1) as nat);
    lemma_step_grows(st, lines[n - 1], crate::blocks::next_is_blank(lines, n - 1));
    if i < n - 1 {
        lemma_run_has_block(lines, (n - 1) as nat, i);
    }
}

proof fn lemma_join_starts_with_first(ls: Seq<Seq<char>>, k: int)
    requires
        ls.len() > 0,
        0 <= k < ls[0].len(),
    ensures
        k < join_lines(ls).len(),
        join_lines(ls)[k] == ls[0][k],
    decreases ls.len(),
{
    if ls.len() > 1 {
        assert(ls.drop_last()[0] == ls[0]);
        lemma_join_starts_with_first(ls.drop_last(), k);
    }
}

proof fn lemma_blocks_html_nonempty(bs: Seq<BlockModel>)
    requires
        bs.len() > 0,
    ensures
        blocks_html(bs).len() > 0,
{
    reveal_strlit("<h1>");
    reveal_strlit("<p>");
    reveal_strlit("<ol>");
    reveal_strlit("<ul>");
    assert(block_html(bs.last()).len() > 0);
}

/// Text with a character that is not white space has at least one block,
/// non-empty Markdown, and HTML longer than the empty document.
pub proof fn law_content_gives_output(text: Seq<char>)
    requires
        !all_white(text),
    ensures
        blocks_of(text).len() > 0,
        markdown_of(text).len() > 0,
        html_of(text).len() > "<html><body></body></html>"@.len(),
{
    let p = choose|p: int| 0 <= p < text.len() && !is_white_space(#[trigger] text[p]);
    lemma_split_has_content(text, p);
    let s = split_newlines(text);
    let (i, q) = choose|i: int, q: int|
        0 <= i < s.len() && 0 <= q < s[i].len() && !is_white_space(#[trigger] s[i][q]);
    if text.last() == '\n' {
        crate::blocks::lemma_split_newlines_nonempty(text.drop_last());
        assert(s.last().len() == 0);
        assert(i < s.len() - 1);
    }
    let tl = trimmed_lines(text);
    assert(text_lines(text)[i] == s[i]);
    lemma_trim_keeps(s[i], q);
    assert(tl[i].len() > 0);
    lemma_run_has_block(tl, tl.len(), i);
    let bs = blocks_of(text);
    law_markdown_lines(text);
    lemma_md_lines_shape_nonempty(text);
    let ls = md_lines(bs);
    assert(is_trimmed(ls[0]) && ls[0].len() > 0);
    lemma_join_starts_with_first(ls, 0);
    lemma_trim_keeps(join_lines(ls), 0);
    lemma_blocks_html_nonempty(bs);
    reveal_strlit("<html><body>");
    reveal_strlit("</body></html>");
    reveal_strlit("<html><body></body></html>");
}

proof fn lemma_md_lines_shape_nonempty(text: Seq<char>)
    requires
        blocks_of(text).len() > 0,
    ensures
        md_lines(blocks_of(text)).len() > 0,
{
    law_blocks_well_formed(text);
    lemma_md_lines_shape(blocks_of(text));
}

} // verus!
