//! Properties that hold of every text: what the parser always produces, what
//! blank text gives, and what the first line with content becomes.
use vstd::prelude::*;
use crate::blocks::{
    add_item, add_text, blocks_of, extend_last, join_space, parse_run, split_newlines,
    text_lines, trimmed_lines, BlockModel,
};
use crate::chars::{
    is_trimmed, is_white_space, lemma_trim_shape, lemma_trim_start_shape, trim, trim_start,
    utf8_len,
};
use crate::line::{bullet_item, leading_digits, numbered_item};
use crate::render::{html_of, markdown_of};

verus! {

// ---------------------------------------------------------------------------
// Shape of the blocks
// ---------------------------------------------------------------------------

/// No character of `s` is a newline.
pub open spec fn no_newline(s: Seq<char>) -> bool {
    forall|j: int| 0 <= j < s.len() ==> s[j] != '\n'
}

/// A piece of block text: not empty, no white space at either end, one line.
pub open spec fn good_text(s: Seq<char>) -> bool {
    &&& s.len() > 0
    &&& is_trimmed(s)
    &&& no_newline(s)
}

/// Every item of a list is a good piece of text, and there is at least one.
pub open spec fn good_items(items: Seq<Seq<char>>) -> bool {
    &&& items.len() > 0
    &&& forall|i: int| 0 <= i < items.len() ==> good_text(#[trigger] items[i])
}

/// A block whose text, or every item of which, is a good piece of text.
pub open spec fn good_block(b: BlockModel) -> bool {
    match b {
        BlockModel::Heading(h) => good_text(h),
        BlockModel::Paragraph(p) => good_text(p),
        BlockModel::NumberedList(items) => good_items(items),
        BlockModel::BulletList(items) => good_items(items),
    }
}

/// Two lists of the same kind.
pub open spec fn same_list_kind(a: BlockModel, b: BlockModel) -> bool {
    ||| (a is NumberedList && b is NumberedList)
    ||| (a is BulletList && b is BulletList)
}

/// Every block is good, and no list directly follows a list of its kind.
pub open spec fn well_formed(bs: Seq<BlockModel>) -> bool {
    &&& forall|i: int| 0 <= i < bs.len() ==> good_block(#[trigger] bs[i])
    &&& forall|i: int|
        0 <= i && i + 1 < bs.len() ==> !same_list_kind(#[trigger] bs[i], bs[i + 1])
}

proof fn lemma_split_no_newline(t: Seq<char>)
    ensures
        forall|i: int|
            0 <= i < split_newlines(t).len() ==> no_newline(#[trigger] split_newlines(t)[i]),
    decreases t.len(),
{
    if t.len() > 0 {
        lemma_split_no_newline(t.drop_last());
        crate::blocks::lemma_split_newlines_nonempty(t.drop_last());
        let r = split_newlines(t.drop_last());
        if t.last() != '\n' {
            let last = r.last().push(t.last());
            assert(no_newline(r[r.len() - 1]));
            assert(no_newline(last));
            assert forall|i: int|
                0 <= i < split_newlines(t).len() implies no_newline(
                #[trigger] split_newlines(t)[i],
            ) by {
                if i < r.len() - 1 {
                    assert(split_newlines(t)[i] == r[i]);
                }
            }
        } else {
            assert forall|i: int|
                0 <= i < split_newlines(t).len() implies no_newline(
                #[trigger] split_newlines(t)[i],
            ) by {
                if i < r.len() {
                    assert(split_newlines(t)[i] == r[i]);
                }
            }
        }
    }
}

proof fn lemma_trim_good(s: Seq<char>)
    requires
        no_newline(s),
    ensures
        no_newline(trim(s)),
        is_trimmed(trim(s)),
{
    lemma_trim_shape(s);
    let (a, b) = choose|a: int, b: int| 0 <= a <= b <= s.len() && trim(s) == s.subrange(a, b);
    assert forall|j: int| 0 <= j < trim(s).len() implies trim(s)[j] != '\n' by {
        assert(trim(s)[j] == s[a + j]);
    }
}

/// Every trimmed line is on one line and trimmed.
proof fn lemma_trimmed_lines_good(t: Seq<char>)
    ensures
        forall|i: int|
            0 <= i < trimmed_lines(t).len() ==> no_newline(#[trigger] trimmed_lines(t)[i])
                && is_trimmed(trimmed_lines(t)[i]),
{
    lemma_split_no_newline(t);
    let tl = trimmed_lines(t);
    assert forall|i: int| 0 <= i < tl.len() implies no_newline(#[trigger] tl[i]) && is_trimmed(
        tl[i],
    ) by {
        let l = text_lines(t)[i];
        assert(l == split_newlines(t)[i]);
        lemma_trim_good(l);
    }
}

/// A non-empty suffix of a good piece of text that starts with a
/// non-white-space character is a good piece of text.
proof fn lemma_good_suffix(line: Seq<char>, a: int)
    requires
        good_text(line),
        0 <= a < line.len(),
        !is_white_space(line[a]),
    ensures
        good_text(line.skip(a)),
{
    let r = line.skip(a);
    assert(r.last() == line.last());
    assert forall|j: int| 0 <= j < r.len() implies r[j] != '\n' by {
        assert(r[j] == line[a + j]);
    }
}

/// `trim_start` of a suffix of a good piece of text, when not empty, is good.
proof fn lemma_good_item(line: Seq<char>, a: int)
    requires
        good_text(line),
        0 <= a <= line.len(),
        trim_start(line.skip(a)).len() > 0,
    ensures
        good_text(trim_start(line.skip(a))),
{
    let x = line.skip(a);
    lemma_trim_start_shape(x);
    let k = x.len() - trim_start(x).len();
    assert(trim_start(x) =~= line.skip(a + k));
    assert(line[a + k] == trim_start(x)[0]);
    lemma_good_suffix(line, a + k);
}

/// The items of numbered and bullet lines are good pieces of text.
proof fn lemma_items_good(line: Seq<char>)
    requires
        good_text(line),
    ensures
        numbered_item(line) matches Some(item) ==> good_text(item),
        bullet_item(line) matches Some(item) ==> good_text(item),
{
    let i = leading_digits(line) as int;
    if numbered_item(line) is Some {
        lemma_good_item(line, i + 1);
    }
    if bullet_item(line) is Some {
        assert(line.drop_first() =~= line.skip(1));
        if trim_start(line.skip(1)).len() > 0 {
            lemma_good_item(line, 1);
        }
        if line.len() > 1 && trim_start(line.skip(2)).len() > 0 {
            lemma_good_item(line, 2);
        }
    }
}

proof fn lemma_join_good(a: Seq<char>, b: Seq<char>)
    requires
        good_text(a),
        good_text(b),
    ensures
        good_text(join_space(a, b)),
{
    let j = join_space(a, b);
    assert(j[0] == a[0]);
    assert(j.last() == b.last());
    assert forall|k: int| 0 <= k < j.len() implies j[k] != '\n' by {
        if k < a.len() {
            assert(j[k] == a[k]);
        } else if k > a.len() {
            assert(j[k] == b[k - a.len() - 1]);
        }
    }
}

proof fn lemma_extend_good(items: Seq<Seq<char>>, line: Seq<char>)
    requires
        good_items(items),
        good_text(line),
    ensures
        good_items(extend_last(items, line)),
{
    lemma_join_good(items.last(), line);
    let e = extend_last(items, line);
    assert forall|i: int| 0 <= i < e.len() implies good_text(#[trigger] e[i]) by {
        if i < items.len() - 1 {
            assert(e[i] == items[i]);
        }
    }
}

proof fn lemma_push_items_good(items: Seq<Seq<char>>, item: Seq<char>)
    requires
        good_items(items),
        good_text(item),
    ensures
        good_items(items.push(item)),
{
    let e = items.push(item);
    assert forall|i: int| 0 <= i < e.len() implies good_text(#[trigger] e[i]) by {
        if i < items.len() {
            assert(e[i] == items[i]);
        }
    }
}

/// Replacing the last block by one of the same kind, or appending a block
/// not of the last one's list kind, keeps the blocks well formed.
proof fn lemma_update_last(bs: Seq<BlockModel>, b: BlockModel)
    requires
        well_formed(bs),
        bs.len() > 0,
        good_block(b),
        (bs.last() is NumberedList) == (b is NumberedList),
        (bs.last() is BulletList) == (b is BulletList),
    ensures
        well_formed(bs.update(bs.len() - 1, b)),
{
    let u = bs.update(bs.len() - 1, b);
    assert forall|i: int| 0 <= i < u.len() implies good_block(#[trigger] u[i]) by {
        if i < bs.len() - 1 {
            assert(u[i] == bs[i]);
        }
    }
    assert forall|i: int| 0 <= i && i + 1 < u.len() implies !same_list_kind(
        #[trigger] u[i],
        u[i + 1],
    ) by {
        assert(u[i] == bs[i]);
        if i + 1 < bs.len() - 1 {
            assert(u[i + 1] == bs[i + 1]);
        } else {
            assert(!same_list_kind(bs[i], bs[i + 1]));
        }
    }
}

proof fn lemma_push_block(bs: Seq<BlockModel>, b: BlockModel)
    requires
        well_formed(bs),
        good_block(b),
        bs.len() > 0 ==> !same_list_kind(bs.last(), b),
    ensures
        well_formed(bs.push(b)),
{
    let u = bs.push(b);
    assert forall|i: int| 0 <= i < u.len() implies good_block(#[trigger] u[i]) by {
        if i < bs.len() {
            assert(u[i] == bs[i]);
        }
    }
    assert forall|i: int| 0 <= i && i + 1 < u.len() implies !same_list_kind(
        #[trigger] u[i],
        u[i + 1],
    ) by {
        assert(u[i] == bs[i]);
        if i + 1 < bs.len() {
            assert(u[i + 1] == bs[i + 1]);
        }
    }
}

proof fn lemma_add_item_wf(bs: Seq<BlockModel>, item: Seq<char>, numbered: bool)
    requires
        well_formed(bs),
        good_text(item),
    ensures
        well_formed(add_item(bs, item, numbered)),
{
    let one = seq![item];
    assert(good_items(one)) by {
        assert forall|i: int| 0 <= i < one.len() implies good_text(#[trigger] one[i]) by {
            assert(one[i] == item);
        }
    }
    if bs.len() > 0 {
        assert(good_block(bs[bs.len() - 1]));
    }
    if numbered {
        if bs.len() > 0 && bs.last() is NumberedList {
            lemma_push_items_good(bs.last()->NumberedList_0, item);
            lemma_update_last(bs, BlockModel::NumberedList(bs.last()->NumberedList_0.push(item)));
        } else {
            lemma_push_block(bs, BlockModel::NumberedList(one));
        }
    } else {
        if bs.len() > 0 && bs.last() is BulletList {
            lemma_push_items_good(bs.last()->BulletList_0, item);
            lemma_update_last(bs, BlockModel::BulletList(bs.last()->BulletList_0.push(item)));
        } else {
            lemma_push_block(bs, BlockModel::BulletList(one));
        }
    }
}

proof fn lemma_add_text_wf(bs: Seq<BlockModel>, line: Seq<char>, prev_empty: bool, starts_lower: bool)
    requires
        well_formed(bs),
        good_text(line),
    ensures
        well_formed(add_text(bs, line, prev_empty, starts_lower)),
{
    let n = bs.len();
    if n > 0 {
        assert(good_block(bs[n - 1]));
    }
    if starts_lower && !prev_empty && n > 0 && bs.last() is BulletList {
        lemma_extend_good(bs.last()->BulletList_0, line);
        lemma_update_last(bs, BlockModel::BulletList(extend_last(bs.last()->BulletList_0, line)));
    } else if starts_lower && !prev_empty && n > 0 && bs.last() is NumberedList {
        lemma_extend_good(bs.last()->NumberedList_0, line);
        lemma_update_last(
            bs,
            BlockModel::NumberedList(extend_last(bs.last()->NumberedList_0, line)),
        );
    } else if n > 0 && bs.last() is Paragraph && !prev_empty {
        lemma_join_good(bs.last()->Paragraph_0, line);
        lemma_update_last(bs, BlockModel::Paragraph(join_space(bs.last()->Paragraph_0, line)));
    } else {
        lemma_push_block(bs, BlockModel::Paragraph(line));
    }
}

proof fn lemma_run_wf(lines: Seq<Seq<char>>, n: nat)
    requires
        n <= lines.len(),
        forall|i: int|
            0 <= i < lines.len() ==> no_newline(#[trigger] lines[i]) && is_trimmed(lines[i]),
    ensures
        well_formed(parse_run(lines, n).blocks),
    decreases n,
{
    if n > 0 {
        lemma_run_wf(lines, (n - 1) as nat);
        let st = parse_run(lines, (n - 1) as nat);
        let line = lines[n - 1];
        if line.len() > 0 {
            assert(good_text(line));
            lemma_items_good(line);
            match numbered_item(line) {
                Some(item) => lemma_add_item_wf(st.blocks, item, true),
                None => match bullet_item(line) {
                    Some(item) => lemma_add_item_wf(st.blocks, item, false),
                    None => {
                        lemma_push_block(st.blocks, BlockModel::Heading(line));
                        lemma_add_text_wf(st.blocks, line, st.prev_empty, crate::blocks::starts_lowercase(line));
                    },
                },
            }
        }
    }
}

/// A heading that came from one of `lines`: at most 80 bytes long, not
/// ending with `,` or `;`, and equal to one of the lines.
pub open spec fn heading_from(h: Seq<char>, lines: Seq<Seq<char>>) -> bool {
    &&& utf8_len(h) <= 80
    &&& h.len() > 0 ==> h.last() != ',' && h.last() != ';'
    &&& exists|j: int| 0 <= j < lines.len() && lines[j] == h
}

/// Every heading among `bs` came from one of `lines`.
pub open spec fn headings_from(bs: Seq<BlockModel>, lines: Seq<Seq<char>>) -> bool {
    forall|i: int|
        0 <= i < bs.len() ==> match #[trigger] bs[i] {
            BlockModel::Heading(h) => heading_from(h, lines),
            _ => true,
        }
}

proof fn lemma_headings_update(bs: Seq<BlockModel>, b: BlockModel, lines: Seq<Seq<char>>)
    requires
        headings_from(bs, lines),
        bs.len() > 0,
        !(b is Heading),
    ensures
        headings_from(bs.update(bs.len() - 1, b), lines),
{
    let u = bs.update(bs.len() - 1, b);
    assert forall|i: int| 0 <= i < u.len() implies match #[trigger] u[i] {
        BlockModel::Heading(h) => heading_from(h, lines),
        _ => true,
    } by {
        if i < bs.len() - 1 {
            assert(u[i] == bs[i]);
        }
    }
}

proof fn lemma_headings_push(bs: Seq<BlockModel>, b: BlockModel, lines: Seq<Seq<char>>)
    requires
        headings_from(bs, lines),
        match b {
            BlockModel::Heading(h) => heading_from(h, lines),
            _ => true,
        },
    ensures
        headings_from(bs.push(b), lines),
{
    let u = bs.push(b);
    assert forall|i: int| 0 <= i < u.len() implies match #[trigger] u[i] {
        BlockModel::Heading(h) => heading_from(h, lines),
        _ => true,
    } by {
        if i < bs.len() {
            assert(u[i] == bs[i]);
        }
    }
}

proof fn lemma_run_headings(lines: Seq<Seq<char>>, n: nat)
    requires
        n <= lines.len(),
    ensures
        headings_from(parse_run(lines, n).blocks, lines),
    decreases n,
{
    if n > 0 {
        lemma_run_headings(lines, (n - 1) as nat);
        let st = parse_run(lines, (n - 1) as nat);
        let bs = st.blocks;
        let line = lines[n - 1];
        if line.len() > 0 {
            let nl = bs.len() > 0;
            match numbered_item(line) {
                Some(item) => {
                    if nl && bs.last() is NumberedList {
                        lemma_headings_update(
                            bs,
                            BlockModel::NumberedList(bs.last()->NumberedList_0.push(item)),
                            lines,
                        );
                    } else {
                        lemma_headings_push(bs, BlockModel::NumberedList(seq![item]), lines);
                    }
                },
                None => match bullet_item(line) {
                    Some(item) => {
                        if nl && bs.last() is BulletList {
                            lemma_headings_update(
                                bs,
                                BlockModel::BulletList(bs.last()->BulletList_0.push(item)),
                                lines,
                            );
                        } else {
                            lemma_headings_push(bs, BlockModel::BulletList(seq![item]), lines);
                        }
                    },
                    None => {
                        if crate::line::heading_rule(
                            line,
                            st.first_content,
                            st.prev_empty,
                            crate::blocks::next_is_blank(lines, n - 1),
                        ) {
                            assert(lines[n - 1] == line);
                            lemma_headings_push(bs, BlockModel::Heading(line), lines);
                        } else {
                            let sl = crate::blocks::starts_lowercase(line);
                            let pe = st.prev_empty;
                            if sl && !pe && nl && bs.last() is BulletList {
                                lemma_headings_update(
                                    bs,
                                    BlockModel::BulletList(
                                        extend_last(bs.last()->BulletList_0, line),
                                    ),
                                    lines,
                                );
                            } else if sl && !pe && nl && bs.last() is NumberedList {
                                lemma_headings_update(
                                    bs,
                                    BlockModel::NumberedList(
                                        extend_last(bs.last()->NumberedList_0, line),
                                    ),
                                    lines,
                                );
                            } else if nl && bs.last() is Paragraph && !pe {
                                lemma_headings_update(
                                    bs,
                                    BlockModel::Paragraph(join_space(bs.last()->Paragraph_0, line)),
                                    lines,
                                );
                            } else {
                                lemma_headings_push(bs, BlockModel::Paragraph(line), lines);
                            }
                        }
                    },
                },
            }
        }
    }
}

/// The blocks of any text are well formed: every heading, paragraph and list
/// item is non-empty text on one line with no white space at either end,
/// every list has an item, and no list directly follows a list of the same
/// kind (such items join the earlier list). Every heading is one of the
/// trimmed lines, at most 80 bytes long, and does not end with `,` or `;`.
pub proof fn law_blocks_well_formed(text: Seq<char>)
    ensures
        well_formed(blocks_of(text)),
        headings_from(blocks_of(text), trimmed_lines(text)),
{
    lemma_trimmed_lines_good(text);
    lemma_run_wf(trimmed_lines(text), trimmed_lines(text).len());
    lemma_run_headings(trimmed_lines(text), trimmed_lines(text).len());
}

// ---------------------------------------------------------------------------
// Blank text
// ---------------------------------------------------------------------------

/// Every character of `s` is white space.
pub open spec fn all_white(s: Seq<char>) -> bool {
    forall|j: int| 0 <= j < s.len() ==> is_white_space(#[trigger] s[j])
}

proof fn lemma_split_all_white(t: Seq<char>)
    requires
        all_white(t),
    ensures
        forall|i: int|
            0 <= i < split_newlines(t).len() ==> all_white(#[trigger] split_newlines(t)[i]),
    decreases t.len(),
{
    if t.len() > 0 {
        assert(all_white(t.drop_last())) by {
            assert forall|j: int| 0 <= j < t.drop_last().len() implies is_white_space(
                #[trigger] t.drop_last()[j],
            ) by {
                assert(t.drop_last()[j] == t[j]);
            }
        }
        lemma_split_all_white(t.drop_last());
        crate::blocks::lemma_split_newlines_nonempty(t.drop_last());
        let r = split_newlines(t.drop_last());
        assert(is_white_space(t[t.len() - 1]));
        assert forall|i: int|
            0 <= i < split_newlines(t).len() implies all_white(#[trigger] split_newlines(t)[i]) by {
            if i < r.len() - 1 {
                assert(split_newlines(t)[i] == r[i]);
            } else if i == r.len() - 1 {
                if t.last() == '\n' {
                    assert(split_newlines(t)[i] == r[i]);
                } else {
                    let l = split_newlines(t)[i];
                    assert(l == r[i].push(t.last()));
                    assert forall|j: int| 0 <= j < l.len() implies is_white_space(#[trigger] l[j]) by {
                        if j < r[i].len() {
                            assert(l[j] == r[i][j]);
                        }
                    }
                }
            }
        }
    }
}

proof fn lemma_trim_all_white(s: Seq<char>)
    requires
        all_white(s),
    ensures
        trim(s).len() == 0,
    decreases s.len(),
{
    if s.len() > 0 {
        assert(all_white(s.drop_first())) by {
            assert forall|j: int| 0 <= j < s.drop_first().len() implies is_white_space(
                #[trigger] s.drop_first()[j],
            ) by {
                assert(s.drop_first()[j] == s[j + 1]);
            }
        }
        assert(is_white_space(s[0]));
        lemma_trim_all_white(s.drop_first());
    }
}

proof fn lemma_run_blank(lines: Seq<Seq<char>>, n: nat)
    requires
        n <= lines.len(),
        forall|i: int| 0 <= i < lines.len() ==> (#[trigger] lines[i]).len() == 0,
    ensures
        parse_run(lines, n).blocks.len() == 0,
    decreases n,
{
    if n > 0 {
        lemma_run_blank(lines, (n - 1) as nat);
        assert(lines[n - 1].len() == 0);
    }
}

/// Text made only of white space (including no text at all) has no blocks:
/// its Markdown is empty and its HTML is an empty document.
pub proof fn law_blank_text(text: Seq<char>)
    requires
        all_white(text),
    ensures
        blocks_of(text).len() == 0,
        markdown_of(text).len() == 0,
        html_of(text) == "<html><body></body></html>"@,
{
    lemma_split_all_white(text);
    let tl = trimmed_lines(text);
    assert forall|i: int| 0 <= i < tl.len() implies (#[trigger] tl[i]).len() == 0 by {
        assert(text_lines(text)[i] == split_newlines(text)[i]);
        lemma_trim_all_white(text_lines(text)[i]);
    }
    lemma_run_blank(tl, tl.len());
    let bs = blocks_of(text);
    assert(bs =~= Seq::<BlockModel>::empty());
    assert(crate::render::md_lines(bs) =~= Seq::<Seq<char>>::empty());
    assert(crate::render::join_lines(crate::render::md_lines(bs)) =~= Seq::<char>::empty());
    assert(crate::render::blocks_html(bs) =~= Seq::<char>::empty());
    reveal_strlit("<html><body>");
    reveal_strlit("</body></html>");
    reveal_strlit("<html><body></body></html>");
    assert(html_of(text) =~= "<html><body></body></html>"@);
}

// ---------------------------------------------------------------------------
// White space around lines
// ---------------------------------------------------------------------------

/// Only the trimmed lines count: two texts whose lines are the same once
/// white space is removed from both ends of each give the same blocks, the
/// same Markdown and the same HTML.
pub proof fn law_surrounding_white_space_ignored(a: Seq<char>, b: Seq<char>)
    requires
        trimmed_lines(a) == trimmed_lines(b),
    ensures
        blocks_of(a) == blocks_of(b),
        markdown_of(a) == markdown_of(b),
        html_of(a) == html_of(b),
{
}

// ---------------------------------------------------------------------------
// The first line with content
// ---------------------------------------------------------------------------

proof fn lemma_run_before_content(lines: Seq<Seq<char>>, n: nat)
    requires
        n <= lines.len(),
        forall|j: int| 0 <= j < n ==> (#[trigger] lines[j]).len() == 0,
    ensures
        parse_run(lines, n).blocks.len() == 0,
        parse_run(lines, n).first_content,
    decreases n,
{
    if n > 0 {
        lemma_run_before_content(lines, (n - 1) as nat);
        assert(lines[n - 1].len() == 0);
    }
}

proof fn lemma_first_block_kept(lines: Seq<Seq<char>>, n: nat, h: Seq<char>, k: nat)
    requires
        k < n <= lines.len(),
        parse_run(lines, k + 1).blocks.len() > 0,
        parse_run(lines, k + 1).blocks[0] == BlockModel::Heading(h),
    ensures
        parse_run(lines, n).blocks.len() > 0,
        parse_run(lines, n).blocks[0] == BlockModel::Heading(h),
    decreases n,
{
    if n > k + 1 {
        lemma_first_block_kept(lines, (n - 1) as nat, h, k);
        let st = parse_run(lines, (n - 1) as nat);
        let bs = st.blocks;
        let line = lines[n - 1];
        let r = parse_run(lines, n).blocks;
        if line.len() > 0 {
            if bs.len() == 1 {
                assert(bs.last() == BlockModel::Heading(h));
            }
            assert(r.len() > 0 && r[0] == bs[0]);
        }
    }
}

/// The first line with content is read as a title: when it is not a list
/// item, is at most 80 bytes long and does not end with `,` or `;`, it
/// becomes a heading, and that heading is the first block.
pub proof fn law_first_line_is_title(text: Seq<char>, k: int)
    requires
        0 <= k < trimmed_lines(text).len(),
        forall|j: int| 0 <= j < k ==> (#[trigger] trimmed_lines(text)[j]).len() == 0,
        trimmed_lines(text)[k].len() > 0,
        numbered_item(trimmed_lines(text)[k]) is None,
        bullet_item(trimmed_lines(text)[k]) is None,
        utf8_len(trimmed_lines(text)[k]) <= 80,
        trimmed_lines(text)[k].last() != ',',
        trimmed_lines(text)[k].last() != ';',
    ensures
        blocks_of(text).len() > 0,
        blocks_of(text)[0] == BlockModel::Heading(trimmed_lines(text)[k]),
{
    let tl = trimmed_lines(text);
    lemma_run_before_content(tl, k as nat);
    let h = tl[k];
    assert(parse_run(tl, (k + 1) as nat).blocks =~= seq![BlockModel::Heading(h)]);
    lemma_first_block_kept(tl, tl.len(), h, k as nat);
}

// ---------------------------------------------------------------------------
// Markdown
// ---------------------------------------------------------------------------

/// The Markdown of any text has no white space at either end.
pub proof fn law_markdown_trimmed(text: Seq<char>)
    ensures
        is_trimmed(markdown_of(text)),
{
    lemma_trim_shape(crate::render::join_lines(crate::render::md_lines(blocks_of(text))));
}

} // verus!
