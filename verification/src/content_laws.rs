//! The blocks keep all the text: every non-blank line, in order, with only
//! its list marker removed, and one list item per numbered or bullet line.
use vstd::prelude::*;
use crate::blocks::{
    add_item, add_text, blocks_of, extend_last, join_space, parse_run, trimmed_lines, BlockModel,
};
use crate::line::{bullet_item, numbered_item};

verus! {

// ---------------------------------------------------------------------------
// Definitions
// ---------------------------------------------------------------------------

/// What a non-blank trimmed line contributes: the item text of a numbered
/// or bullet line, else the line itself.
pub open spec fn line_content(l: Seq<char>) -> Seq<char> {
    match numbered_item(l) {
        Some(item) => item,
        None => match bullet_item(l) {
            Some(item) => item,
            None => l,
        },
    }
}

/// The contents of the non-blank lines, in order.
pub open spec fn content_lines(lines: Seq<Seq<char>>) -> Seq<Seq<char>>
    decreases lines.len(),
{
    if lines.len() == 0 {
        Seq::empty()
    } else {
        let r = content_lines(lines.drop_last());
        if lines.last().len() == 0 {
            r
        } else {
            r.push(line_content(lines.last()))
        }
    }
}

/// The texts of a block: its heading or paragraph, or its list items.
pub open spec fn block_texts(b: BlockModel) -> Seq<Seq<char>> {
    match b {
        BlockModel::Heading(h) => seq![h],
        BlockModel::Paragraph(p) => seq![p],
        BlockModel::NumberedList(items) => items,
        BlockModel::BulletList(items) => items,
    }
}

/// The texts of all blocks, in order.
pub open spec fn all_texts(bs: Seq<BlockModel>) -> Seq<Seq<char>>
    decreases bs.len(),
{
    if bs.len() == 0 {
        Seq::empty()
    } else {
        all_texts(bs.drop_last()) + block_texts(bs.last())
    }
}

/// The pieces joined with single spaces between them.
pub open spec fn join_spaces(ss: Seq<Seq<char>>) -> Seq<char>
    decreases ss.len(),
{
    if ss.len() == 0 {
        Seq::empty()
    } else if ss.len() == 1 {
        ss[0]
    } else {
        join_space(join_spaces(ss.drop_last()), ss.last())
    }
}

/// The number of items in numbered lists.
pub open spec fn numbered_items_in(bs: Seq<BlockModel>) -> nat
    decreases bs.len(),
{
    if bs.len() == 0 {
        0
    } else {
        numbered_items_in(bs.drop_last()) + match bs.last() {
            BlockModel::NumberedList(items) => items.len(),
            _ => 0,
        }
    }
}

/// The number of items in bullet lists.
pub open spec fn bullet_items_in(bs: Seq<BlockModel>) -> nat
    decreases bs.len(),
{
    if bs.len() == 0 {
        0
    } else {
        bullet_items_in(bs.drop_last()) + match bs.last() {
            BlockModel::BulletList(items) => items.len(),
            _ => 0,
        }
    }
}

/// The number of numbered lines.
pub open spec fn numbered_lines(lines: Seq<Seq<char>>) -> nat
    decreases lines.len(),
{
    if lines.len() == 0 {
        0
    } else {
        numbered_lines(lines.drop_last()) + if numbered_item(lines.last()) is Some {
            1nat
        } else {
            0nat
        }
    }
}

/// The number of bullet lines (that are not numbered lines).
pub open spec fn bullet_lines(lines: Seq<Seq<char>>) -> nat
    decreases lines.len(),
{
    if lines.len() == 0 {
        0
    } else {
        bullet_lines(lines.drop_last()) + if numbered_item(lines.last()) is None && bullet_item(
            lines.last(),
        ) is Some {
            1nat
        } else {
            0nat
        }
    }
}

/// Every list has an item.
pub open spec fn lists_nonempty(bs: Seq<BlockModel>) -> bool {
    forall|i: int|
        0 <= i < bs.len() ==> match #[trigger] bs[i] {
            BlockModel::NumberedList(items) => items.len() > 0,
            BlockModel::BulletList(items) => items.len() > 0,
            _ => true,
        }
}

// ---------------------------------------------------------------------------
// Lemmas on updating and extending the block sequence
// ---------------------------------------------------------------------------

proof fn lemma_texts_update(bs: Seq<BlockModel>, b: BlockModel)
    requires
        bs.len() > 0,
    ensures
        all_texts(bs.update(bs.len() - 1, b)) == all_texts(bs.drop_last()) + block_texts(b),
        numbered_items_in(bs.update(bs.len() - 1, b)) == numbered_items_in(bs.drop_last()) + match b {
            BlockModel::NumberedList(items) => items.len(),
            _ => 0,
        },
        bullet_items_in(bs.update(bs.len() - 1, b)) == bullet_items_in(bs.drop_last()) + match b {
            BlockModel::BulletList(items) => items.len(),
            _ => 0,
        },
{
    let u = bs.update(bs.len() - 1, b);
    assert(u.drop_last() =~= bs.drop_last());
    assert(u.last() == b);
}

proof fn lemma_texts_push(bs: Seq<BlockModel>, b: BlockModel)
    ensures
        all_texts(bs.push(b)) == all_texts(bs) + block_texts(b),
        numbered_items_in(bs.push(b)) == numbered_items_in(bs) + match b {
            BlockModel::NumberedList(items) => items.len(),
            _ => 0,
        },
        bullet_items_in(bs.push(b)) == bullet_items_in(bs) + match b {
            BlockModel::BulletList(items) => items.len(),
            _ => 0,
        },
{
    assert(bs.push(b).drop_last() =~= bs);
}

proof fn lemma_join_push(ss: Seq<Seq<char>>, x: Seq<char>)
    ensures
        join_spaces(ss.push(x)) == if ss.len() == 0 {
            x
        } else {
            join_space(join_spaces(ss), x)
        },
{
    assert(ss.push(x).drop_last() =~= ss);
    if ss.len() == 0 {
        assert(ss.push(x)[0] == x);
    }
}

proof fn lemma_join_extend(ss: Seq<Seq<char>>, x: Seq<char>)
    requires
        ss.len() > 0,
    ensures
        join_spaces(ss.update(ss.len() - 1, join_space(ss.last(), x))) == join_space(
            join_spaces(ss),
            x,
        ),
{
    let u = ss.update(ss.len() - 1, join_space(ss.last(), x));
    assert(u =~= ss.drop_last().push(join_space(ss.last(), x)));
    assert(ss =~= ss.drop_last().push(ss.last()));
    lemma_join_push(ss.drop_last(), join_space(ss.last(), x));
    lemma_join_push(ss.drop_last(), ss.last());
    if ss.len() > 1 {
        let j = join_spaces(ss.drop_last());
        assert(join_space(j, join_space(ss.last(), x)) =~= join_space(join_space(j, ss.last()), x));
    }
}

/// One step of the parser on a non-blank line either appends the line's
/// content to the texts or joins it, after a space, to the last text.
proof fn lemma_step_texts(bs: Seq<BlockModel>, first: bool, prev_empty: bool, line: Seq<char>, next_empty: bool)
    requires
        lists_nonempty(bs),
        line.len() > 0,
    ensures
        ({
            let r = crate::blocks::parse_step(
                crate::blocks::ParseState { blocks: bs, first_content: first, prev_empty },
                line,
                next_empty,
            ).blocks;
            let t = all_texts(bs);
            let c = line_content(line);
            &&& lists_nonempty(r)
            &&& (all_texts(r) == t.push(c) || (t.len() > 0 && all_texts(r) == t.update(
                t.len() - 1,
                join_space(t.last(), c),
            )))
            &&& numbered_items_in(r) == numbered_items_in(bs) + if numbered_item(line) is Some {
                1nat
            } else {
                0nat
            }
            &&& bullet_items_in(r) == bullet_items_in(bs) + if numbered_item(line) is None
                && bullet_item(line) is Some {
                1nat
            } else {
                0nat
            }
        }),
{
    let st = crate::blocks::ParseState { blocks: bs, first_content: first, prev_empty };
    let r = crate::blocks::parse_step(st, line, next_empty).blocks;
    let t = all_texts(bs);
    let n = bs.len();
    if n > 0 {
        assert(bs =~= bs.drop_last().push(bs.last()));
        lemma_texts_push(bs.drop_last(), bs.last());
        assert(bs[n - 1] == bs.last());
    }
    match numbered_item(line) {
        Some(item) => {
            lemma_item(bs, item, true);
        },
        None => match bullet_item(line) {
            Some(item) => {
                lemma_item(bs, item, false);
            },
            None => {
                if crate::line::heading_rule(line, first, prev_empty, next_empty) {
                    lemma_texts_push(bs, BlockModel::Heading(line));
                    lemma_push_lists(bs, BlockModel::Heading(line));
                    assert(block_texts(BlockModel::Heading(line)) =~= seq![line]);
                } else {
                    lemma_text(bs, line, prev_empty, crate::blocks::starts_lowercase(line));
                }
            },
        },
    }
}

proof fn lemma_push_lists(bs: Seq<BlockModel>, b: BlockModel)
    requires
        lists_nonempty(bs),
        match b {
            BlockModel::NumberedList(items) => items.len() > 0,
            BlockModel::BulletList(items) => items.len() > 0,
            _ => true,
        },
    ensures
        lists_nonempty(bs.push(b)),
{
    assert forall|i: int| 0 <= i < bs.push(b).len() implies match #[trigger] bs.push(b)[i] {
        BlockModel::NumberedList(items) => items.len() > 0,
        BlockModel::BulletList(items) => items.len() > 0,
        _ => true,
    } by {
        if i < bs.len() {
            assert(bs.push(b)[i] == bs[i]);
        }
    }
}

proof fn lemma_update_lists(bs: Seq<BlockModel>, b: BlockModel)
    requires
        lists_nonempty(bs),
        bs.len() > 0,
        match b {
            BlockModel::NumberedList(items) => items.len() > 0,
            BlockModel::BulletList(items) => items.len() > 0,
            _ => true,
        },
    ensures
        lists_nonempty(bs.update(bs.len() - 1, b)),
{
    let u = bs.update(bs.len() - 1, b);
    assert forall|i: int| 0 <= i < u.len() implies match #[trigger] u[i] {
        BlockModel::NumberedList(items) => items.len() > 0,
        BlockModel::BulletList(items) => items.len() > 0,
        _ => true,
    } by {
        if i < bs.len() - 1 {
            assert(u[i] == bs[i]);
        }
    }
}

proof fn lemma_item(bs: Seq<BlockModel>, item: Seq<char>, numbered: bool)
    requires
        lists_nonempty(bs),
        bs.len() > 0 ==> all_texts(bs) == all_texts(bs.drop_last()) + block_texts(bs.last()),
        bs.len() > 0 ==> numbered_items_in(bs) == numbered_items_in(bs.drop_last()) + match bs.last() {
            BlockModel::NumberedList(items) => items.len(),
            _ => 0,
        },
        bs.len() > 0 ==> bullet_items_in(bs) == bullet_items_in(bs.drop_last()) + match bs.last() {
            BlockModel::BulletList(items) => items.len(),
            _ => 0,
        },
    ensures
        lists_nonempty(add_item(bs, item, numbered)),
        all_texts(add_item(bs, item, numbered)) == all_texts(bs).push(item),
        numbered_items_in(add_item(bs, item, numbered)) == numbered_items_in(bs) + if numbered {
            1nat
        } else {
            0nat
        },
        bullet_items_in(add_item(bs, item, numbered)) == bullet_items_in(bs) + if numbered {
            0nat
        } else {
            1nat
        },
{
    let n = bs.len();
    if numbered && n > 0 && bs.last() is NumberedList {
        let items = bs.last()->NumberedList_0;
        let b = BlockModel::NumberedList(items.push(item));
        lemma_texts_update(bs, b);
        lemma_update_lists(bs, b);
        assert(all_texts(bs.drop_last()) + items.push(item) =~= (all_texts(bs.drop_last())
            + items).push(item));
    } else if !numbered && n > 0 && bs.last() is BulletList {
        let items = bs.last()->BulletList_0;
        let b = BlockModel::BulletList(items.push(item));
        lemma_texts_update(bs, b);
        lemma_update_lists(bs, b);
        assert(all_texts(bs.drop_last()) + items.push(item) =~= (all_texts(bs.drop_last())
            + items).push(item));
    } else {
        let b = if numbered {
            BlockModel::NumberedList(seq![item])
        } else {
            BlockModel::BulletList(seq![item])
        };
        lemma_texts_push(bs, b);
        lemma_push_lists(bs, b);
        assert(all_texts(bs) + seq![item] =~= all_texts(bs).push(item));
    }
}

proof fn lemma_text(bs: Seq<BlockModel>, line: Seq<char>, prev_empty: bool, starts_lower: bool)
    requires
        lists_nonempty(bs),
        line_content(line) == line,
        bs.len() > 0 ==> all_texts(bs) == all_texts(bs.drop_last()) + block_texts(bs.last()),
        bs.len() > 0 ==> numbered_items_in(bs) == numbered_items_in(bs.drop_last()) + match bs.last() {
            BlockModel::NumberedList(items) => items.len(),
            _ => 0,
        },
        bs.len() > 0 ==> bullet_items_in(bs) == bullet_items_in(bs.drop_last()) + match bs.last() {
            BlockModel::BulletList(items) => items.len(),
            _ => 0,
        },
    ensures
        lists_nonempty(add_text(bs, line, prev_empty, starts_lower)),
        ({
            let t = all_texts(bs);
            let r = all_texts(add_text(bs, line, prev_empty, starts_lower));
            r == t.push(line) || (t.len() > 0 && r == t.update(
                t.len() - 1,
                join_space(t.last(), line),
            ))
        }),
        numbered_items_in(add_text(bs, line, prev_empty, starts_lower)) == numbered_items_in(bs),
        bullet_items_in(add_text(bs, line, prev_empty, starts_lower)) == bullet_items_in(bs),
{
    let n = bs.len();
    if n > 0 {
        assert(bs[n - 1] == bs.last());
    }
    if starts_lower && !prev_empty && n > 0 && bs.last() is BulletList {
        let items = bs.last()->BulletList_0;
        let b = BlockModel::BulletList(extend_last(items, line));
        lemma_texts_update(bs, b);
        lemma_update_lists(bs, b);
        let t = all_texts(bs);
        assert(all_texts(bs.drop_last()) + extend_last(items, line) =~= t.update(
            t.len() - 1,
            join_space(t.last(), line),
        ));
    } else if starts_lower && !prev_empty && n > 0 && bs.last() is NumberedList {
        let items = bs.last()->NumberedList_0;
        let b = BlockModel::NumberedList(extend_last(items, line));
        lemma_texts_update(bs, b);
        lemma_update_lists(bs, b);
        let t = all_texts(bs);
        assert(all_texts(bs.drop_last()) + extend_last(items, line) =~= t.update(
            t.len() - 1,
            join_space(t.last(), line),
        ));
    } else if n > 0 && bs.last() is Paragraph && !prev_empty {
        let p = bs.last()->Paragraph_0;
        let b = BlockModel::Paragraph(join_space(p, line));
        lemma_texts_update(bs, b);
        lemma_update_lists(bs, b);
        let t = all_texts(bs);
        assert(all_texts(bs.drop_last()) + seq![join_space(p, line)] =~= t.update(
            t.len() - 1,
            join_space(t.last(), line),
        ));
    } else {
        lemma_texts_push(bs, BlockModel::Paragraph(line));
        lemma_push_lists(bs, BlockModel::Paragraph(line));
        assert(all_texts(bs) + seq![line] =~= all_texts(bs).push(line));
    }
}

proof fn lemma_run_content(lines: Seq<Seq<char>>, n: nat)
    requires
        n <= lines.len(),
    ensures
        ({
            let bs = parse_run(lines, n).blocks;
            let c = content_lines(lines.take(n as int));
            &&& lists_nonempty(bs)
            &&& join_spaces(all_texts(bs)) == join_spaces(c)
            &&& (all_texts(bs).len() == 0 <==> c.len() == 0)
            &&& numbered_items_in(bs) == numbered_lines(lines.take(n as int))
            &&& bullet_items_in(bs) == bullet_lines(lines.take(n as int))
        }),
    decreases n,
{
    if n == 0 {
        assert(lines.take(0) =~= Seq::<Seq<char>>::empty());
    } else {
        lemma_run_content(lines, (n - 1) as nat);
        let st = parse_run(lines, (n - 1) as nat);
        let line = lines[n - 1];
        let prev = lines.take(n - 1);
        assert(lines.take(n as int).drop_last() =~= prev);
        assert(lines.take(n as int).last() == line);
        let c = content_lines(prev);
        if line.len() > 0 {
            lemma_step_texts(
                st.blocks,
                st.first_content,
                st.prev_empty,
                line,
                crate::blocks::next_is_blank(lines, n - 1),
            );
            let t = all_texts(st.blocks);
            let x = line_content(line);
            lemma_join_push(t, x);
            lemma_join_push(c, x);
            if t.len() > 0 {
                lemma_join_extend(t, x);
            }
        } else {
            assert(numbered_item(line) is None);
            assert(bullet_item(line) is None);
        }
    }
}

// ---------------------------------------------------------------------------
// Laws
// ---------------------------------------------------------------------------

/// No text is lost, reordered or changed: the texts of the blocks, joined
/// with spaces, are the non-blank trimmed lines joined with spaces, each
/// numbered or bullet line without its marker.
pub proof fn law_every_line_kept(text: Seq<char>)
    ensures
        join_spaces(all_texts(blocks_of(text))) == join_spaces(
            content_lines(trimmed_lines(text)),
        ),
{
    let tl = trimmed_lines(text);
    lemma_run_content(tl, tl.len());
    assert(tl.take(tl.len() as int) =~= tl);
}

/// The numbered lists hold one item per numbered line, and the bullet lists
/// one item per bullet line; a continuation line joins an item and adds none.
pub proof fn law_one_item_per_list_line(text: Seq<char>)
    ensures
        numbered_items_in(blocks_of(text)) == numbered_lines(trimmed_lines(text)),
        bullet_items_in(blocks_of(text)) == bullet_lines(trimmed_lines(text)),
{
    let tl = trimmed_lines(text);
    lemma_run_content(tl, tl.len());
    assert(tl.take(tl.len() as int) =~= tl);
}

} // verus!
