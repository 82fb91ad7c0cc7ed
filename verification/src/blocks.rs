//! Splitting recognised text into blocks: headings, paragraphs, numbered and
//! bulleted lists.
use vstd::prelude::*;
use crate::chars::{chars_of, copy_range, is_lowercase, trim, trim_bounds, unicode_lowercase};
use crate::line::{bullet_item, heading_rule, is_heading, numbered_item, parse_bullet, parse_numbered};

verus! {

// ---------------------------------------------------------------------------
// Model
// ---------------------------------------------------------------------------

/// The mathematical value of a block.
pub enum BlockModel {
    Heading(Seq<char>),
    Paragraph(Seq<char>),
    NumberedList(Seq<Seq<char>>),
    BulletList(Seq<Seq<char>>),
}

/// A block of text, as the parser produces it.
#[derive(Debug, PartialEq, Eq)]
pub enum Block {
    Heading(Vec<char>),
    Paragraph(Vec<char>),
    NumberedList(Vec<Vec<char>>),
    BulletList(Vec<Vec<char>>),
}

/// The characters of each line.
pub open spec fn lines_view(v: Seq<Vec<char>>) -> Seq<Seq<char>> {
    v.map_values(|l: Vec<char>| l@)
}

impl View for Block {
    type V = BlockModel;

    open spec fn view(&self) -> BlockModel {
        match self {
            Block::Heading(h) => BlockModel::Heading(h@),
            Block::Paragraph(p) => BlockModel::Paragraph(p@),
            Block::NumberedList(items) => BlockModel::NumberedList(lines_view(items@)),
            Block::BulletList(items) => BlockModel::BulletList(lines_view(items@)),
        }
    }
}

/// The value of each block.
pub open spec fn blocks_view(v: Seq<Block>) -> Seq<BlockModel> {
    v.map_values(|b: Block| b@)
}

// ---------------------------------------------------------------------------
// Lines
// ---------------------------------------------------------------------------

/// The pieces of `t` between newline characters, including a last piece
/// after the last newline (which may be empty).
pub open spec fn split_newlines(t: Seq<char>) -> Seq<Seq<char>>
    decreases t.len(),
{
    if t.len() == 0 {
        seq![Seq::<char>::empty()]
    } else {
        let r = split_newlines(t.drop_last());
        if t.last() == '\n' {
            r.push(Seq::<char>::empty())
        } else {
            r.update(r.len() - 1, r.last().push(t.last()))
        }
    }
}

/// The lines of `t`, as `str::lines` yields them before trimming: a final
/// newline does not start another line, and an empty text has no lines.
pub open spec fn text_lines(t: Seq<char>) -> Seq<Seq<char>> {
    if t.len() == 0 || t.last() == '\n' {
        split_newlines(t).drop_last()
    } else {
        split_newlines(t)
    }
}

/// The lines of `t`, each trimmed of white space at both ends.
pub open spec fn trimmed_lines(t: Seq<char>) -> Seq<Seq<char>> {
    text_lines(t).map_values(|l: Seq<char>| trim(l))
}

/// `split_newlines` always yields at least one piece.
pub proof fn lemma_split_newlines_nonempty(t: Seq<char>)
    ensures
        split_newlines(t).len() >= 1,
    decreases t.len(),
{
    if t.len() > 0 {
        lemma_split_newlines_nonempty(t.drop_last());
    }
}

/// The lines of `t`, trimmed.
pub fn trimmed_lines_of(t: &[char]) -> (lines: Vec<Vec<char>>)
    ensures
        lines_view(lines@) == trimmed_lines(t@),
{
    let len = t.len();
    let mut done: Vec<Vec<char>> = Vec::new();
    let mut cur: Vec<char> = Vec::new();
    let mut i: usize = 0;
    assert(t@.take(0) =~= Seq::<char>::empty());
    assert(lines_view(done@).push(cur@) =~= split_newlines(t@.take(0)));
    while i < len
        invariant
            i <= len == t@.len(),
            lines_view(done@).push(cur@) == split_newlines(t@.take(i as int)),
        decreases len - i,
    {
        let c = t[i];
        let ghost prev = t@.take(i as int);
        assert(t@.take(i + 1).drop_last() =~= prev);
        proof {
            lemma_split_newlines_nonempty(prev);
        }
        if c == '\n' {
            let finished = cur;
            done.push(finished);
            cur = Vec::new();
            assert(lines_view(done@).push(cur@) =~= split_newlines(prev).push(Seq::<char>::empty()));
        } else {
            cur.push(c);
            assert(lines_view(done@).push(cur@) =~= split_newlines(prev).update(
                split_newlines(prev).len() - 1,
                split_newlines(prev).last().push(c),
            ));
        }
        i = i + 1;
    }
    assert(t@.take(len as int) =~= t@);
    let keep_last = len > 0 && t[len - 1] != '\n';
    if keep_last {
        done.push(cur);
    }
    assert(lines_view(done@) =~= text_lines(t@));
    let mut lines: Vec<Vec<char>> = Vec::new();
    let n = done.len();
    let mut k: usize = 0;
    while k < n
        invariant
            k <= n == done@.len(),
            lines_view(done@) == text_lines(t@),
            lines_view(lines@) == text_lines(t@).take(k as int).map_values(|l: Seq<char>| trim(l)),
        decreases n - k,
    {
        let (lo, hi) = trim_bounds(done[k].as_slice());
        let l = copy_range(done[k].as_slice(), lo, hi);
        let ghost prev_lines = lines_view(lines@);
        proof {
            assert(lines_view(done@)[k as int] == done@[k as int]@);
            assert(l@ == trim(text_lines(t@)[k as int]));
        }
        lines.push(l);
        assert(lines_view(lines@) =~= prev_lines.push(l@));
        assert(text_lines(t@).take(k + 1) =~= text_lines(t@).take(k as int).push(
            text_lines(t@)[k as int],
        ));
        k = k + 1;
        assert(lines_view(lines@) =~= text_lines(t@).take(k as int).map_values(
            |l: Seq<char>| trim(l),
        ));
    }
    assert(text_lines(t@).take(n as int) =~= text_lines(t@));
    lines
}

// ---------------------------------------------------------------------------
// The parser as a state machine over trimmed lines
// ---------------------------------------------------------------------------

/// What the parser knows after some lines.
pub struct ParseState {
    pub blocks: Seq<BlockModel>,
    /// No line with content has been seen yet.
    pub first_content: bool,
    /// The line just before was blank.
    pub prev_empty: bool,
}

/// Adds a list item: to the list that ends `blocks` if it is of the same
/// kind, else as the first item of a new list.
pub open spec fn add_item(blocks: Seq<BlockModel>, item: Seq<char>, numbered: bool) -> Seq<BlockModel> {
    if numbered {
        if blocks.len() > 0 && blocks.last() is NumberedList {
            let items = blocks.last()->NumberedList_0;
            blocks.update(blocks.len() - 1, BlockModel::NumberedList(items.push(item)))
        } else {
            blocks.push(BlockModel::NumberedList(seq![item]))
        }
    } else {
        if blocks.len() > 0 && blocks.last() is BulletList {
            let items = blocks.last()->BulletList_0;
            blocks.update(blocks.len() - 1, BlockModel::BulletList(items.push(item)))
        } else {
            blocks.push(BlockModel::BulletList(seq![item]))
        }
    }
}

/// `a`, a space, then `b`.
pub open spec fn join_space(a: Seq<char>, b: Seq<char>) -> Seq<char> {
    a + seq![' '] + b
}

/// `items` with `line` joined to its last item.
pub open spec fn extend_last(items: Seq<Seq<char>>, line: Seq<char>) -> Seq<Seq<char>> {
    if items.len() > 0 {
        items.update(items.len() - 1, join_space(items.last(), line))
    } else {
        items
    }
}

/// Whether `line` starts with a lowercase letter.
pub open spec fn starts_lowercase(line: Seq<char>) -> bool {
    line.len() > 0 && unicode_lowercase(line[0])
}

/// Adds a line of plain text. A line that starts with a lowercase letter
/// (`starts_lower`) directly after a list item continues that item.
/// Otherwise a line directly after a paragraph continues it, and any other
/// line starts a paragraph.
pub open spec fn add_text(
    blocks: Seq<BlockModel>,
    line: Seq<char>,
    prev_empty: bool,
    starts_lower: bool,
) -> Seq<BlockModel> {
    let n = blocks.len();
    if starts_lower && !prev_empty && n > 0 && blocks.last() is BulletList {
        blocks.update(n - 1, BlockModel::BulletList(extend_last(blocks.last()->BulletList_0, line)))
    } else if starts_lower && !prev_empty && n > 0 && blocks.last() is NumberedList {
        blocks.update(
            n - 1,
            BlockModel::NumberedList(extend_last(blocks.last()->NumberedList_0, line)),
        )
    } else if n > 0 && blocks.last() is Paragraph && !prev_empty {
        blocks.update(n - 1, BlockModel::Paragraph(join_space(blocks.last()->Paragraph_0, line)))
    } else {
        blocks.push(BlockModel::Paragraph(line))
    }
}

/// One line of the parser. A blank line only marks that the next line
/// follows a blank; a numbered line and a bullet line add a list item; a
/// heading line adds a heading; any other line is plain text.
pub open spec fn parse_step(st: ParseState, line: Seq<char>, next_empty: bool) -> ParseState {
    if line.len() == 0 {
        ParseState { blocks: st.blocks, first_content: st.first_content, prev_empty: true }
    } else {
        let blocks = match numbered_item(line) {
            Some(item) => add_item(st.blocks, item, true),
            None => match bullet_item(line) {
                Some(item) => add_item(st.blocks, item, false),
                None => if heading_rule(line, st.first_content, st.prev_empty, next_empty) {
                    st.blocks.push(BlockModel::Heading(line))
                } else {
                    add_text(st.blocks, line, st.prev_empty, starts_lowercase(line))
                },
            },
        };
        ParseState { blocks, first_content: false, prev_empty: false }
    }
}

/// Line `i` is the last line or is followed by a blank line.
pub open spec fn next_is_blank(lines: Seq<Seq<char>>, i: int) -> bool {
    i + 1 >= lines.len() || lines[i + 1].len() == 0
}

/// The state before any line.
pub open spec fn initial_state() -> ParseState {
    ParseState { blocks: Seq::empty(), first_content: true, prev_empty: false }
}

/// The state after the first `n` trimmed lines.
pub open spec fn parse_run(lines: Seq<Seq<char>>, n: nat) -> ParseState
    decreases n,
{
    if n == 0 {
        initial_state()
    } else {
        parse_step(
            parse_run(lines, (n - 1) as nat),
            lines[n - 1],
            next_is_blank(lines, n - 1),
        )
    }
}

/// The blocks of a trimmed text.
pub open spec fn blocks_of_lines(lines: Seq<Seq<char>>) -> Seq<BlockModel> {
    parse_run(lines, lines.len()).blocks
}

/// The blocks of `text`.
pub open spec fn blocks_of(text: Seq<char>) -> Seq<BlockModel> {
    blocks_of_lines(trimmed_lines(text))
}

// ---------------------------------------------------------------------------
// Executable parser
// ---------------------------------------------------------------------------

/// A list holding one item.
fn single(item: Vec<char>) -> (v: Vec<Vec<char>>)
    ensures
        lines_view(v@) == seq![item@],
{
    let mut v: Vec<Vec<char>> = Vec::new();
    v.push(item);
    assert(lines_view(v@) =~= seq![item@]);
    v
}

/// Adds a list item (see `add_item`).
pub fn add_list_item(blocks: &mut Vec<Block>, item: Vec<char>, numbered: bool)
    ensures
        blocks_view(final(blocks)@) == add_item(blocks_view(old(blocks)@), item@, numbered),
{
    let ghost before = blocks_view(blocks@);
    match blocks.pop() {
        Some(last) => {
            assert(before.last() == last@);
            assert(blocks_view(blocks@) =~= before.drop_last());
            match last {
                Block::NumberedList(mut items) => {
                    if numbered {
                        let ghost old_items = items@;
                        items.push(item);
                        assert(lines_view(items@) =~= lines_view(old_items).push(item@));
                        blocks.push(Block::NumberedList(items));
                    } else {
                        blocks.push(Block::NumberedList(items));
                        blocks.push(Block::BulletList(single(item)));
                    }
                },
                Block::BulletList(mut items) => {
                    if numbered {
                        blocks.push(Block::BulletList(items));
                        blocks.push(Block::NumberedList(single(item)));
                    } else {
                        let ghost old_items = items@;
                        items.push(item);
                        assert(lines_view(items@) =~= lines_view(old_items).push(item@));
                        blocks.push(Block::BulletList(items));
                    }
                },
                other => {
                    blocks.push(other);
                    if numbered {
                        blocks.push(Block::NumberedList(single(item)));
                    } else {
                        blocks.push(Block::BulletList(single(item)));
                    }
                },
            }
        },
        None => {
            if numbered {
                blocks.push(Block::NumberedList(single(item)));
            } else {
                blocks.push(Block::BulletList(single(item)));
            }
        },
    }
    assert(blocks_view(blocks@) =~= add_item(before, item@, numbered));
}

/// `a` with a space and `b` appended.
fn join_space_exec(a: &mut Vec<char>, b: &[char])
    ensures
        final(a)@ == join_space(old(a)@, b@),
{
    let ghost start = a@;
    a.push(' ');
    let mut i: usize = 0;
    while i < b.len()
        invariant
            i <= b@.len(),
            a@ == start + seq![' '] + b@.take(i as int),
        decreases b@.len() - i,
    {
        a.push(b[i]);
        i = i + 1;
        assert(a@ =~= start + seq![' '] + b@.take(i as int));
    }
    assert(b@.take(b@.len() as int) =~= b@);
}

fn extend_last_exec(items: &mut Vec<Vec<char>>, line: &[char])
    ensures
        lines_view(final(items)@) == extend_last(lines_view(old(items)@), line@),
{
    let ghost before = lines_view(items@);
    match items.pop() {
        Some(mut last) => {
            assert(before.last() == last@);
            join_space_exec(&mut last, line);
            items.push(last);
        },
        None => {},
    }
    assert(lines_view(items@) =~= extend_last(before, line@));
}

/// Adds a line of plain text (see `add_text`).
pub fn add_text_line(blocks: &mut Vec<Block>, line: Vec<char>, prev_empty: bool, starts_lower: bool)
    ensures
        blocks_view(final(blocks)@) == add_text(
            blocks_view(old(blocks)@),
            line@,
            prev_empty,
            starts_lower,
        ),
{
    let ghost before = blocks_view(blocks@);
    match blocks.pop() {
        Some(last) => {
            assert(before.last() == last@);
            assert(blocks_view(blocks@) =~= before.drop_last());
            match last {
                Block::BulletList(mut items) => {
                    if starts_lower && !prev_empty {
                        extend_last_exec(&mut items, line.as_slice());
                        blocks.push(Block::BulletList(items));
                    } else {
                        blocks.push(Block::BulletList(items));
                        blocks.push(Block::Paragraph(line));
                    }
                },
                Block::NumberedList(mut items) => {
                    if starts_lower && !prev_empty {
                        extend_last_exec(&mut items, line.as_slice());
                        blocks.push(Block::NumberedList(items));
                    } else {
                        blocks.push(Block::NumberedList(items));
                        blocks.push(Block::Paragraph(line));
                    }
                },
                Block::Paragraph(mut p) => {
                    if !prev_empty {
                        join_space_exec(&mut p, line.as_slice());
                        blocks.push(Block::Paragraph(p));
                    } else {
                        blocks.push(Block::Paragraph(p));
                        blocks.push(Block::Paragraph(line));
                    }
                },
                other => {
                    blocks.push(other);
                    blocks.push(Block::Paragraph(line));
                },
            }
        },
        None => {
            blocks.push(Block::Paragraph(line));
        },
    }
    assert(blocks_view(blocks@) =~= add_text(before, line@, prev_empty, starts_lower));
}

/// Splits `text` into blocks (see `parse_step` for the rules).
pub fn parse_blocks(text: &str) -> (blocks: Vec<Block>)
    ensures
        blocks_view(blocks@) == blocks_of(text@),
{
    let t = chars_of(text);
    let lines = trimmed_lines_of(t.as_slice());
    let ghost tl = lines_view(lines@);
    let n = lines.len();
    let mut blocks: Vec<Block> = Vec::new();
    let mut first_content = true;
    let mut prev_empty = false;
    let mut i: usize = 0;
    assert(blocks_view(blocks@) =~= Seq::<BlockModel>::empty());
    while i < n
        invariant
            i <= n == lines@.len(),
            tl == lines_view(lines@),
            tl == trimmed_lines(t@),
            parse_run(tl, i as nat) == (ParseState {
                blocks: blocks_view(blocks@),
                first_content,
                prev_empty,
            }),
        decreases n - i,
    {
        let line = &lines[i];
        assert(line@ == tl[i as int]);
        if line.len() == 0 {
            prev_empty = true;
        } else {
            let next_empty = i + 1 >= n || lines[i + 1].len() == 0;
            proof {
                if i + 1 < n {
                    assert(lines[i + 1]@ == tl[i + 1]);
                }
            }
            assert(next_empty == next_is_blank(tl, i as int));
            match parse_numbered(line.as_slice()) {
                Some(item) => {
                    add_list_item(&mut blocks, item, true);
                },
                None => match parse_bullet(line.as_slice()) {
                    Some(item) => {
                        add_list_item(&mut blocks, item, false);
                    },
                    None => {
                        if is_heading(line.as_slice(), first_content, prev_empty, next_empty) {
                            let h = line.clone();
                            assert(h@ == line@);
                            let ghost before = blocks_view(blocks@);
                            blocks.push(Block::Heading(h));
                            assert(blocks_view(blocks@) =~= before.push(BlockModel::Heading(line@)));
                        } else {
                            let l = line.clone();
                            assert(l@ == line@);
                            let starts_lower = is_lowercase(l[0]);
                            add_text_line(&mut blocks, l, prev_empty, starts_lower);
                        }
                    },
                },
            }
            first_content = false;
            prev_empty = false;
        }
        i = i + 1;
    }
    blocks
}

} // verus!
