//! Where list items come from: a numbered line is recognised by its digits
//! and separator, and every list item is the text of its marker line,
//! extended only by lowercase lines directly below it.
use vstd::prelude::*;
use crate::blocks::{
    add_item, add_text, blocks_of, extend_last, join_space, next_is_blank, parse_run,
    starts_lowercase, trimmed_lines, BlockModel,
};
use crate::chars::{is_ascii_digit, trim_start, unicode_lowercase};
use crate::line::{
    bullet_item, heading_rule, is_bullet_char, lemma_leading_digits_at, numbered_item,
};

verus! {

// ---------------------------------------------------------------------------
// Numbered lines
// ---------------------------------------------------------------------------

/// One or more ASCII digits, then `.` or `)`, then text whose non-blank
/// remainder is the item: the number of digits does not matter.
pub proof fn law_numbered_line_item(digits: Seq<char>, sep: char, t: Seq<char>)
    requires
        digits.len() > 0,
        forall|j: int| 0 <= j < digits.len() ==> is_ascii_digit(#[trigger] digits[j]),
        sep == '.' || sep == ')',
        trim_start(t).len() > 0,
    ensures
        numbered_item(digits + seq![sep] + t) == Some(trim_start(t)),
{
    let l = digits + seq![sep] + t;
    let k = digits.len() as int;
    assert forall|j: int| 0 <= j < k implies is_ascii_digit(#[trigger] l[j]) by {
        assert(l[j] == digits[j]);
    }
    assert(l[k] == sep);
    lemma_leading_digits_at(l, k);
    assert(l.skip(k + 1) =~= t);
}

/// A line has an item as a numbered line only when it starts with one or
/// more ASCII digits followed by `.` or `)`; the item is the rest of the
/// line without its leading white space, and it is not empty.
pub proof fn law_numbered_line_shape(l: Seq<char>)
    ensures
        numbered_item(l) matches Some(x) ==> exists|i: int|
            #![trigger l.skip(i + 1)]
            {
                &&& 1 <= i < l.len()
                &&& forall|j: int| 0 <= j < i ==> is_ascii_digit(#[trigger] l[j])
                &&& (l[i] == '.' || l[i] == ')')
                &&& x == trim_start(l.skip(i + 1))
                &&& x.len() > 0
            },
{
    if numbered_item(l) is Some {
        let i = crate::line::leading_digits(l) as int;
        lemma_digit_prefix(l);
        assert(numbered_item(l) == Some(trim_start(l.skip(i + 1))));
    }
}

/// A bullet character followed by text, or `-` or `*` followed by a space
/// and text, has as its bullet item that text without its leading white
/// space, when that is not empty.
pub proof fn law_bullet_line_item(c: char, t: Seq<char>)
    requires
        trim_start(t).len() > 0,
    ensures
        is_bullet_char(c) ==> bullet_item(seq![c] + t) == Some(trim_start(t)),
        c == '-' || c == '*' ==> bullet_item(seq![c, ' '] + t) == Some(trim_start(t)),
{
    assert((seq![c] + t).drop_first() =~= t);
    assert((seq![c, ' '] + t).skip(2) =~= t);
    assert((seq![c, ' '] + t)[1] == ' ');
}

/// The first `leading_digits(s)` characters of `s` are digits.
proof fn lemma_digit_prefix(s: Seq<char>)
    ensures
        crate::line::leading_digits(s) <= s.len(),
        forall|j: int|
            0 <= j < crate::line::leading_digits(s) ==> is_ascii_digit(#[trigger] s[j]),
    decreases s.len(),
{
    if s.len() > 0 && is_ascii_digit(s[0]) {
        let t = s.drop_first();
        lemma_digit_prefix(t);
        assert forall|j: int| 0 <= j < crate::line::leading_digits(s) implies is_ascii_digit(
            #[trigger] s[j],
        ) by {
            if j > 0 {
                assert(s[j] == t[j - 1]);
            }
        }
    }
}

// ---------------------------------------------------------------------------
// List items and the lines they come from
// ---------------------------------------------------------------------------

/// A plain line that can continue a list item: not empty, starting with a
/// lowercase letter, and neither a numbered nor a bullet line.
pub open spec fn continues_item(l: Seq<char>) -> bool {
    &&& l.len() > 0
    &&& unicode_lowercase(l[0])
    &&& numbered_item(l) is None
    &&& bullet_item(l) is None
}

/// `x` followed by each of `ls` in order, each after a single space.
pub open spec fn extend_with(x: Seq<char>, ls: Seq<Seq<char>>) -> Seq<char>
    decreases ls.len(),
{
    if ls.len() == 0 {
        x
    } else {
        extend_with(x, ls.drop_last()) + seq![' '] + ls.last()
    }
}

/// The item text of `l` as the marker line of a numbered list
/// (`numbered`), or of a bullet list: a bullet line that is not also a
/// numbered line.
pub open spec fn marker_text(l: Seq<char>, numbered: bool) -> Option<Seq<char>> {
    if numbered {
        numbered_item(l)
    } else if numbered_item(l) is Some {
        None
    } else {
        bullet_item(l)
    }
}

/// `item` is the text of marker line `k` of `lines`, extended by the lines
/// `k + 1` to `m`, each of which can continue an item.
pub open spec fn item_span(
    item: Seq<char>,
    lines: Seq<Seq<char>>,
    numbered: bool,
    k: int,
    m: int,
) -> bool {
    &&& 0 <= k <= m < lines.len()
    &&& marker_text(lines[k], numbered) is Some
    &&& forall|j: int| k < j <= m ==> continues_item(#[trigger] lines[j])
    &&& item == extend_with(marker_text(lines[k], numbered)->0, lines.subrange(k + 1, m + 1))
}

/// `item` comes from a marker line of `lines` and the lines below it.
pub open spec fn from_marker(item: Seq<char>, lines: Seq<Seq<char>>, numbered: bool) -> bool {
    exists|k: int, m: int| item_span(item, lines, numbered, k, m)
}

/// Every one of `items` comes from a marker line of `lines`.
pub open spec fn items_from(items: Seq<Seq<char>>, lines: Seq<Seq<char>>, numbered: bool) -> bool {
    forall|j: int| 0 <= j < items.len() ==> from_marker(#[trigger] items[j], lines, numbered)
}

/// Every item of `b`, if it is a list, comes from a marker line of its kind.
pub open spec fn block_from_markers(b: BlockModel, lines: Seq<Seq<char>>) -> bool {
    match b {
        BlockModel::NumberedList(items) => items_from(items, lines, true),
        BlockModel::BulletList(items) => items_from(items, lines, false),
        _ => true,
    }
}

/// Every item of every list among `bs` comes from a marker line of its kind.
pub open spec fn items_from_markers(bs: Seq<BlockModel>, lines: Seq<Seq<char>>) -> bool {
    forall|b: int| 0 <= b < bs.len() ==> block_from_markers(#[trigger] bs[b], lines)
}

/// When the last block is a list, it has an item and its last item ends at
/// line `m`.
spec fn last_item_ends_at(bs: Seq<BlockModel>, lines: Seq<Seq<char>>, m: int) -> bool {
    bs.len() > 0 ==> match bs.last() {
        BlockModel::NumberedList(items) => items.len() > 0 && exists|k: int|
            item_span(items.last(), lines, true, k, m),
        BlockModel::BulletList(items) => items.len() > 0 && exists|k: int|
            item_span(items.last(), lines, false, k, m),
        _ => true,
    }
}

proof fn lemma_push_block(bs: Seq<BlockModel>, lines: Seq<Seq<char>>, b: BlockModel)
    requires
        items_from_markers(bs, lines),
        block_from_markers(b, lines),
    ensures
        items_from_markers(bs.push(b), lines),
{
    assert forall|i: int| 0 <= i < bs.push(b).len() implies block_from_markers(
        #[trigger] bs.push(b)[i],
        lines,
    ) by {
        if i < bs.len() {
            assert(bs.push(b)[i] == bs[i]);
        }
    }
}

proof fn lemma_update_block(bs: Seq<BlockModel>, lines: Seq<Seq<char>>, b: BlockModel)
    requires
        items_from_markers(bs, lines),
        bs.len() > 0,
        block_from_markers(b, lines),
    ensures
        items_from_markers(bs.update(bs.len() - 1, b), lines),
{
    let u = bs.update(bs.len() - 1, b);
    assert forall|i: int| 0 <= i < u.len() implies block_from_markers(#[trigger] u[i], lines) by {
        if i < bs.len() - 1 {
            assert(u[i] == bs[i]);
        }
    }
}

proof fn lemma_items_push(
    items: Seq<Seq<char>>,
    lines: Seq<Seq<char>>,
    numbered: bool,
    item: Seq<char>,
)
    requires
        items_from(items, lines, numbered),
        from_marker(item, lines, numbered),
    ensures
        items_from(items.push(item), lines, numbered),
{
    assert forall|j: int| 0 <= j < items.push(item).len() implies from_marker(
        #[trigger] items.push(item)[j],
        lines,
        numbered,
    ) by {
        if j < items.len() {
            assert(items.push(item)[j] == items[j]);
        }
    }
}

/// A new item from marker line `k` keeps every item's origin, and is the
/// last item of the last list.
proof fn lemma_add_item_spans(
    bs: Seq<BlockModel>,
    lines: Seq<Seq<char>>,
    item: Seq<char>,
    numbered: bool,
    k: int,
)
    requires
        items_from_markers(bs, lines),
        0 <= k < lines.len(),
        marker_text(lines[k], numbered) == Some(item),
    ensures
        items_from_markers(add_item(bs, item, numbered), lines),
        last_item_ends_at(add_item(bs, item, numbered), lines, k),
{
    assert(lines.subrange(k + 1, k + 1) =~= Seq::<Seq<char>>::empty());
    assert(extend_with(item, lines.subrange(k + 1, k + 1)) == item);
    assert(item_span(item, lines, numbered, k, k));
    let n = bs.len();
    if n > 0 {
        assert(block_from_markers(bs[n - 1], lines));
        assert(bs[n - 1] == bs.last());
    }
    if numbered && n > 0 && bs.last() is NumberedList {
        let items = bs.last()->NumberedList_0;
        lemma_items_push(items, lines, true, item);
        lemma_update_block(bs, lines, BlockModel::NumberedList(items.push(item)));
        assert(items.push(item).last() == item);
    } else if !numbered && n > 0 && bs.last() is BulletList {
        let items = bs.last()->BulletList_0;
        lemma_items_push(items, lines, false, item);
        lemma_update_block(bs, lines, BlockModel::BulletList(items.push(item)));
        assert(items.push(item).last() == item);
    } else {
        lemma_items_push(Seq::<Seq<char>>::empty(), lines, numbered, item);
        assert(Seq::<Seq<char>>::empty().push(item) =~= seq![item]);
        let b = if numbered {
            BlockModel::NumberedList(seq![item])
        } else {
            BlockModel::BulletList(seq![item])
        };
        lemma_push_block(bs, lines, b);
        assert(seq![item].last() == item);
    }
}

/// An item ending at line `m - 1`, joined by line `m` after a space, ends
/// at line `m` when line `m` can continue an item.
proof fn lemma_extend_span(item: Seq<char>, lines: Seq<Seq<char>>, numbered: bool, k: int, m: int)
    requires
        item_span(item, lines, numbered, k, m - 1),
        m < lines.len(),
        continues_item(lines[m]),
    ensures
        item_span(join_space(item, lines[m]), lines, numbered, k, m),
{
    let s = lines.subrange(k + 1, m + 1);
    assert(s.drop_last() =~= lines.subrange(k + 1, m));
    assert(s.last() == lines[m]);
    assert forall|j: int| k < j <= m implies continues_item(#[trigger] lines[j]) by {
        if j < m {
            assert(continues_item(lines[j]));
        }
    }
}

/// Extending the last item of a list with line `m`.
proof fn lemma_extend_items(
    items: Seq<Seq<char>>,
    lines: Seq<Seq<char>>,
    numbered: bool,
    k: int,
    m: int,
)
    requires
        items.len() > 0,
        items_from(items, lines, numbered),
        item_span(items.last(), lines, numbered, k, m - 1),
        m < lines.len(),
        continues_item(lines[m]),
    ensures
        items_from(extend_last(items, lines[m]), lines, numbered),
        extend_last(items, lines[m]).len() > 0,
        item_span(extend_last(items, lines[m]).last(), lines, numbered, k, m),
{
    let e = extend_last(items, lines[m]);
    lemma_extend_span(items.last(), lines, numbered, k, m);
    assert(e.last() == join_space(items.last(), lines[m]));
    assert forall|j: int| 0 <= j < e.len() implies from_marker(#[trigger] e[j], lines, numbered) by {
        if j < items.len() - 1 {
            assert(e[j] == items[j]);
        } else {
            assert(item_span(e[j], lines, numbered, k, m));
        }
    }
}

/// A plain line `m` keeps every item's origin; it ends the last item when
/// it continues one.
proof fn lemma_add_text_spans(
    bs: Seq<BlockModel>,
    lines: Seq<Seq<char>>,
    m: int,
    prev_empty: bool,
    starts_lower: bool,
)
    requires
        items_from_markers(bs, lines),
        0 <= m < lines.len(),
        starts_lower ==> continues_item(lines[m]),
        !prev_empty ==> last_item_ends_at(bs, lines, m - 1),
    ensures
        items_from_markers(add_text(bs, lines[m], prev_empty, starts_lower), lines),
        last_item_ends_at(add_text(bs, lines[m], prev_empty, starts_lower), lines, m),
{
    let line = lines[m];
    let prev = m - 1;
    let n = bs.len();
    if n > 0 {
        assert(block_from_markers(bs[n - 1], lines));
        assert(bs[n - 1] == bs.last());
    }
    if starts_lower && !prev_empty && n > 0 && bs.last() is BulletList {
        let items = bs.last()->BulletList_0;
        let k = choose|k: int| item_span(items.last(), lines, false, k, prev);
        lemma_extend_items(items, lines, false, k, m);
        lemma_update_block(bs, lines, BlockModel::BulletList(extend_last(items, line)));
    } else if starts_lower && !prev_empty && n > 0 && bs.last() is NumberedList {
        let items = bs.last()->NumberedList_0;
        let k = choose|k: int| item_span(items.last(), lines, true, k, prev);
        lemma_extend_items(items, lines, true, k, m);
        lemma_update_block(bs, lines, BlockModel::NumberedList(extend_last(items, line)));
    } else if n > 0 && bs.last() is Paragraph && !prev_empty {
        lemma_update_block(
            bs,
            lines,
            BlockModel::Paragraph(join_space(bs.last()->Paragraph_0, line)),
        );
    } else {
        lemma_push_block(bs, lines, BlockModel::Paragraph(line));
    }
}

/// After the first `n` lines, every item comes from its marker line, and
/// unless line `n - 1` was blank, the last item of a final list ends there.
proof fn lemma_run_spans(lines: Seq<Seq<char>>, n: nat)
    requires
        n <= lines.len(),
    ensures
        items_from_markers(parse_run(lines, n).blocks, lines),
        !parse_run(lines, n).prev_empty ==> last_item_ends_at(
            parse_run(lines, n).blocks,
            lines,
            n - 1,
        ),
    decreases n,
{
    if n > 0 {
        lemma_run_spans(lines, (n - 1) as nat);
        let st = parse_run(lines, (n - 1) as nat);
        let m = n - 1;
        let line = lines[m];
        if line.len() > 0 {
            match numbered_item(line) {
                Some(item) => {
                    lemma_add_item_spans(st.blocks, lines, item, true, m);
                },
                None => match bullet_item(line) {
                    Some(item) => {
                        lemma_add_item_spans(st.blocks, lines, item, false, m);
                    },
                    None => {
                        if heading_rule(
                            line,
                            st.first_content,
                            st.prev_empty,
                            next_is_blank(lines, m),
                        ) {
                            lemma_push_block(st.blocks, lines, BlockModel::Heading(line));
                        } else {
                            lemma_add_text_spans(
                                st.blocks,
                                lines,
                                m,
                                st.prev_empty,
                                starts_lowercase(line),
                            );
                        }
                    },
                },
            }
        }
    }
}

// ---------------------------------------------------------------------------
// List items take in every line that continues them
// ---------------------------------------------------------------------------

/// `item` comes from a marker line of `lines` and the lines below it, and
/// the line after those, if there is one, cannot continue an item.
pub open spec fn from_whole_run(item: Seq<char>, lines: Seq<Seq<char>>, numbered: bool) -> bool {
    exists|k: int, m: int|
        #[trigger] item_span(item, lines, numbered, k, m) && (m + 1 < lines.len()
            ==> !continues_item(lines[m + 1]))
}

/// Every item of every list among `bs` comes from a marker line of its kind
/// and all the lines directly below it that can continue an item.
pub open spec fn items_take_whole_runs(bs: Seq<BlockModel>, lines: Seq<Seq<char>>) -> bool {
    forall|b: int|
        0 <= b < bs.len() ==> match #[trigger] bs[b] {
            BlockModel::NumberedList(items) => forall|j: int|
                0 <= j < items.len() ==> from_whole_run(#[trigger] items[j], lines, true),
            BlockModel::BulletList(items) => forall|j: int|
                0 <= j < items.len() ==> from_whole_run(#[trigger] items[j], lines, false),
            _ => true,
        }
}

/// After `n` lines: `item` has a span ending before line `n`, the line
/// after which, among the first `n`, cannot continue an item; the span may
/// end at line `n - 1` only when `open_end` holds.
spec fn placed(item: Seq<char>, lines: Seq<Seq<char>>, numbered: bool, n: int, open_end: bool) -> bool {
    exists|k: int, m: int|
        #[trigger] item_span(item, lines, numbered, k, m) && m < n && (m + 1 < n
            ==> !continues_item(lines[m + 1])) && (m + 1 == n ==> open_end)
}

spec fn items_placed(
    items: Seq<Seq<char>>,
    lines: Seq<Seq<char>>,
    numbered: bool,
    n: int,
    last_block: bool,
) -> bool {
    forall|j: int|
        0 <= j < items.len() ==> placed(
            #[trigger] items[j],
            lines,
            numbered,
            n,
            last_block && j == items.len() - 1,
        )
}

spec fn block_placed(b: BlockModel, lines: Seq<Seq<char>>, n: int, last_block: bool) -> bool {
    match b {
        BlockModel::NumberedList(items) => items_placed(items, lines, true, n, last_block),
        BlockModel::BulletList(items) => items_placed(items, lines, false, n, last_block),
        _ => true,
    }
}

/// Only the last item of the last block may still grow.
spec fn blocks_placed(bs: Seq<BlockModel>, lines: Seq<Seq<char>>, n: int) -> bool {
    forall|b: int| 0 <= b < bs.len() ==> block_placed(#[trigger] bs[b], lines, n, b == bs.len() - 1)
}

/// Line `c` cannot continue the item that ends just before it.
spec fn closes(lines: Seq<Seq<char>>, c: int) -> bool {
    !continues_item(lines[c]) || lines[c - 1].len() == 0
}

/// The last line of a span is not blank.
proof fn lemma_span_end_not_blank(
    item: Seq<char>,
    lines: Seq<Seq<char>>,
    numbered: bool,
    k: int,
    m: int,
)
    requires
        item_span(item, lines, numbered, k, m),
    ensures
        lines[m].len() > 0,
{
    if m == k {
        let l = lines[k];
        if numbered {
            assert(numbered_item(l) is Some);
        } else {
            assert(bullet_item(l) is Some);
        }
    } else {
        assert(continues_item(lines[m]));
    }
}

proof fn lemma_close_item(
    item: Seq<char>,
    lines: Seq<Seq<char>>,
    numbered: bool,
    c: int,
    open_end: bool,
)
    requires
        placed(item, lines, numbered, c, open_end),
        0 <= c < lines.len(),
        open_end ==> closes(lines, c),
    ensures
        placed(item, lines, numbered, c + 1, false),
        placed(item, lines, numbered, c + 1, true),
{
    let (k, m) = choose|k: int, m: int|
        #[trigger] item_span(item, lines, numbered, k, m) && m < c && (m + 1 < c
            ==> !continues_item(lines[m + 1])) && (m + 1 == c ==> open_end);
    if m + 1 == c {
        lemma_span_end_not_blank(item, lines, numbered, k, m);
    }
    assert(item_span(item, lines, numbered, k, m));
}

proof fn lemma_close_items(
    items: Seq<Seq<char>>,
    lines: Seq<Seq<char>>,
    numbered: bool,
    c: int,
    last_block: bool,
)
    requires
        items_placed(items, lines, numbered, c, last_block),
        0 <= c < lines.len(),
        last_block ==> closes(lines, c),
    ensures
        items_placed(items, lines, numbered, c + 1, false),
        items_placed(items, lines, numbered, c + 1, true),
{
    assert forall|j: int| 0 <= j < items.len() implies placed(
        #[trigger] items[j],
        lines,
        numbered,
        c + 1,
        false,
    ) && placed(items[j], lines, numbered, c + 1, true) by {
        lemma_close_item(items[j], lines, numbered, c, last_block && j == items.len() - 1);
    }
}

/// Every item but the last is closed by line `c`.
proof fn lemma_close_items_but_last(
    items: Seq<Seq<char>>,
    lines: Seq<Seq<char>>,
    numbered: bool,
    c: int,
)
    requires
        items_placed(items, lines, numbered, c, true),
        0 <= c < lines.len(),
    ensures
        forall|j: int|
            0 <= j < items.len() - 1 ==> placed(#[trigger] items[j], lines, numbered, c + 1, false),
{
    assert forall|j: int| 0 <= j < items.len() - 1 implies placed(
        #[trigger] items[j],
        lines,
        numbered,
        c + 1,
        false,
    ) by {
        lemma_close_item(items[j], lines, numbered, c, false);
    }
}

proof fn lemma_close_block(b: BlockModel, lines: Seq<Seq<char>>, c: int, last_block: bool)
    requires
        block_placed(b, lines, c, last_block),
        0 <= c < lines.len(),
        last_block && (b is NumberedList || b is BulletList) ==> closes(lines, c),
    ensures
        block_placed(b, lines, c + 1, false),
        block_placed(b, lines, c + 1, true),
{
    match b {
        BlockModel::NumberedList(items) => {
            lemma_close_items(items, lines, true, c, last_block);
        },
        BlockModel::BulletList(items) => {
            lemma_close_items(items, lines, false, c, last_block);
        },
        _ => {},
    }
}

/// Every block but the last is closed by line `c`.
proof fn lemma_close_prefix(bs: Seq<BlockModel>, lines: Seq<Seq<char>>, c: int)
    requires
        blocks_placed(bs, lines, c),
        0 <= c < lines.len(),
    ensures
        forall|b: int|
            0 <= b < bs.len() - 1 ==> block_placed(#[trigger] bs[b], lines, c + 1, false),
{
    assert forall|b: int| 0 <= b < bs.len() - 1 implies block_placed(
        #[trigger] bs[b],
        lines,
        c + 1,
        false,
    ) by {
        lemma_close_block(bs[b], lines, c, false);
    }
}

/// Appending block `x` after closing every block.
proof fn lemma_placed_push(bs: Seq<BlockModel>, lines: Seq<Seq<char>>, c: int, x: BlockModel)
    requires
        blocks_placed(bs, lines, c),
        0 <= c < lines.len(),
        bs.len() > 0 && (bs.last() is NumberedList || bs.last() is BulletList) ==> closes(lines, c),
        block_placed(x, lines, c + 1, true),
    ensures
        blocks_placed(bs.push(x), lines, c + 1),
{
    lemma_close_prefix(bs, lines, c);
    let n = bs.len();
    if n > 0 {
        assert(bs[n - 1] == bs.last());
        lemma_close_block(bs[n - 1], lines, c, true);
    }
    let u = bs.push(x);
    assert forall|b: int| 0 <= b < u.len() implies block_placed(
        #[trigger] u[b],
        lines,
        c + 1,
        b == u.len() - 1,
    ) by {
        if b < n {
            assert(u[b] == bs[b]);
        }
    }
}

/// Replacing the last block by `x`, every other block being closed.
proof fn lemma_placed_update(bs: Seq<BlockModel>, lines: Seq<Seq<char>>, c: int, x: BlockModel)
    requires
        blocks_placed(bs, lines, c),
        0 <= c < lines.len(),
        bs.len() > 0,
        block_placed(x, lines, c + 1, true),
    ensures
        blocks_placed(bs.update(bs.len() - 1, x), lines, c + 1),
{
    lemma_close_prefix(bs, lines, c);
    let u = bs.update(bs.len() - 1, x);
    assert forall|b: int| 0 <= b < u.len() implies block_placed(
        #[trigger] u[b],
        lines,
        c + 1,
        b == u.len() - 1,
    ) by {
        if b < bs.len() - 1 {
            assert(u[b] == bs[b]);
        }
    }
}

/// Whether the line before was blank, and whether nothing was seen yet.
proof fn lemma_run_flags(lines: Seq<Seq<char>>, n: nat)
    requires
        n <= lines.len(),
    ensures
        parse_run(lines, n).prev_empty <==> (n > 0 && lines[n - 1].len() == 0),
        parse_run(lines, n).first_content ==> parse_run(lines, n).blocks.len() == 0,
    decreases n,
{
    if n > 0 {
        lemma_run_flags(lines, (n - 1) as nat);
        let st = parse_run(lines, (n - 1) as nat);
        let line = lines[n - 1];
        if line.len() > 0 {
            let r = parse_run(lines, n).blocks;
            match numbered_item(line) {
                Some(item) => {
                    assert(r.len() > 0);
                },
                None => match bullet_item(line) {
                    Some(item) => {
                        assert(r.len() > 0);
                    },
                    None => {},
                },
            }
        }
    }
}

/// A new item from marker line `c`, as the last item of the last list.
proof fn lemma_placed_item(
    bs: Seq<BlockModel>,
    lines: Seq<Seq<char>>,
    c: int,
    item: Seq<char>,
    numbered: bool,
)
    requires
        blocks_placed(bs, lines, c),
        0 <= c < lines.len(),
        marker_text(lines[c], numbered) == Some(item),
    ensures
        blocks_placed(add_item(bs, item, numbered), lines, c + 1),
{
    assert(!continues_item(lines[c]));
    assert(lines.subrange(c + 1, c + 1) =~= Seq::<Seq<char>>::empty());
    assert(extend_with(item, lines.subrange(c + 1, c + 1)) == item);
    assert(item_span(item, lines, numbered, c, c));
    assert(placed(item, lines, numbered, c + 1, true));
    let n = bs.len();
    if n > 0 {
        assert(bs[n - 1] == bs.last());
        assert(block_placed(bs[n - 1], lines, c, true));
    }
    if numbered && n > 0 && bs.last() is NumberedList {
        let items = bs.last()->NumberedList_0;
        lemma_close_items(items, lines, true, c, true);
        let e = items.push(item);
        assert forall|j: int| 0 <= j < e.len() implies placed(
            #[trigger] e[j],
            lines,
            true,
            c + 1,
            j == e.len() - 1,
        ) by {
            if j < items.len() {
                assert(e[j] == items[j]);
            }
        }
        lemma_placed_update(bs, lines, c, BlockModel::NumberedList(e));
    } else if !numbered && n > 0 && bs.last() is BulletList {
        let items = bs.last()->BulletList_0;
        lemma_close_items(items, lines, false, c, true);
        let e = items.push(item);
        assert forall|j: int| 0 <= j < e.len() implies placed(
            #[trigger] e[j],
            lines,
            false,
            c + 1,
            j == e.len() - 1,
        ) by {
            if j < items.len() {
                assert(e[j] == items[j]);
            }
        }
        lemma_placed_update(bs, lines, c, BlockModel::BulletList(e));
    } else {
        let e = seq![item];
        assert forall|j: int| 0 <= j < e.len() implies placed(
            #[trigger] e[j],
            lines,
            numbered,
            c + 1,
            j == e.len() - 1,
        ) by {
            assert(e[j] == item);
        }
        let x = if numbered {
            BlockModel::NumberedList(e)
        } else {
            BlockModel::BulletList(e)
        };
        lemma_placed_push(bs, lines, c, x);
    }
}

/// A list of the given kind.
spec fn list_block(items: Seq<Seq<char>>, numbered: bool) -> BlockModel {
    if numbered {
        BlockModel::NumberedList(items)
    } else {
        BlockModel::BulletList(items)
    }
}

/// The items of a list whose last item, ending at line `c - 1`, is joined
/// by line `c`.
proof fn lemma_placed_extend_items(
    items: Seq<Seq<char>>,
    lines: Seq<Seq<char>>,
    c: int,
    numbered: bool,
    k: int,
)
    requires
        0 <= c < lines.len(),
        items.len() > 0,
        items_placed(items, lines, numbered, c, true),
        items_from(items, lines, numbered),
        item_span(items.last(), lines, numbered, k, c - 1),
        continues_item(lines[c]),
    ensures
        items_placed(extend_last(items, lines[c]), lines, numbered, c + 1, true),
{
    lemma_close_items_but_last(items, lines, numbered, c);
    lemma_extend_items(items, lines, numbered, k, c);
    let e = extend_last(items, lines[c]);
    assert(item_span(e.last(), lines, numbered, k, c));
    assert(placed(e.last(), lines, numbered, c + 1, true));
    assert forall|j: int| 0 <= j < e.len() implies placed(
        #[trigger] e[j],
        lines,
        numbered,
        c + 1,
        j == e.len() - 1,
    ) by {
        if j < items.len() - 1 {
            assert(e[j] == items[j]);
        }
    }
}

/// The last item of the last list, ending at line `c - 1`, joined by line
/// `c`.
proof fn lemma_placed_extend(
    bs: Seq<BlockModel>,
    lines: Seq<Seq<char>>,
    c: int,
    items: Seq<Seq<char>>,
    numbered: bool,
    k: int,
)
    requires
        blocks_placed(bs, lines, c),
        0 <= c < lines.len(),
        bs.len() > 0,
        items.len() > 0,
        bs.last() == list_block(items, numbered),
        items_from(items, lines, numbered),
        item_span(items.last(), lines, numbered, k, c - 1),
        continues_item(lines[c]),
    ensures
        blocks_placed(
            bs.update(bs.len() - 1, list_block(extend_last(items, lines[c]), numbered)),
            lines,
            c + 1,
        ),
{
    let n = bs.len();
    assert(bs[n - 1] == bs.last());
    assert(block_placed(bs[n - 1], lines, c, true));
    assert(items_placed(items, lines, numbered, c, true));
    lemma_placed_extend_items(items, lines, c, numbered, k);
    lemma_placed_update(bs, lines, c, list_block(extend_last(items, lines[c]), numbered));
}

/// A line with a lowercase letter is a heading only when it is the first
/// line with content or follows a blank line.
proof fn lemma_lowercase_not_heading(
    line: Seq<char>,
    is_first: bool,
    prev_empty: bool,
    next_empty: bool,
)
    requires
        line.len() > 0,
        unicode_lowercase(line[0]),
        heading_rule(line, is_first, prev_empty, next_empty),
    ensures
        is_first || prev_empty,
{
    assert(crate::line::has_lowercase(line)) by {
        assert(unicode_lowercase(line[0]));
    }
}

/// After the first `n` lines only the last item of the last list may still
/// grow, and every other item has taken in the lines that continue it.
proof fn lemma_run_placed(lines: Seq<Seq<char>>, n: nat)
    requires
        n <= lines.len(),
    ensures
        blocks_placed(parse_run(lines, n).blocks, lines, n as int),
    decreases n,
{
    if n > 0 {
        let c = n - 1;
        lemma_run_placed(lines, c as nat);
        lemma_run_spans(lines, c as nat);
        lemma_run_flags(lines, c as nat);
        let st = parse_run(lines, c as nat);
        let bs = st.blocks;
        let line = lines[c];
        let nb = bs.len();
        if nb > 0 {
            assert(bs[nb - 1] == bs.last());
            assert(block_from_markers(bs[nb - 1], lines));
        }
        if line.len() == 0 {
            if nb > 0 {
                lemma_placed_update(bs, lines, c, bs.last());
                lemma_close_block(bs.last(), lines, c, true);
                assert(bs.update(nb - 1, bs.last()) =~= bs);
            }
            assert forall|b: int| 0 <= b < bs.len() implies block_placed(
                #[trigger] bs[b],
                lines,
                n as int,
                b == bs.len() - 1,
            ) by {
                lemma_close_block(bs[b], lines, c, b == bs.len() - 1);
            }
        } else {
            match numbered_item(line) {
                Some(item) => {
                    lemma_placed_item(bs, lines, c, item, true);
                },
                None => match bullet_item(line) {
                    Some(item) => {
                        lemma_placed_item(bs, lines, c, item, false);
                    },
                    None => {
                        let ne = next_is_blank(lines, c);
                        if heading_rule(line, st.first_content, st.prev_empty, ne) {
                            if continues_item(line) {
                                lemma_lowercase_not_heading(
                                    line,
                                    st.first_content,
                                    st.prev_empty,
                                    ne,
                                );
                            }
                            lemma_placed_push(bs, lines, c, BlockModel::Heading(line));
                        } else {
                            let sl = starts_lowercase(line);
                            if sl && !st.prev_empty && nb > 0 && bs.last() is BulletList {
                                let items = bs.last()->BulletList_0;
                                let prev = c - 1;
                                let k = choose|k: int| item_span(items.last(), lines, false, k, prev);
                                lemma_placed_extend(bs, lines, c, items, false, k);
                            } else if sl && !st.prev_empty && nb > 0 && bs.last() is NumberedList {
                                let items = bs.last()->NumberedList_0;
                                let prev = c - 1;
                                let k = choose|k: int| item_span(items.last(), lines, true, k, prev);
                                lemma_placed_extend(bs, lines, c, items, true, k);
                            } else if nb > 0 && bs.last() is Paragraph && !st.prev_empty {
                                lemma_placed_update(
                                    bs,
                                    lines,
                                    c,
                                    BlockModel::Paragraph(join_space(bs.last()->Paragraph_0, line)),
                                );
                            } else {
                                lemma_placed_push(bs, lines, c, BlockModel::Paragraph(line));
                            }
                        }
                    },
                },
            }
        }
    }
}

/// Every list item takes in all the lines directly below its marker line
/// that can continue it: the line after the last of them, if there is one,
/// is blank, a numbered or bullet line, or does not start with a lowercase
/// letter. With `law_list_items_from_marker_lines`, this says that a line
/// starting with a lowercase letter directly below a list item, and not
/// itself a list line, always joins that item.
pub proof fn law_list_items_take_whole_runs(text: Seq<char>)
    ensures
        items_take_whole_runs(blocks_of(text), trimmed_lines(text)),
{
    let tl = trimmed_lines(text);
    let bs = blocks_of(text);
    lemma_run_placed(tl, tl.len());
    assert forall|b: int| 0 <= b < bs.len() implies match #[trigger] bs[b] {
        BlockModel::NumberedList(items) => forall|j: int|
            0 <= j < items.len() ==> from_whole_run(#[trigger] items[j], tl, true),
        BlockModel::BulletList(items) => forall|j: int|
            0 <= j < items.len() ==> from_whole_run(#[trigger] items[j], tl, false),
        _ => true,
    } by {
        assert(block_placed(bs[b], tl, tl.len() as int, b == bs.len() - 1));
        match bs[b] {
            BlockModel::NumberedList(items) => {
                assert forall|j: int| 0 <= j < items.len() implies from_whole_run(
                    #[trigger] items[j],
                    tl,
                    true,
                ) by {
                    assert(placed(items[j], tl, true, tl.len() as int, b == bs.len() - 1 && j
                        == items.len() - 1));
                }
            },
            BlockModel::BulletList(items) => {
                assert forall|j: int| 0 <= j < items.len() implies from_whole_run(
                    #[trigger] items[j],
                    tl,
                    false,
                ) by {
                    assert(placed(items[j], tl, false, tl.len() as int, b == bs.len() - 1 && j
                        == items.len() - 1));
                }
            },
            _ => {},
        }
    }
}

/// Every item of a numbered list is the item text of a numbered line, and
/// every item of a bullet list that of a bullet line (one that is not also
/// numbered), extended only by the lines directly below it, each joined
/// after a single space, each starting with a lowercase letter and being
/// neither a numbered nor a bullet line. A line that does not start with a
/// lowercase letter never joins a list item.
pub proof fn law_list_items_from_marker_lines(text: Seq<char>)
    ensures
        items_from_markers(blocks_of(text), trimmed_lines(text)),
{
    let tl = trimmed_lines(text);
    lemma_run_spans(tl, tl.len());
}

} // verus!
