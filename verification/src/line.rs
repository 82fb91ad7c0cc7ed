//! Classification of a single trimmed line: numbered item, bullet item,
//! heading.
use vstd::prelude::*;
use crate::chars::{
    copy_range, is_ascii_digit, is_alphabetic, is_lowercase, trim_start, trim_start_from,
    unicode_alphabetic, unicode_lowercase, utf8_len, utf8_len_exceeds,
};

verus! {

// ---------------------------------------------------------------------------
// Numbered items: "12. text" or "3) text"
// ---------------------------------------------------------------------------

/// The number of ASCII digits that `s` starts with.
pub open spec fn leading_digits(s: Seq<char>) -> nat
    decreases s.len(),
{
    if s.len() > 0 && is_ascii_digit(s[0]) {
        1 + leading_digits(s.drop_first())
    } else {
        0
    }
}

/// The item text of a numbered line: one or more ASCII digits, then `.` or
/// `)`, then text that is not blank once its leading white space is removed.
pub open spec fn numbered_item(line: Seq<char>) -> Option<Seq<char>> {
    let i = leading_digits(line) as int;
    if i == 0 || i >= line.len() {
        None
    } else if line[i] == '.' || line[i] == ')' {
        let rest = trim_start(line.skip(i + 1));
        if rest.len() > 0 {
            Some(rest)
        } else {
            None
        }
    } else {
        None
    }
}

/// A run of `k` digits followed by a non-digit (or the end) is the digit
/// prefix.
pub proof fn lemma_leading_digits_at(s: Seq<char>, k: int)
    requires
        0 <= k <= s.len(),
        forall|j: int| 0 <= j < k ==> is_ascii_digit(#[trigger] s[j]),
        k == s.len() || !is_ascii_digit(s[k]),
    ensures
        leading_digits(s) == k,
    decreases k,
{
    if k > 0 {
        let t = s.drop_first();
        assert forall|j: int| 0 <= j < k - 1 implies is_ascii_digit(#[trigger] t[j]) by {
            assert(t[j] == s[j + 1]);
        }
        if k - 1 < t.len() {
            assert(t[k - 1] == s[k]);
        }
        lemma_leading_digits_at(t, k - 1);
    }
}

/// The item of a numbered line (see `numbered_item`), if `line` is one.
pub fn parse_numbered(line: &[char]) -> (r: Option<Vec<char>>)
    ensures
        r matches Some(v) ==> numbered_item(line@) == Some(v@),
        r is None ==> numbered_item(line@) is None,
{
    let len = line.len();
    let mut i: usize = 0;
    while i < len && '0' <= line[i] && line[i] <= '9'
        invariant
            i <= len == line@.len(),
            forall|j: int| 0 <= j < i ==> is_ascii_digit(#[trigger] line@[j]),
        decreases len - i,
    {
        i = i + 1;
    }
    proof {
        lemma_leading_digits_at(line@, i as int);
    }
    if i == 0 || i >= len {
        return None;
    }
    if line[i] == '.' || line[i] == ')' {
        let lo = trim_start_from(line, i + 1);
        if lo < len {
            let v = copy_range(line, lo, len);
            assert(v@ =~= line@.skip(lo as int));
            return Some(v);
        }
    }
    None
}

// ---------------------------------------------------------------------------
// Bullet items: "• text", "- text", "* text", ...
// ---------------------------------------------------------------------------

/// The bullet characters that start an item without needing a space:
/// U+2022, U+00B7, U+2023, U+25E6, U+25AA, U+25B8, U+2013, U+2014.
pub open spec fn is_bullet_char(c: char) -> bool {
    ||| c == '\u{2022}'
    ||| c == '\u{b7}'
    ||| c == '\u{2023}'
    ||| c == '\u{25e6}'
    ||| c == '\u{25aa}'
    ||| c == '\u{25b8}'
    ||| c == '\u{2013}'
    ||| c == '\u{2014}'
}

/// The item text of a bullet line: a bullet character followed by text that
/// is not blank, or `-` or `*` followed by a space and text that is not blank.
pub open spec fn bullet_item(line: Seq<char>) -> Option<Seq<char>> {
    if line.len() == 0 {
        None
    } else if is_bullet_char(line[0]) && trim_start(line.drop_first()).len() > 0 {
        Some(trim_start(line.drop_first()))
    } else if (line[0] == '-' || line[0] == '*') && line.len() > 1 && line[1] == ' '
        && trim_start(line.skip(2)).len() > 0 {
        Some(trim_start(line.skip(2)))
    } else {
        None
    }
}

/// The item of a bullet line (see `bullet_item`), if `line` is one.
pub fn parse_bullet(line: &[char]) -> (r: Option<Vec<char>>)
    ensures
        r matches Some(v) ==> bullet_item(line@) == Some(v@),
        r is None ==> bullet_item(line@) is None,
{
    let len = line.len();
    if len == 0 {
        return None;
    }
    let first = line[0];
    let lo = trim_start_from(line, 1);
    assert(line@.skip(1) =~= line@.drop_first());
    let bullet = first == '\u{2022}' || first == '\u{b7}' || first == '\u{2023}' || first
        == '\u{25e6}' || first == '\u{25aa}' || first == '\u{25b8}' || first == '\u{2013}'
        || first == '\u{2014}';
    if bullet && lo < len {
        let v = copy_range(line, lo, len);
        assert(v@ =~= line@.skip(lo as int));
        return Some(v);
    }
    if (first == '-' || first == '*') && len > 1 && line[1] == ' ' {
        let lo2 = trim_start_from(line, 2);
        if lo2 < len {
            let v = copy_range(line, lo2, len);
            assert(v@ =~= line@.skip(lo2 as int));
            return Some(v);
        }
    }
    None
}

// ---------------------------------------------------------------------------
// Headings
// ---------------------------------------------------------------------------

/// Some character of `s` is lowercase.
pub open spec fn has_lowercase(s: Seq<char>) -> bool {
    exists|j: int| 0 <= j < s.len() && unicode_lowercase(#[trigger] s[j])
}

/// Some character of `s` is alphabetic.
pub open spec fn has_alphabetic(s: Seq<char>) -> bool {
    exists|j: int| 0 <= j < s.len() && unicode_alphabetic(#[trigger] s[j])
}

/// Whether a trimmed, non-blank line reads as a heading, given whether it
/// has a lowercase letter and whether it has a letter at all. A line longer
/// than 80 bytes, or one that ends with `,` or `;`, never does. Otherwise it
/// does when it is the first line with content, when it stands alone between
/// blank lines and is at most 60 bytes long, or when it is at most 60 bytes
/// long, has letters and none of them is lowercase.
pub open spec fn heading_rule_with(
    line: Seq<char>,
    is_first: bool,
    prev_empty: bool,
    next_empty: bool,
    has_lower: bool,
    has_alpha: bool,
) -> bool {
    if utf8_len(line) > 80 || (line.len() > 0 && (line.last() == ',' || line.last() == ';')) {
        false
    } else if is_first {
        true
    } else if prev_empty && next_empty && utf8_len(line) <= 60 {
        true
    } else {
        !has_lower && has_alpha && utf8_len(line) <= 60
    }
}

/// `heading_rule_with`, the letters judged by Unicode's `Lowercase` and
/// `Alphabetic` properties.
pub open spec fn heading_rule(line: Seq<char>, is_first: bool, prev_empty: bool, next_empty: bool) -> bool {
    heading_rule_with(
        line,
        is_first,
        prev_empty,
        next_empty,
        has_lowercase(line),
        has_alphabetic(line),
    )
}

/// Decides `heading_rule_with`.
pub fn heading_decision(
    line: &[char],
    is_first: bool,
    prev_empty: bool,
    next_empty: bool,
    has_lower: bool,
    has_alpha: bool,
) -> (r: bool)
    ensures
        r == heading_rule_with(line@, is_first, prev_empty, next_empty, has_lower, has_alpha),
{
    let len = line.len();
    if utf8_len_exceeds(line, 80) || (len > 0 && (line[len - 1] == ',' || line[len - 1] == ';')) {
        return false;
    }
    if is_first {
        return true;
    }
    let short = !utf8_len_exceeds(line, 60);
    if prev_empty && next_empty && short {
        return true;
    }
    !has_lower && has_alpha && short
}

/// Decides `heading_rule`.
pub fn is_heading(line: &[char], is_first: bool, prev_empty: bool, next_empty: bool) -> (r: bool)
    ensures
        r == heading_rule(line@, is_first, prev_empty, next_empty),
{
    let len = line.len();
    let mut has_lower = false;
    let mut has_alpha = false;
    let mut i: usize = 0;
    while i < len
        invariant
            i <= len == line@.len(),
            has_lower == exists|j: int| 0 <= j < i && unicode_lowercase(#[trigger] line@[j]),
            has_alpha == exists|j: int| 0 <= j < i && unicode_alphabetic(#[trigger] line@[j]),
        decreases len - i,
    {
        let c = line[i];
        if is_lowercase(c) {
            has_lower = true;
        }
        if is_alphabetic(c) {
            has_alpha = true;
        }
        i = i + 1;
    }
    heading_decision(line, is_first, prev_empty, next_empty, has_lower, has_alpha)
}

} // verus!
