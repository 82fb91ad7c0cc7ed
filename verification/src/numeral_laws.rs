//! The numbers in front of the lines of a numbered list in Markdown.
use vstd::prelude::*;
use crate::chars::{decimal, digit_char, is_ascii_digit};
use crate::render::numbered_md;

verus! {

/// The number that a string of ASCII digits stands for, read with its most
/// significant digit first.
pub open spec fn digits_value(s: Seq<char>) -> int
    decreases s.len(),
{
    if s.len() == 0 {
        0
    } else {
        digits_value(s.drop_last()) * 10 + (s.last() as int - '0' as int)
    }
}

/// An ordinary decimal numeral: one or more ASCII digits, with no leading
/// zero unless it is the single digit `0`.
pub open spec fn is_numeral(s: Seq<char>) -> bool {
    &&& s.len() > 0
    &&& forall|j: int| 0 <= j < s.len() ==> is_ascii_digit(#[trigger] s[j])
    &&& (s.len() > 1 ==> s[0] != '0')
}

proof fn lemma_digit_char(d: nat)
    requires
        d < 10,
    ensures
        digit_char(d) as int == '0' as int + d,
        is_ascii_digit(digit_char(d)),
{
}

/// `decimal(n)` is the ordinary numeral of `n`.
proof fn lemma_decimal_numeral(n: nat)
    ensures
        is_numeral(decimal(n)),
        digits_value(decimal(n)) == n,
        n > 0 ==> decimal(n)[0] != '0',
    decreases n,
{
    if n < 10 {
        lemma_digit_char(n);
        let s = decimal(n);
        assert(s.drop_last() =~= Seq::<char>::empty());
        assert(s.last() == digit_char(n));
        assert(digits_value(s.drop_last()) == 0);
        assert(digits_value(s) == digits_value(s.drop_last()) * 10 + (s.last() as int - '0' as int));
    } else {
        let q = n / 10;
        let r = n % 10;
        lemma_decimal_numeral(q);
        lemma_digit_char(r);
        let p = decimal(q);
        let s = decimal(n);
        assert(s == p.push(digit_char(r)));
        assert(s.drop_last() =~= p);
        assert(s.last() == digit_char(r));
        assert(q * 10 + r == n) by (nonlinear_arith)
            requires
                q == n / 10,
                r == n % 10,
        ;
        assert(digits_value(s) == digits_value(p) * 10 + (digit_char(r) as int - '0' as int));
        assert(s[0] == p[0]);
        assert forall|j: int| 0 <= j < s.len() implies is_ascii_digit(#[trigger] s[j]) by {
            if j < p.len() {
                assert(s[j] == p[j]);
            }
        }
    }
}

/// `line` is the ordinary decimal numeral of `k`, then `. `, then `item`.
pub open spec fn numbered_line(line: Seq<char>, k: int, item: Seq<char>) -> bool {
    exists|d: Seq<char>|
        #![trigger is_numeral(d)]
        {
            &&& is_numeral(d)
            &&& digits_value(d) == k
            &&& line == d + ". "@ + item
        }
}

/// The line for the `k`-th item of a numbered list (counting from one)
/// starts with the ordinary decimal numeral of `k`, most significant digit
/// first (reading it back gives `k`), followed by `. ` and the item itself.
pub proof fn law_numbered_lines_count_up(items: Seq<Seq<char>>)
    ensures
        numbered_md(items).len() == items.len(),
        forall|i: int|
            0 <= i < items.len() ==> numbered_line(#[trigger] numbered_md(items)[i], i + 1, items[i]),
{
    assert forall|i: int| 0 <= i < items.len() implies numbered_line(
        #[trigger] numbered_md(items)[i],
        i + 1,
        items[i],
    ) by {
        let d = decimal((i + 1) as nat);
        lemma_decimal_numeral((i + 1) as nat);
        assert(numbered_md(items)[i] == d + ". "@ + items[i]);
        assert(is_numeral(d));
    }
}

} // verus!
