//! What happens to the text recognised in a selected region: which content
//! goes on the clipboard, what the notification says, and how the raw text
//! of the recognition engines is tidied.
use vstd::prelude::*;
use crate::chars::{chars_of, string_of, string_of_range, trim, trim_bounds};
use crate::render::{html_of, markdown_of, to_html, to_markdown};

verus! {

// ---------------------------------------------------------------------------
// Clipboard content and notification
// ---------------------------------------------------------------------------

/// What goes on the clipboard.
#[derive(Debug, PartialEq, Eq)]
pub enum ClipboardContent {
    /// Plain text.
    Text(String),
    /// An HTML document, with plain text for applications that do not take
    /// HTML.
    Html { html: String, alt_text: String },
}

/// The value of a `ClipboardContent`.
pub enum ClipboardModel {
    Text(Seq<char>),
    Html { html: Seq<char>, alt_text: Seq<char> },
}

impl View for ClipboardContent {
    type V = ClipboardModel;

    open spec fn view(&self) -> ClipboardModel {
        match self {
            ClipboardContent::Text(t) => ClipboardModel::Text(t@),
            ClipboardContent::Html { html, alt_text } => ClipboardModel::Html {
                html: html@,
                alt_text: alt_text@,
            },
        }
    }
}

/// What to do once text has been recognised in a selection.
#[derive(Debug, PartialEq, Eq)]
pub enum SelectionOutcome {
    /// Nothing was recognised: tell the user, copy nothing.
    NoText,
    /// Put `content` on the clipboard and show `preview`.
    Copy { content: ClipboardContent, preview: String },
}

/// The value of a `SelectionOutcome`.
pub enum OutcomeModel {
    NoText,
    Copy { content: ClipboardModel, preview: Seq<char> },
}

impl View for SelectionOutcome {
    type V = OutcomeModel;

    open spec fn view(&self) -> OutcomeModel {
        match self {
            SelectionOutcome::NoText => OutcomeModel::NoText,
            SelectionOutcome::Copy { content, preview } => OutcomeModel::Copy {
                content: content@,
                preview: preview@,
            },
        }
    }
}

/// The longest preview, in characters, before it is cut.
pub const PREVIEW_CHARS: usize = 80;

/// The notification text for `text`: its first 80 characters, followed by
/// an ellipsis (U+2026) when there are more.
pub open spec fn preview_of(text: Seq<char>) -> Seq<char> {
    if text.len() > PREVIEW_CHARS {
        text.take(PREVIEW_CHARS as int).push('\u{2026}')
    } else {
        text
    }
}

/// The clipboard content for `text` in the requested format: Markdown for
/// `"markdown"`, HTML with the text itself as the alternative for `"html"`,
/// the text itself for anything else.
pub open spec fn content_of(text: Seq<char>, format: Seq<char>) -> ClipboardModel {
    if format == "markdown"@ {
        ClipboardModel::Text(markdown_of(text))
    } else if format == "html"@ {
        ClipboardModel::Html { html: html_of(text), alt_text: text }
    } else {
        ClipboardModel::Text(text)
    }
}

/// What to do with the recognised `text`: nothing to copy when it is empty,
/// else copy `content_of(text, format)` and show `preview_of(text)`.
pub open spec fn outcome_of(text: Seq<char>, format: Seq<char>) -> OutcomeModel {
    if text.len() == 0 {
        OutcomeModel::NoText
    } else {
        OutcomeModel::Copy { content: content_of(text, format), preview: preview_of(text) }
    }
}

/// Whether `s` and `t` hold the same characters.
pub fn same_text(s: &str, t: &str) -> (r: bool)
    ensures
        r == (s@ == t@),
{
    let a = chars_of(s);
    let b = chars_of(t);
    if a.len() != b.len() {
        return false;
    }
    let mut i: usize = 0;
    while i < a.len()
        invariant
            i <= a@.len() == b@.len(),
            a@ == s@,
            b@ == t@,
            forall|j: int| 0 <= j < i ==> a@[j] == b@[j],
        decreases a@.len() - i,
    {
        if a[i] != b[i] {
            return false;
        }
        i = i + 1;
    }
    assert(a@ =~= b@);
    true
}

/// The notification text for `text` (see `preview_of`).
pub fn notification_preview(text: &str) -> (r: String)
    ensures
        r@ == preview_of(text@),
{
    let t = chars_of(text);
    if t.len() > PREVIEW_CHARS {
        let mut v: Vec<char> = Vec::new();
        let mut i: usize = 0;
        while i < PREVIEW_CHARS
            invariant
                i <= PREVIEW_CHARS < t@.len(),
                v@ == t@.take(i as int),
            decreases PREVIEW_CHARS - i,
        {
            v.push(t[i]);
            i = i + 1;
            assert(v@ =~= t@.take(i as int));
        }
        v.push('\u{2026}');
        string_of(v.as_slice())
    } else {
        string_of(t.as_slice())
    }
}

/// The clipboard content for `text` in the requested format (see
/// `content_of`).
pub fn clipboard_content(text: &str, format: &str) -> (r: ClipboardContent)
    ensures
        r@ == content_of(text@, format@),
{
    if same_text(format, "markdown") {
        ClipboardContent::Text(to_markdown(text))
    } else if same_text(format, "html") {
        let alt = string_of(chars_of(text).as_slice());
        ClipboardContent::Html { html: to_html(text), alt_text: alt }
    } else {
        ClipboardContent::Text(string_of(chars_of(text).as_slice()))
    }
}

/// What to do with the recognised `text` (see `outcome_of`).
pub fn selection_outcome(text: &str, format: &str) -> (r: SelectionOutcome)
    ensures
        r@ == outcome_of(text@, format@),
{
    if text.is_empty() {
        SelectionOutcome::NoText
    } else {
        let content = clipboard_content(text, format);
        let preview = notification_preview(text);
        SelectionOutcome::Copy { content, preview }
    }
}

// ---------------------------------------------------------------------------
// Raw text of the recognition engines
// ---------------------------------------------------------------------------

/// `s` without any form feed (U+000C).
pub open spec fn without_form_feeds(s: Seq<char>) -> Seq<char>
    decreases s.len(),
{
    if s.len() == 0 {
        Seq::empty()
    } else if s.last() == '\u{c}' {
        without_form_feeds(s.drop_last())
    } else {
        without_form_feeds(s.drop_last()).push(s.last())
    }
}

/// Text from Tesseract, trimmed and with its form feeds removed.
pub fn clean_tesseract_text(raw: &str) -> (r: String)
    ensures
        r@ == without_form_feeds(trim(raw@)),
{
    let t = chars_of(raw);
    let (lo, hi) = trim_bounds(t.as_slice());
    let ghost tr = t@.subrange(lo as int, hi as int);
    let mut v: Vec<char> = Vec::new();
    let mut i: usize = lo;
    assert(tr.take(0) =~= Seq::<char>::empty());
    while i < hi
        invariant
            lo <= i <= hi <= t@.len(),
            tr == t@.subrange(lo as int, hi as int),
            v@ == without_form_feeds(tr.take(i - lo)),
        decreases hi - i,
    {
        let c = t[i];
        assert(tr.take(i - lo + 1).drop_last() =~= tr.take(i - lo));
        assert(tr.take(i - lo + 1).last() == c);
        if c != '\u{c}' {
            v.push(c);
        }
        i = i + 1;
    }
    assert(tr.take(hi - lo) =~= tr);
    string_of(v.as_slice())
}

/// Text from the Vision framework, trimmed.
pub fn clean_vision_text(raw: &str) -> (r: String)
    ensures
        r@ == trim(raw@),
{
    let t = chars_of(raw);
    let (lo, hi) = trim_bounds(t.as_slice());
    string_of_range(t.as_slice(), lo, hi)
}

/// How much Tesseract's input is enlarged: three times when its smaller
/// side is under 200 pixels, twice when under 400, else not at all.
pub open spec fn upscale_of(width: u32, height: u32) -> u32 {
    let m = if width < height { width } else { height };
    if m < 200 {
        3
    } else if m < 400 {
        2
    } else {
        1
    }
}

/// The enlargement factor for an image of `width` by `height` pixels (see
/// `upscale_of`).
pub fn upscale_factor(width: u32, height: u32) -> (s: u32)
    ensures
        s == upscale_of(width, height),
{
    let m = if width < height { width } else { height };
    if m < 200 {
        3
    } else if m < 400 {
        2
    } else {
        1
    }
}

} // verus!
