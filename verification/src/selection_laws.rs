//! What a selection with recognised text leads to: the clipboard content for
//! the requested format, and a notification that starts like the text.
use vstd::prelude::*;
use crate::render::{html_of, markdown_of};
use crate::selection::{content_of, outcome_of, preview_of, ClipboardModel, OutcomeModel, PREVIEW_CHARS};

verus! {

/// Text is copied exactly when some was recognised, and what is copied is
/// the clipboard content for that text and format: Markdown for
/// `"markdown"`; for `"html"` the HTML document of the text with the text
/// itself as the plain alternative; the text itself for any other format.
/// The notification shows the preview of the text.
pub proof fn law_outcome_copies_clipboard_content(text: Seq<char>, format: Seq<char>)
    ensures
        text.len() == 0 <==> outcome_of(text, format) is NoText,
        text.len() > 0 ==> outcome_of(text, format) == (OutcomeModel::Copy {
            content: content_of(text, format),
            preview: preview_of(text),
        }),
        format == "markdown"@ ==> content_of(text, format) == ClipboardModel::Text(
            markdown_of(text),
        ),
        format == "html"@ ==> content_of(text, format) == (ClipboardModel::Html {
            html: html_of(text),
            alt_text: text,
        }),
        format != "markdown"@ && format != "html"@ ==> content_of(text, format)
            == ClipboardModel::Text(text),
{
    reveal_strlit("html");
    reveal_strlit("markdown");
    assert("html"@ != "markdown"@) by {
        assert("html"@.len() != "markdown"@.len());
    }
}

/// A text of at most 80 characters is its own preview. A longer one is
/// shown as its first 80 characters, in order, followed by an ellipsis
/// (U+2026): the preview without its last character is the start of the
/// text.
pub proof fn law_preview_is_start_of_text(text: Seq<char>)
    ensures
        text.len() <= PREVIEW_CHARS ==> preview_of(text) == text,
        text.len() > PREVIEW_CHARS ==> {
            &&& preview_of(text).len() == PREVIEW_CHARS + 1
            &&& preview_of(text).last() == '\u{2026}'
            &&& forall|j: int| 0 <= j < PREVIEW_CHARS ==> #[trigger] preview_of(text)[j] == text[j]
        },
{
}

} // verus!
