use text_extractor::render::{to_html, to_markdown};
use text_extractor::selection::{
    clean_tesseract_text, clean_vision_text, clipboard_content, notification_preview,
    selection_outcome, upscale_factor, ClipboardContent, SelectionOutcome,
};

#[test]
fn empty_text_copies_nothing() {
    assert_eq!(selection_outcome("", "markdown"), SelectionOutcome::NoText);
    assert_eq!(selection_outcome("", "text"), SelectionOutcome::NoText);
}

#[test]
fn markdown_format_copies_markdown() {
    let text = "Title\n1. one";
    assert_eq!(
        selection_outcome(text, "markdown"),
        SelectionOutcome::Copy {
            content: ClipboardContent::Text("# Title\n\n1. one".to_string()),
            preview: text.to_string(),
        }
    );
    assert_eq!(
        clipboard_content(text, "markdown"),
        ClipboardContent::Text(to_markdown(text))
    );
}

#[test]
fn html_format_copies_html_with_plain_alternative() {
    let text = "A & B";
    assert_eq!(
        clipboard_content(text, "html"),
        ClipboardContent::Html {
            html: "<html><body><h1>A &amp; B</h1></body></html>".to_string(),
            alt_text: text.to_string(),
        }
    );
    assert_eq!(
        clipboard_content(text, "html"),
        ClipboardContent::Html { html: to_html(text), alt_text: text.to_string() }
    );
}

#[test]
fn other_formats_copy_the_text() {
    let text = "  raw  text ";
    assert_eq!(
        clipboard_content(text, "text"),
        ClipboardContent::Text(text.to_string())
    );
    assert_eq!(
        clipboard_content(text, "Markdown"),
        ClipboardContent::Text(text.to_string())
    );
    assert_eq!(
        clipboard_content(text, "htm"),
        ClipboardContent::Text(text.to_string())
    );
}

#[test]
fn preview_is_cut_after_eighty_characters() {
    let short: String = std::iter::repeat('x').take(80).collect();
    assert_eq!(notification_preview(&short), short);
    let long: String = std::iter::repeat('\u{e9}').take(81).collect();
    let expected: String = std::iter::repeat('\u{e9}').take(80).chain(std::iter::once('\u{2026}')).collect();
    assert_eq!(notification_preview(&long), expected);
    assert_eq!(notification_preview(""), "");
}

#[test]
fn tesseract_text_is_trimmed_and_loses_form_feeds() {
    assert_eq!(clean_tesseract_text("  hello\u{c}world \u{c}\n"), "helloworld");
    assert_eq!(clean_tesseract_text("a \u{c}b\n\n"), "a b");
    assert_eq!(clean_tesseract_text("\u{c}"), "");
}

#[test]
fn vision_text_is_trimmed() {
    assert_eq!(clean_vision_text("  x y \n"), "x y");
    assert_eq!(clean_vision_text("\u{2003}z\u{205f}"), "z");
}

#[test]
fn small_images_are_enlarged() {
    assert_eq!(upscale_factor(150, 1000), 3);
    assert_eq!(upscale_factor(1000, 199), 3);
    assert_eq!(upscale_factor(200, 500), 2);
    assert_eq!(upscale_factor(300, 399), 2);
    assert_eq!(upscale_factor(400, 400), 1);
    assert_eq!(upscale_factor(4000, 3000), 1);
}
