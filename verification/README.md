# text_extractor

Turns text recognised from a screen region into Markdown or HTML, and
decides what a tray utility copies to the clipboard and shows in its
notification. The library is verified with Verus.

- `src/chars.rs`: Unicode white space and trimming, UTF-8 lengths, decimal
  numerals, conversions between strings and character vectors.
- `src/line.rs`: one trimmed line: numbered item, bullet item, heading.
- `src/blocks.rs`: the parser, a state machine over trimmed lines that
  yields headings, paragraphs and lists.
- `src/render.rs`: HTML escaping, Markdown and HTML rendering.
- `src/selection.rs`: clipboard content, notification preview, tidying of
  the recognition engines' text, enlargement factor for small images.
- `src/laws.rs`: the shape of the blocks, blank text, the first line as title.
- `src/content_laws.rs`: every non-blank line is kept in order; one list item
  per list line.
- `src/markdown_laws.rs`: the shape of the Markdown lines; text with content
  gives output.
- `src/html_laws.rs`: escaping is undone by the usual replacements; the HTML
  holds markup only in its own tags.
- `app/`: the Tauri application (hotkey, capture, overlay, OCR engines,
  clipboard, notifications) around the library.
