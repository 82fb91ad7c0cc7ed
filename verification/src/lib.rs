//! Turns plain text recognised from a screen capture into Markdown or HTML.
pub mod blocks;
pub mod chars;
pub mod content_laws;
pub mod html_laws;
pub mod laws;
pub mod line;
pub mod list_laws;
pub mod markdown_laws;
pub mod numeral_laws;
pub mod render;
pub mod selection;
pub mod selection_laws;
