//! Readers for documents and style sheets.

pub mod parser;
pub mod html_parser;
pub mod css_parser;
