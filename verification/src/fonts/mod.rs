//! Fonts that text in a document is set in.
pub mod font;
pub mod otf;
