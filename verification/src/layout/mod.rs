//! Laying out text: paragraphs of styled text, split where lines may break.
pub mod paragraph;
pub mod style;
