//! Helpers for reading and writing.
pub mod align_write;
pub mod limit_read;
