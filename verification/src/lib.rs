pub mod big_endian;
pub mod decimal;
pub mod document;
pub mod fonts;
pub mod idseq;
pub mod layout;
pub mod otf;
pub mod serde_pdf;
pub mod unicode;
pub mod writer;
