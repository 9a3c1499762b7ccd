//! Reading, subsetting and writing of OpenType (TrueType outline) fonts.
pub mod check_sum;
pub mod error;
pub mod font;
pub mod round_trip;
pub mod search_range;
pub mod tables;
pub mod utils;
pub mod writer;
