//! A PDF object syntax reader and writer: numbers, booleans, null, strings, names, arrays,
//! dictionaries, streams, indirect objects and references.
pub mod checked;
pub mod datetime;
pub mod de;
pub mod error;
pub mod object;
pub mod round_trip;
pub mod ser;
pub mod stream;
pub mod string;

pub use checked::{CheckedAdd, CheckedMul};
pub use de::{from_str, Deserializer};
pub use error::Error;
pub use object::{Object, ObjectId, Reference};
pub use ser::Serializer;
pub use stream::Stream;
pub use string::{PdfStr, PdfString};
