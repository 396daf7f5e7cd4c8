//! A dynamically typed JSON value with a compact writer, a pretty-printer,
//! a whitespace normalizer and a recursive-descent reader.
mod chars;
pub mod model;
pub mod number;
pub mod value;
pub mod serialize;
pub mod whitespace;
pub mod pretty;
pub mod parse;
pub mod round_trip;

pub use model::Json;
pub use value::JsonValue;
pub use parse::ParseError;
