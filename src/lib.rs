//! A text notation for dynamically typed values: a parser from text to values with
//! positioned errors, and a formatter that writes the canonical text of a value.

pub mod chars;
pub mod error;
pub mod format;
pub mod grammar;
pub mod laws;
pub mod parse;
pub mod value;

pub use error::{
    ParseBitSequenceError, ParseCharError, ParseComplexError, ParseError, ParseErrorKind,
    ParseNumberError, ParseStringError,
};
pub use format::{fmt_bitsequence, fmt_char, fmt_string, is_ident, UnsupportedPrimitiveError};
pub use parse::from_str;
pub use value::{Composite, Primitive, Value, ValueDef, Variant};
