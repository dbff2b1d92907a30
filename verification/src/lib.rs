//! Parser for PHP literal expressions.
//!
//! The crate turns the text of a PHP literal (booleans, integers, floats,
//! single- or double-quoted strings, `null`, and nested `array(...)` / `[...]`
//! literals) into a dynamic [`Value`] tree, or feeds it token by token to a
//! typed consumer through the pull-based [`Deserializer`] interface.
//!
//! Every step is specified and verified: the lexer, the literal decoders
//! (integer radix parsing, string unescaping), the recursive-descent parser
//! with PHP's array-key coercion rule, and the token walker.

mod chars;
mod error;
mod laws;
mod literal;
mod lexer;
mod num;
mod parser;
mod string;
mod value;
mod walker;

pub use error::ArrayKeyError;
pub use error::ArrayKeyErrorKind;
pub use error::ParseError;
pub use error::PrimitiveError;
pub use error::PrimitiveErrorKind;
pub use error::Span;
pub use error::SpecParseError;
pub use error::SpecSpan;
pub use error::TokenList;
pub use error::TrailingError;
pub use error::UnexpectedTokenError;
pub use lexer::SpannedToken;
pub use lexer::Token;
pub use lexer::TokenStream;
pub use num::i64_to_dec_string;
pub use num::int_key_value;
pub use num::is_array_key_numeric;
pub use num::parse_int;
pub use num::ParseIntError;
pub use parser::from_str;
pub use parser::parse;
pub use parser::ArraySyntax;
pub use parser::Parser;
pub use string::parse_string;
pub use string::unescape_double;
pub use string::unescape_single;
pub use string::UnescapeError;
pub use value::Key;
pub use value::SpecKey;
pub use value::SpecValue;
pub use value::Value;
pub use walker::ArrayWalker;
pub use walker::Deserializer;
pub use walker::MapKeyStep;
