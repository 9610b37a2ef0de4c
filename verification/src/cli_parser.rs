//! A tokenizer for command-line arguments in the usual short and long option
//! syntax.
//!
//! [`Parser`] holds the raw arguments and a catalog of [`Flag`] definitions,
//! and [`Parser::tokenize`] turns them into [`Token`]s or the first
//! [`ParseError`]. What that result is, for every input, is written down in
//! [`syntax`]; what follows from it is proved in [`laws`].

pub mod catalog;
pub mod cursor;
pub mod laws;
pub mod parser;
pub mod syntax;
pub mod text;
pub mod token;

pub use catalog::{catalog_is_valid, find_option, Flag};
pub use cursor::ArgCursor;
pub use parser::{parse_long_opt, parse_opt, Parser};
pub use token::{ParseError, Token};
