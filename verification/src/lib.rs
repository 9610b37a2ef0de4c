//! Command-line arguments, tokenized: raw arguments in, option tokens and
//! positional arguments out, with the rules of the syntax stated and proved.

pub mod cli_parser;
