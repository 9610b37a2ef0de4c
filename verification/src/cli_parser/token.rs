//! What the tokenizer hands back: tokens, or the reason it stopped.

use crate::cli_parser::syntax::{ErrorView, TokenView};
use vstd::prelude::*;

verus! {

/// One unit of output: the symbolic name of a flag with the value it took, if
/// it takes one, or a positional argument under the name `arg` with its raw
/// text as the value.
#[derive(Debug, PartialEq, Eq)]
pub struct Token {
    pub name: &'static str,
    pub value: Option<String>,
}

impl View for Token {
    type V = TokenView;

    open spec fn view(&self) -> TokenView {
        TokenView {
            name: self.name@,
            value: match self.value {
                Some(text) => Some(text@),
                None => None,
            },
        }
    }
}

impl DeepView for Token {
    type V = TokenView;

    open spec fn deep_view(&self) -> TokenView {
        self@
    }
}

/// Why a list of arguments could not be tokenized.
#[derive(Debug, PartialEq, Eq)]
pub enum ParseError {
    /// A short character or a long word that the catalog does not hold.
    UnknownFlag(String),
    /// The flag of this name takes a value, and the arguments ended before it.
    MissingValue(String),
    /// A `key=value` long option with an empty key or value, or one whose flag
    /// takes no value. Carries the option text after `--`.
    BadSyntax(String),
}

impl View for ParseError {
    type V = ErrorView;

    open spec fn view(&self) -> ErrorView {
        match self {
            ParseError::UnknownFlag(text) => ErrorView::UnknownFlag(text@),
            ParseError::MissingValue(name) => ErrorView::MissingValue(name@),
            ParseError::BadSyntax(text) => ErrorView::BadSyntax(text@),
        }
    }
}

impl DeepView for ParseError {
    type V = ErrorView;

    open spec fn deep_view(&self) -> ErrorView {
        self@
    }
}

impl ErrorView {
    /// The words that introduce the subject of the message.
    pub open spec fn lead(self) -> Seq<char> {
        match self {
            ErrorView::UnknownFlag(_) => "flag unknown \""@,
            ErrorView::MissingValue(_) => "missing value for flag \""@,
            ErrorView::BadSyntax(_) => "bad syntax for flag \""@,
        }
    }

    /// What the error is about: the key, the flag's name or the option text.
    pub open spec fn subject(self) -> Seq<char> {
        match self {
            ErrorView::UnknownFlag(text) => text,
            ErrorView::MissingValue(name) => name,
            ErrorView::BadSyntax(text) => text,
        }
    }

    /// The diagnostic: the lead, then the subject between double quotes.
    pub open spec fn message(self) -> Seq<char> {
        self.lead() + self.subject() + "\""@
    }
}

impl ParseError {
    /// The diagnostic for this error, ready to print.
    pub fn message(&self) -> (text: String)
        ensures
            text@ == self@.message(),
    {
        let text = match self {
            ParseError::UnknownFlag(key) => String::from_str("flag unknown \"").concat(
                key.as_str(),
            ),
            ParseError::MissingValue(name) => String::from_str("missing value for flag \"").concat(
                name.as_str(),
            ),
            ParseError::BadSyntax(option) => String::from_str("bad syntax for flag \"").concat(
                option.as_str(),
            ),
        };
        text.concat("\"")
    }
}

} // verus!
