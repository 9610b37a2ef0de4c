//! The tokenizer: one pass over the arguments, element by element.

use crate::cli_parser::catalog::{catalog_is_valid, find_option, Flag};
use crate::cli_parser::cursor::ArgCursor;
use crate::cli_parser::syntax::{
    after_tokens, after_value, followed_by, front, long_option, option_token, positional,
    short_cluster, tokenization, tokens_from, valid_catalog, ErrorView, FlagView, Step,
    TokenView,
};
use crate::cli_parser::text::find_equals;
use crate::cli_parser::token::{ParseError, Token};
use vstd::prelude::*;

verus! {

/// What a finished pass hands back, as the grammar sees it.
pub open spec fn outcome_view(outcome: Result<Vec<Token>, ParseError>) -> Result<
    Seq<TokenView>,
    ErrorView,
> {
    match outcome {
        Ok(tokens) => Ok(tokens.deep_view()),
        Err(error) => Err(error@),
    }
}

/// What reading one option element did, against what the grammar says of it:
/// on success the element's tokens stand at the end of the output and the
/// cursor is past the value it took; on failure both are as they were.
pub open spec fn element_read(
    expected: Result<Step, ErrorView>,
    done: Result<(), ParseError>,
    tokens_before: Vec<Token>,
    tokens_after: Vec<Token>,
    args_before: Seq<Seq<char>>,
    args_after: Seq<Seq<char>>,
) -> bool {
    match expected {
        Ok(step) => {
            &&& done is Ok
            &&& tokens_after.deep_view() == tokens_before.deep_view() + step.tokens
            &&& args_after == after_value(args_before, step.took_next)
        },
        Err(error) => {
            &&& done is Err
            &&& done->Err_0@ == error
            &&& tokens_after@ == tokens_before@
            &&& args_after == args_before
        },
    }
}

/// Concatenation may be read from either end.
proof fn lemma_concat_twice(first: Seq<TokenView>, second: Seq<TokenView>, third: Seq<TokenView>)
    ensures
        (first + second) + third == first + (second + third),
{
    assert((first + second) + third =~= first + (second + third));
}

/// Putting tokens in front twice is putting their concatenation in front once.
proof fn lemma_after_tokens_twice(
    first: Seq<TokenView>,
    second: Seq<TokenView>,
    rest: Result<Step, ErrorView>,
)
    ensures
        after_tokens(first, after_tokens(second, rest)) == after_tokens(first + second, rest),
{
    if let Ok(step) = rest {
        lemma_concat_twice(first, second, step.tokens);
    }
}

/// Putting tokens in front twice is putting their concatenation in front once.
proof fn lemma_followed_by_twice(
    first: Seq<TokenView>,
    second: Seq<TokenView>,
    rest: Result<Seq<TokenView>, ErrorView>,
)
    ensures
        followed_by(first, followed_by(second, rest)) == followed_by(first + second, rest),
{
    if let Ok(more) = rest {
        lemma_concat_twice(first, second, more);
    }
}

/// Appends the token of `flag` with `value` to `tokens`.
fn emit(tokens: &mut Vec<Token>, flag: &Flag, value: Option<String>)
    ensures
        final(tokens)@ == old(tokens)@.push(Token { name: flag.name, value }),
        final(tokens).deep_view() == old(tokens).deep_view() + seq![
            option_token(flag@, value.deep_view()),
        ],
{
    tokens.push(Token { name: flag.name, value });
    assert(tokens.deep_view() =~= old(tokens).deep_view() + seq![
        option_token(flag@, value.deep_view()),
    ]);
}

/// Reads `arg` as a cluster of short flags: the characters after the first
/// one, each looked up in `options`. Flags without value give one token each.
/// The first flag that takes a value ends the cluster and takes the rest of
/// `arg` as its value, or the next element of `args` where nothing is left.
///
/// On failure `tokens` and `args` are left as they were.
pub fn parse_opt(
    args: &mut ArgCursor,
    options: &[Flag],
    arg: &str,
    tokens: &mut Vec<Token>,
) -> (done: Result<(), ParseError>)
    requires
        arg@.len() >= 1,
    ensures
        element_read(
            short_cluster(options.deep_view(), arg@.skip(1), front(old(args)@)),
            done,
            *old(tokens),
            *final(tokens),
            old(args)@,
            final(args)@,
        ),
{
    let count: usize = arg.unicode_len();
    let text = arg.substring_char(1, count);
    let len: usize = count - 1;
    let start: usize = tokens.len();
    let ghost catalog = options.deep_view();
    let ghost next = front(args@);
    let ghost whole = short_cluster(catalog, text@, next);
    let ghost mut emitted: Seq<TokenView> = Seq::empty();
    let mut i: usize = 0;
    assert(text@.skip(0) =~= text@);
    for c in it: text.chars()
        invariant
            it.seq() == text@,
            i == it.index(),
            len == text@.len(),
            text@ == arg@.skip(1),
            catalog == options.deep_view(),
            next == front(old(args)@),
            args@ == old(args)@,
            start == old(tokens)@.len(),
            start <= tokens@.len(),
            tokens@.subrange(0, start as int) == old(tokens)@,
            tokens.deep_view() == old(tokens).deep_view() + emitted,
            whole == short_cluster(catalog, text@, next),
            whole == after_tokens(emitted, short_cluster(catalog, text@.skip(i as int), next)),
    {
        let ghost tail = text@.skip(i as int);
        assert(tail[0] == c && tail.skip(1) =~= text@.skip(i + 1));
        let option = match find_option(options, Some(c), None) {
            Ok(option) => option,
            Err(_) => {
                tokens.truncate(start);
                assert(text@.subrange(i as int, i + 1) =~= seq![c]);
                return Err(ParseError::UnknownFlag(text.substring_char(i, i + 1).to_owned()));
            },
        };
        if option.takes_value {
            let value = if i + 1 < len {
                text.substring_char(i + 1, len).to_owned()
            } else {
                match args.next() {
                    Some(value) => value.clone(),
                    None => {
                        tokens.truncate(start);
                        return Err(ParseError::MissingValue(option.name.to_owned()));
                    },
                }
            };
            emit(tokens, option, Some(value));
            proof {
                lemma_concat_twice(
                    old(tokens).deep_view(),
                    emitted,
                    seq![option_token(option@, Some(value@))],
                );
            }
            return Ok(());
        }
        emit(tokens, option, None);
        proof {
            lemma_concat_twice(
                old(tokens).deep_view(),
                emitted,
                seq![option_token(option@, None)],
            );
            lemma_after_tokens_twice(
                emitted,
                seq![option_token(option@, None)],
                short_cluster(catalog, text@.skip(i + 1), next),
            );
            emitted = emitted + seq![option_token(option@, None)];
        }
        i = i + 1;
    }
    assert(emitted + Seq::<TokenView>::empty() =~= emitted);
    Ok(())
}

/// Reads `arg` as a long option: the text after its first two characters is
/// a key, or a key and a value with `=` between them.
///
/// A key alone is looked up in `options`; a flag that takes a value takes the
/// next element of `args`. With `=`, key and value must both be non-empty and
/// the flag must take a value; `args` is not touched.
///
/// On failure `tokens` and `args` are left as they were.
pub fn parse_long_opt(
    args: &mut ArgCursor,
    options: &[Flag],
    arg: &str,
    tokens: &mut Vec<Token>,
) -> (done: Result<(), ParseError>)
    requires
        arg@.len() >= 2,
    ensures
        element_read(
            long_option(options.deep_view(), arg@.skip(2), front(old(args)@)),
            done,
            *old(tokens),
            *final(tokens),
            old(args)@,
            final(args)@,
        ),
{
    let text = arg.substring_char(2, arg.unicode_len());
    match find_equals(text) {
        None => {
            match find_option(options, None, Some(text)) {
                Err(_) => Err(ParseError::UnknownFlag(text.to_owned())),
                Ok(option) => {
                    if option.takes_value {
                        match args.next() {
                            Some(value) => {
                                emit(tokens, option, Some(value.clone()));
                                Ok(())
                            },
                            None => Err(ParseError::MissingValue(option.name.to_owned())),
                        }
                    } else {
                        emit(tokens, option, None);
                        Ok(())
                    }
                },
            }
        },
        Some(i) => {
            let len: usize = text.unicode_len();
            if i == 0 || i + 1 == len {
                return Err(ParseError::BadSyntax(text.to_owned()));
            }
            let first = text.substring_char(0, i);
            let last = text.substring_char(i + 1, len);
            match find_option(options, None, Some(first)) {
                Err(_) => Err(ParseError::UnknownFlag(first.to_owned())),
                Ok(option) => {
                    if option.takes_value {
                        emit(tokens, option, Some(last.to_owned()));
                        Ok(())
                    } else {
                        Err(ParseError::BadSyntax(text.to_owned()))
                    }
                },
            }
        },
    }
}

/// A command line to tokenize: the raw arguments, program name first, and the
/// catalog of flags to recognize in them.
#[derive(Debug)]
pub struct Parser {
    args: Vec<String>,
    flags: Vec<Flag>,
}

impl Parser {
    /// The raw arguments, program name included.
    pub closed spec fn arguments(&self) -> Seq<Seq<char>> {
        self.args.deep_view()
    }

    /// The catalog, in the order in which the flags were defined.
    pub closed spec fn catalog(&self) -> Seq<FlagView> {
        self.flags.deep_view()
    }

    /// A parser for `args`, whose first element is the program name, with an
    /// empty catalog.
    pub fn new(args: Vec<String>) -> (parser: Parser)
        ensures
            parser.arguments() == args.deep_view(),
            parser.catalog() == Seq::<FlagView>::empty(),
    {
        let parser = Parser { args, flags: Vec::new() };
        assert(parser.flags.deep_view() =~= Seq::<FlagView>::empty());
        parser
    }

    /// Adds a definition at the end of the catalog.
    pub fn define(&mut self, flag: Flag) -> (parser: &mut Parser)
        ensures
            parser.catalog() == old(self).catalog().push(flag@),
            parser.arguments() == old(self).arguments(),
            *final(self) == *final(parser),
    {
        self.flags.push(flag);
        assert(self.flags.deep_view() =~= old(self).flags.deep_view().push(flag@));
        self
    }

    /// Defines a flag with both a short and a long form.
    pub fn flag(
        &mut self,
        name: &'static str,
        short: char,
        long: &'static str,
        takes_value: bool,
    ) -> (parser: &mut Parser)
        ensures
            parser.catalog() == old(self).catalog().push(
                FlagView { name: name@, short: Some(short), long: Some(long@), takes_value },
            ),
            parser.arguments() == old(self).arguments(),
            *final(self) == *final(parser),
    {
        self.define(Flag { name, short: Some(short), long: Some(long), takes_value })
    }

    /// Defines `-h`, `--help`.
    pub fn help(&mut self) -> (parser: &mut Parser)
        ensures
            parser.catalog() == old(self).catalog().push(
                FlagView {
                    name: "help"@,
                    short: Some('h'),
                    long: Some("help"@),
                    takes_value: false,
                },
            ),
            parser.arguments() == old(self).arguments(),
            *final(self) == *final(parser),
    {
        self.flag("help", 'h', "help", false)
    }

    /// Defines `-V`, `--verbose`.
    pub fn verbose(&mut self) -> (parser: &mut Parser)
        ensures
            parser.catalog() == old(self).catalog().push(
                FlagView {
                    name: "verbose"@,
                    short: Some('V'),
                    long: Some("verbose"@),
                    takes_value: false,
                },
            ),
            parser.arguments() == old(self).arguments(),
            *final(self) == *final(parser),
    {
        self.flag("verbose", 'V', "verbose", false)
    }

    /// Defines `-v`, `--version`.
    pub fn version(&mut self) -> (parser: &mut Parser)
        ensures
            parser.catalog() == old(self).catalog().push(
                FlagView {
                    name: "version"@,
                    short: Some('v'),
                    long: Some("version"@),
                    takes_value: false,
                },
            ),
            parser.arguments() == old(self).arguments(),
            *final(self) == *final(parser),
    {
        self.flag("version", 'v', "version", false)
    }

    /// Defines `-d`, `--debug`.
    pub fn debug(&mut self) -> (parser: &mut Parser)
        ensures
            parser.catalog() == old(self).catalog().push(
                FlagView {
                    name: "debug"@,
                    short: Some('d'),
                    long: Some("debug"@),
                    takes_value: false,
                },
            ),
            parser.arguments() == old(self).arguments(),
            *final(self) == *final(parser),
    {
        self.flag("debug", 'd', "debug", false)
    }

    /// Whether the catalog is fit for use: every definition has a short or a
    /// long form, and no two share a name, a short form or a long form.
    pub fn is_valid(&self) -> (valid: bool)
        ensures
            valid == valid_catalog(self.catalog()),
    {
        catalog_is_valid(self.flags.as_slice())
    }

    /// Tokenizes the arguments against the catalog: the tokens in the order of
    /// the elements that gave them, or the first error. The parser itself is
    /// not changed, so a second pass gives the same again.
    pub fn tokenize(&mut self) -> (outcome: Result<Vec<Token>, ParseError>)
        ensures
            outcome_view(outcome) == tokenization(old(self).catalog(), old(self).arguments()),
            *final(self) == *old(self),
    {
        let mut tokens: Vec<Token> = Vec::new();
        let mut accept_opt = true;
        let mut args = ArgCursor::new(self.args.as_slice());
        let options = self.flags.as_slice();
        let ghost catalog = self.catalog();
        let ghost whole = tokenization(catalog, self.arguments());
        args.next();  // the program name
        proof {
            lemma_followed_by_twice(
                Seq::empty(),
                Seq::empty(),
                tokens_from(catalog, args@, accept_opt),
            );
        }
        loop
            invariant
                catalog == options.deep_view(),
                whole == tokenization(old(self).catalog(), old(self).arguments()),
                whole == followed_by(tokens.deep_view(), tokens_from(catalog, args@, accept_opt)),
            ensures
                whole == Ok::<Seq<TokenView>, ErrorView>(tokens.deep_view()),
            decreases args@.len(),
        {
            let ghost before = tokens.deep_view();
            let arg = match args.next() {
                Some(arg) => arg.as_str(),
                None => {
                    assert(before + Seq::<TokenView>::empty() =~= before);
                    break ;
                },
            };
            let ghost rest = args@;
            let count: usize = arg.unicode_len();
            let hyphen = count >= 1 && arg.get_char(0) == '-';
            let double = count >= 2 && hyphen && arg.get_char(1) == '-';
            if count == 2 && double {
                accept_opt = false;
            } else if accept_opt && count > 2 && double {
                parse_long_opt(&mut args, options, arg, &mut tokens)?;
                proof {
                    let step = long_option(catalog, arg@.skip(2), front(rest))->Ok_0;
                    lemma_followed_by_twice(
                        before,
                        step.tokens,
                        tokens_from(catalog, args@, accept_opt),
                    );
                }
            } else if accept_opt && count > 1 && hyphen {
                parse_opt(&mut args, options, arg, &mut tokens)?;
                proof {
                    let step = short_cluster(catalog, arg@.skip(1), front(rest))->Ok_0;
                    lemma_followed_by_twice(
                        before,
                        step.tokens,
                        tokens_from(catalog, args@, accept_opt),
                    );
                }
            } else {
                tokens.push(Token { name: "arg", value: Some(arg.to_owned()) });
                proof {
                    reveal_strlit("arg");
                    assert("arg"@ =~= positional(arg@).name);
                    assert(tokens.deep_view() =~= before + seq![positional(arg@)]);
                    lemma_followed_by_twice(
                        before,
                        seq![positional(arg@)],
                        tokens_from(catalog, args@, accept_opt),
                    );
                }
            }
        }
        Ok(tokens)
    }
}

} // verus!
