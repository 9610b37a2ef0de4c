//! The option syntax as mathematics: what a list of raw arguments means,
//! given a catalog of flag definitions.
//!
//! Everything here is specification. Strings are sequences of characters,
//! the catalog is a sequence of definitions, and tokenizing is a function from
//! the two to either the tokens or the first error.

use vstd::prelude::*;

verus! {

/// A flag definition as the grammar sees it.
pub struct FlagView {
    pub name: Seq<char>,
    pub short: Option<char>,
    pub long: Option<Seq<char>>,
    pub takes_value: bool,
}

/// A token as the grammar sees it.
pub struct TokenView {
    pub name: Seq<char>,
    pub value: Option<Seq<char>>,
}

/// Why tokenizing stopped.
pub enum ErrorView {
    /// A short character or long word that no definition carries.
    UnknownFlag(Seq<char>),
    /// The named flag takes a value and none was left to take.
    MissingValue(Seq<char>),
    /// A `key=value` long option with an empty side, or for a flag without value.
    BadSyntax(Seq<char>),
}

/// What one option element contributes: its tokens, and whether it used up
/// the element after it as a value.
pub struct Step {
    pub tokens: Seq<TokenView>,
    pub took_next: bool,
}

/// The name every positional token carries.
pub open spec fn positional_name() -> Seq<char> {
    seq!['a', 'r', 'g']
}

/// The token of a positional argument: the raw text, verbatim.
pub open spec fn positional(raw: Seq<char>) -> TokenView {
    TokenView { name: positional_name(), value: Some(raw) }
}

/// The token of a matched flag.
pub open spec fn option_token(flag: FlagView, value: Option<Seq<char>>) -> TokenView {
    TokenView { name: flag.name, value }
}

/// The element is exactly `--`.
pub open spec fn is_terminator(arg: Seq<char>) -> bool {
    arg.len() == 2 && arg[0] == '-' && arg[1] == '-'
}

/// The element starts with `--` and goes on.
pub open spec fn is_long_option(arg: Seq<char>) -> bool {
    arg.len() > 2 && arg[0] == '-' && arg[1] == '-'
}

/// The element starts with `-` and goes on.
pub open spec fn is_short_cluster(arg: Seq<char>) -> bool {
    arg.len() > 1 && arg[0] == '-'
}

/// Whether a definition answers to one of the given keys. An absent key
/// matches nothing, and so does an absent form.
pub open spec fn flag_matches(flag: FlagView, short: Option<char>, long: Option<Seq<char>>) -> bool {
    ||| (short is Some && flag.short == short)
    ||| (long is Some && flag.long == long)
}

/// `i` is the position of the first definition that answers to the keys.
pub open spec fn is_first_match(
    catalog: Seq<FlagView>,
    short: Option<char>,
    long: Option<Seq<char>>,
    i: int,
) -> bool {
    &&& 0 <= i < catalog.len()
    &&& flag_matches(catalog[i], short, long)
    &&& forall|j: int| 0 <= j < i ==> !flag_matches(#[trigger] catalog[j], short, long)
}

/// Position of the first definition that answers to the keys, if any does.
pub open spec fn lookup_index(
    catalog: Seq<FlagView>,
    short: Option<char>,
    long: Option<Seq<char>>,
) -> Option<int> {
    if exists|i: int| is_first_match(catalog, short, long, i) {
        Some(choose|i: int| is_first_match(catalog, short, long, i))
    } else {
        None
    }
}

/// The first definition that answers to the keys, if any does.
pub open spec fn lookup(
    catalog: Seq<FlagView>,
    short: Option<char>,
    long: Option<Seq<char>>,
) -> Option<FlagView> {
    match lookup_index(catalog, short, long) {
        Some(i) => Some(catalog[i]),
        None => None,
    }
}

/// The first match is the one that lookup gives.
pub proof fn lemma_first_match_is_lookup(
    catalog: Seq<FlagView>,
    short: Option<char>,
    long: Option<Seq<char>>,
    i: int,
)
    requires
        is_first_match(catalog, short, long, i),
    ensures
        lookup_index(catalog, short, long) == Some(i),
        lookup(catalog, short, long) == Some(catalog[i]),
{
    let k = choose|k: int| is_first_match(catalog, short, long, k);
    assert(is_first_match(catalog, short, long, k));
    if k < i {
        assert(!flag_matches(catalog[k], short, long));
    } else if i < k {
        assert(!flag_matches(catalog[i], short, long));
    }
}

/// Where no definition answers to the keys, lookup gives nothing.
pub proof fn lemma_no_match_no_lookup(
    catalog: Seq<FlagView>,
    short: Option<char>,
    long: Option<Seq<char>>,
)
    requires
        forall|j: int| 0 <= j < catalog.len() ==> !flag_matches(#[trigger] catalog[j], short, long),
    ensures
        lookup_index(catalog, short, long) is None,
        lookup(catalog, short, long) is None,
{
    assert forall|i: int| !is_first_match(catalog, short, long, i) by {
        if 0 <= i < catalog.len() {
            assert(!flag_matches(catalog[i], short, long));
        }
    }
}

/// The definition can be written on a command line: it has a short form, a
/// long form, or both.
pub open spec fn has_form(flag: FlagView) -> bool {
    flag.short is Some || flag.long is Some
}

/// Two definitions that cannot stand in one catalog: they share their name,
/// their short form or their long form.
pub open spec fn clash(a: FlagView, b: FlagView) -> bool {
    ||| a.name == b.name
    ||| (a.short is Some && a.short == b.short)
    ||| (a.long is Some && a.long == b.long)
}

/// What a catalog owes its users: every definition has a form, and no two
/// share a name, a short form or a long form.
pub open spec fn valid_catalog(catalog: Seq<FlagView>) -> bool {
    &&& forall|i: int| 0 <= i < catalog.len() ==> has_form(#[trigger] catalog[i])
    &&& forall|i: int, j: int|
        0 <= i < j < catalog.len() ==> !clash(#[trigger] catalog[i], #[trigger] catalog[j])
}

/// `i` is the position of the first `=` in `text`.
pub open spec fn is_first_equals(text: Seq<char>, i: int) -> bool {
    &&& 0 <= i < text.len()
    &&& text[i] == '='
    &&& forall|j: int| 0 <= j < i ==> #[trigger] text[j] != '='
}

/// Position of the first `=` in `text`, if it holds one.
pub open spec fn first_equals(text: Seq<char>) -> Option<int> {
    if exists|i: int| is_first_equals(text, i) {
        Some(choose|i: int| is_first_equals(text, i))
    } else {
        None
    }
}

/// The first `=` is the one that `first_equals` gives.
pub proof fn lemma_first_equals_found(text: Seq<char>, i: int)
    requires
        is_first_equals(text, i),
    ensures
        first_equals(text) == Some(i),
{
    let k = choose|k: int| is_first_equals(text, k);
    assert(is_first_equals(text, k));
    if k < i {
        assert(text[k] != '=');
    } else if i < k {
        assert(text[i] != '=');
    }
}

/// A text without `=` has no first one.
pub proof fn lemma_first_equals_absent(text: Seq<char>)
    requires
        forall|j: int| 0 <= j < text.len() ==> #[trigger] text[j] != '=',
    ensures
        first_equals(text) is None,
{
    assert forall|i: int| !is_first_equals(text, i) by {
        if 0 <= i < text.len() {
            assert(text[i] != '=');
        }
    }
}

/// A long option, given as the text after `--`, with the element that follows it.
///
/// Without `=` the whole text is the key, and a flag that takes a value takes
/// the next element. With `=` the text splits at the first one into key and
/// value; both must be non-empty and the flag must take a value.
pub open spec fn long_option(
    catalog: Seq<FlagView>,
    text: Seq<char>,
    next: Option<Seq<char>>,
) -> Result<Step, ErrorView> {
    match first_equals(text) {
        None => match lookup(catalog, None, Some(text)) {
            None => Err(ErrorView::UnknownFlag(text)),
            Some(flag) => if flag.takes_value {
                match next {
                    Some(value) => Ok(
                        Step { tokens: seq![option_token(flag, Some(value))], took_next: true },
                    ),
                    None => Err(ErrorView::MissingValue(flag.name)),
                }
            } else {
                Ok(Step { tokens: seq![option_token(flag, None)], took_next: false })
            },
        },
        Some(i) => {
            let key = text.subrange(0, i);
            let value = text.subrange(i + 1, text.len() as int);
            if key.len() == 0 || value.len() == 0 {
                Err(ErrorView::BadSyntax(text))
            } else {
                match lookup(catalog, None, Some(key)) {
                    None => Err(ErrorView::UnknownFlag(key)),
                    Some(flag) => if flag.takes_value {
                        Ok(Step { tokens: seq![option_token(flag, Some(value))], took_next: false })
                    } else {
                        Err(ErrorView::BadSyntax(text))
                    },
                }
            }
        },
    }
}

/// The outcome `rest` of the later part of an element, with `tokens` put in
/// front of what it gives.
pub open spec fn after_tokens(tokens: Seq<TokenView>, rest: Result<Step, ErrorView>) -> Result<
    Step,
    ErrorView,
> {
    match rest {
        Ok(step) => Ok(Step { tokens: tokens + step.tokens, took_next: step.took_next }),
        Err(e) => Err(e),
    }
}

/// A cluster of short flags, given as the text after `-`, with the element
/// that follows it.
///
/// Flags without value bundle freely. The first flag that takes a value ends
/// the cluster: what is left of the text is its value, or the next element
/// where nothing is left.
pub open spec fn short_cluster(
    catalog: Seq<FlagView>,
    text: Seq<char>,
    next: Option<Seq<char>>,
) -> Result<Step, ErrorView>
    decreases text.len(),
{
    if text.len() == 0 {
        Ok(Step { tokens: Seq::empty(), took_next: false })
    } else {
        match lookup(catalog, Some(text[0]), None) {
            None => Err(ErrorView::UnknownFlag(seq![text[0]])),
            Some(flag) => if flag.takes_value {
                if text.len() > 1 {
                    Ok(
                        Step {
                            tokens: seq![option_token(flag, Some(text.skip(1)))],
                            took_next: false,
                        },
                    )
                } else {
                    match next {
                        Some(value) => Ok(
                            Step { tokens: seq![option_token(flag, Some(value))], took_next: true },
                        ),
                        None => Err(ErrorView::MissingValue(flag.name)),
                    }
                }
            } else {
                after_tokens(
                    seq![option_token(flag, None)],
                    short_cluster(catalog, text.skip(1), next),
                )
            },
        }
    }
}

/// An element that is read as an option: a long option where it starts with
/// `--`, a cluster of short flags otherwise.
pub open spec fn option_element(
    catalog: Seq<FlagView>,
    arg: Seq<char>,
    next: Option<Seq<char>>,
) -> Result<Step, ErrorView> {
    if is_long_option(arg) {
        long_option(catalog, arg.skip(2), next)
    } else {
        short_cluster(catalog, arg.skip(1), next)
    }
}

/// The element at the front of `args`, if there is one.
pub open spec fn front(args: Seq<Seq<char>>) -> Option<Seq<char>> {
    if args.len() > 0 {
        Some(args[0])
    } else {
        None
    }
}

/// `args` without its front element where `took` holds, `args` itself otherwise.
pub open spec fn after_value(args: Seq<Seq<char>>, took: bool) -> Seq<Seq<char>> {
    if took && args.len() > 0 {
        args.skip(1)
    } else {
        args
    }
}

/// `tokens` followed by what the rest of the pass gives; an error in the rest
/// is the error of the whole.
pub open spec fn followed_by(
    tokens: Seq<TokenView>,
    rest: Result<Seq<TokenView>, ErrorView>,
) -> Result<Seq<TokenView>, ErrorView> {
    match rest {
        Ok(more) => Ok(tokens + more),
        Err(e) => Err(e),
    }
}

/// One pass over `args`, left to right, with options accepted or not.
///
/// `--` turns options off for good and gives no token. While options are
/// accepted, an element that starts with a hyphen and goes on is an option
/// element: a long option behind `--`, a cluster of short flags behind `-`.
/// Every other element is a positional argument.
pub open spec fn tokens_from(
    catalog: Seq<FlagView>,
    args: Seq<Seq<char>>,
    accept: bool,
) -> Result<Seq<TokenView>, ErrorView>
    decreases args.len(),
{
    if args.len() == 0 {
        Ok(Seq::empty())
    } else {
        let arg = args[0];
        let rest = args.skip(1);
        if is_terminator(arg) {
            tokens_from(catalog, rest, false)
        } else if accept && is_short_cluster(arg) {
            match option_element(catalog, arg, front(rest)) {
                Err(e) => Err(e),
                Ok(step) => followed_by(
                    step.tokens,
                    tokens_from(catalog, after_value(rest, step.took_next), accept),
                ),
            }
        } else {
            followed_by(seq![positional(arg)], tokens_from(catalog, rest, accept))
        }
    }
}

/// The arguments proper: the list without the program name at its front.
pub open spec fn without_program_name(args: Seq<Seq<char>>) -> Seq<Seq<char>> {
    if args.len() > 0 {
        args.skip(1)
    } else {
        args
    }
}

/// What tokenizing a full argument list gives: the program name is dropped,
/// and the pass starts with options accepted.
pub open spec fn tokenization(catalog: Seq<FlagView>, args: Seq<Seq<char>>) -> Result<
    Seq<TokenView>,
    ErrorView,
> {
    tokens_from(catalog, without_program_name(args), true)
}

} // verus!
