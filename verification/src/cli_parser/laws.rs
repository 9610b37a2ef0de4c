//! What holds of every tokenization, proved from the grammar.

use crate::cli_parser::parser::{outcome_view, Parser};
use crate::cli_parser::syntax::{
    after_tokens, after_value, first_equals, flag_matches, followed_by, front, is_first_equals,
    is_first_match, is_long_option, is_short_cluster, is_terminator, lemma_first_equals_absent,
    lemma_first_equals_found, lemma_first_match_is_lookup, long_option, lookup, lookup_index,
    option_element, option_token, positional, positional_name, short_cluster, tokenization,
    tokens_from, valid_catalog, without_program_name, ErrorView, FlagView, Step, TokenView,
};
use crate::cli_parser::token::{ParseError, Token};
use vstd::prelude::*;

verus! {

/// The element starts with a hyphen.
pub open spec fn starts_with_hyphen(arg: Seq<char>) -> bool {
    arg.len() > 0 && arg[0] == '-'
}

/// The element `--`.
pub open spec fn terminator() -> Seq<char> {
    seq!['-', '-']
}

/// Picks the elements that are not `--`.
pub open spec fn not_terminator() -> spec_fn(Seq<char>) -> bool {
    |arg: Seq<char>| !is_terminator(arg)
}

/// Makes a positional token of an element.
pub open spec fn as_positional() -> spec_fn(Seq<char>) -> TokenView {
    |arg: Seq<char>| positional(arg)
}

/// What a pass gives once options are off: one positional token for each
/// element that is not `--`, in order.
pub open spec fn positionals(args: Seq<Seq<char>>) -> Seq<TokenView> {
    args.filter(not_terminator()).map_values(as_positional())
}

/// `outcome` with `more` behind its tokens; an error stays as it is.
pub open spec fn and_then_tokens(
    outcome: Result<Seq<TokenView>, ErrorView>,
    more: Seq<TokenView>,
) -> Result<Seq<TokenView>, ErrorView> {
    match outcome {
        Ok(tokens) => Ok(tokens + more),
        Err(e) => Err(e),
    }
}

/// The positional tokens of a list are those of its front element, if it is
/// not `--`, and then those of the rest.
proof fn lemma_positionals_unfold(args: Seq<Seq<char>>)
    requires
        args.len() > 0,
    ensures
        positionals(args) == if is_terminator(args[0]) {
            positionals(args.skip(1))
        } else {
            seq![positional(args[0])] + positionals(args.skip(1))
        },
{
    let head = seq![args[0]];
    let tail = args.skip(1);
    assert(args =~= head + tail);
    Seq::filter_distributes_over_add(head, tail, not_terminator());
    assert(head.filter(not_terminator()) =~= if is_terminator(args[0]) {
        Seq::<Seq<char>>::empty()
    } else {
        head
    }) by {
        reveal_with_fuel(Seq::filter, 2);
        assert(head.drop_last() =~= Seq::<Seq<char>>::empty());
    }
    if is_terminator(args[0]) {
        assert(Seq::<Seq<char>>::empty() + tail.filter(not_terminator()) =~= tail.filter(
            not_terminator(),
        ));
    } else {
        assert((head + tail.filter(not_terminator())).map_values(as_positional()) =~= seq![
            positional(args[0]),
        ] + tail.filter(not_terminator()).map_values(as_positional()));
    }
}

/// Once options are off every element but `--` is a positional argument,
/// whatever it looks like, and the pass cannot fail.
pub proof fn lemma_options_off(catalog: Seq<FlagView>, args: Seq<Seq<char>>)
    ensures
        tokens_from(catalog, args, false) == Ok::<Seq<TokenView>, ErrorView>(positionals(args)),
    decreases args.len(),
{
    if args.len() == 0 {
        assert(positionals(args) =~= Seq::<TokenView>::empty()) by {
            reveal_with_fuel(Seq::filter, 1);
        }
    } else {
        lemma_options_off(catalog, args.skip(1));
        lemma_positionals_unfold(args);
    }
}

/// A pass over elements of which none starts with a hyphen gives one
/// positional token for each, in order, with the raw element as its value.
pub proof fn lemma_plain_pass(catalog: Seq<FlagView>, args: Seq<Seq<char>>, accept: bool)
    requires
        forall|i: int| 0 <= i < args.len() ==> !starts_with_hyphen(#[trigger] args[i]),
    ensures
        tokens_from(catalog, args, accept) == Ok::<Seq<TokenView>, ErrorView>(
            args.map_values(as_positional()),
        ),
    decreases args.len(),
{
    if args.len() == 0 {
        assert(args.map_values(as_positional()) =~= Seq::<TokenView>::empty());
    } else {
        let rest = args.skip(1);
        assert(!starts_with_hyphen(args[0]));
        assert forall|i: int| 0 <= i < rest.len() implies !starts_with_hyphen(
            #[trigger] rest[i],
        ) by {
            assert(rest[i] == args[i + 1]);
        }
        lemma_plain_pass(catalog, rest, accept);
        assert(seq![positional(args[0])] + rest.map_values(as_positional())
            =~= args.map_values(as_positional()));
    }
}

/// Arguments without hyphens are all positional: where no element after the
/// program name starts with a hyphen, tokenizing gives one positional token
/// for each of them, in order, whose value is the raw element, whatever the
/// catalog holds.
pub proof fn theorem_plain_arguments_are_positional(catalog: Seq<FlagView>, args: Seq<Seq<char>>)
    requires
        forall|i: int| 1 <= i < args.len() ==> !starts_with_hyphen(#[trigger] args[i]),
    ensures
        tokenization(catalog, args) == Ok::<Seq<TokenView>, ErrorView>(
            without_program_name(args).map_values(as_positional()),
        ),
        tokenization(catalog, args) matches Ok(tokens) && tokens.len() == without_program_name(
            args,
        ).len() && forall|i: int|
            0 <= i < tokens.len() ==> #[trigger] tokens[i] == positional(args[i + 1]),
{
    let rest = without_program_name(args);
    assert forall|i: int| 0 <= i < rest.len() implies !starts_with_hyphen(#[trigger] rest[i]) by {
        assert(rest[i] == args[i + 1]);
    }
    lemma_plain_pass(catalog, rest, true);
}

/// No positional token that follows the terminator carries `--`.
pub proof fn lemma_positionals_hold_no_terminator(args: Seq<Seq<char>>)
    ensures
        forall|k: int|
            0 <= k < positionals(args).len() ==> (#[trigger] positionals(args)[k]).value != Some(
                terminator(),
            ),
{
    let kept = args.filter(not_terminator());
    assert forall|k: int| 0 <= k < positionals(args).len() implies (#[trigger] positionals(
        args,
    )[k]).value != Some(terminator()) by {
        args.lemma_filter_pred(not_terminator(), k);
        assert(positionals(args)[k] == positional(kept[k]));
        assert(is_terminator(terminator()));
    }
}

/// A cluster that is read to its end without a next element never asked for
/// one: with a next element it reads the same, unless it failed for want of a
/// value.
proof fn lemma_cluster_without_next(
    catalog: Seq<FlagView>,
    text: Seq<char>,
    next: Option<Seq<char>>,
)
    ensures
        match short_cluster(catalog, text, None) {
            Ok(step) => !step.took_next && short_cluster(catalog, text, next) == Ok::<
                Step,
                ErrorView,
            >(step),
            Err(ErrorView::MissingValue(_)) => true,
            Err(e) => short_cluster(catalog, text, next) == Err::<Step, ErrorView>(e),
        },
    decreases text.len(),
{
    if text.len() > 0 {
        lemma_cluster_without_next(catalog, text.skip(1), next);
    }
}

/// An option element that is read without a next element never asked for one:
/// with a next element it reads the same, unless it failed for want of a value.
proof fn lemma_element_without_next(
    catalog: Seq<FlagView>,
    arg: Seq<char>,
    next: Option<Seq<char>>,
)
    ensures
        match option_element(catalog, arg, None) {
            Ok(step) => !step.took_next && option_element(catalog, arg, next) == Ok::<
                Step,
                ErrorView,
            >(step),
            Err(ErrorView::MissingValue(_)) => true,
            Err(e) => option_element(catalog, arg, next) == Err::<Step, ErrorView>(e),
        },
{
    if !is_long_option(arg) {
        lemma_cluster_without_next(catalog, arg.skip(1), next);
    }
}

/// The terminator ends option parsing, from any state of the pass: where
/// `before` does not end in a flag that still waits for its value, a pass over
/// `before`, `--` and `after` gives what `before` gives, then one positional
/// token for each element of `after` that is not `--`.
pub proof fn lemma_terminator_in_pass(
    catalog: Seq<FlagView>,
    before: Seq<Seq<char>>,
    after: Seq<Seq<char>>,
    accept: bool,
)
    requires
        !(tokens_from(catalog, before, accept) matches Err(ErrorView::MissingValue(_))),
    ensures
        tokens_from(catalog, before + seq![terminator()] + after, accept) == and_then_tokens(
            tokens_from(catalog, before, accept),
            positionals(after),
        ),
    decreases before.len(),
{
    let whole = before + seq![terminator()] + after;
    if before.len() == 0 {
        assert(whole.skip(1) =~= after);
        assert(is_terminator(whole[0]));
        lemma_options_off(catalog, after);
        assert(Seq::<TokenView>::empty() + positionals(after) =~= positionals(after));
    } else {
        let arg = before[0];
        let rest = before.skip(1);
        let whole_rest = whole.skip(1);
        assert(whole[0] == arg);
        assert(whole_rest =~= rest + seq![terminator()] + after);
        if is_terminator(arg) {
            lemma_terminator_in_pass(catalog, rest, after, false);
        } else if accept && is_short_cluster(arg) {
            let read = option_element(catalog, arg, front(rest));
            if rest.len() == 0 {
                lemma_element_without_next(catalog, arg, front(whole_rest));
            }
            assert(option_element(catalog, arg, front(whole_rest)) == read);
            if let Ok(step) = read {
                let left = after_value(rest, step.took_next);
                assert(after_value(whole_rest, step.took_next) =~= left + seq![terminator()]
                    + after);
                lemma_terminator_in_pass(catalog, left, after, accept);
                if let Ok(more) = tokens_from(catalog, left, accept) {
                    assert(step.tokens + (more + positionals(after)) =~= (step.tokens + more)
                        + positionals(after));
                }
            }
        } else {
            lemma_terminator_in_pass(catalog, rest, after, accept);
            if let Ok(more) = tokens_from(catalog, rest, accept) {
                assert(seq![positional(arg)] + (more + positionals(after)) =~= (seq![
                    positional(arg),
                ] + more) + positionals(after));
            }
        }
    }
}

/// `--` ends option parsing for good and gives no token of its own: where the
/// arguments in front of it do not end in a flag that still waits for its
/// value, tokenizing gives what they give alone, then one positional token for
/// each later element that is not `--` itself, whatever those elements look
/// like.
pub proof fn theorem_terminator_ends_options(
    catalog: Seq<FlagView>,
    program: Seq<char>,
    before: Seq<Seq<char>>,
    after: Seq<Seq<char>>,
)
    requires
        !(tokenization(catalog, seq![program] + before) matches Err(ErrorView::MissingValue(_))),
    ensures
        tokenization(catalog, seq![program] + before + seq![terminator()] + after)
            == and_then_tokens(
            tokenization(catalog, seq![program] + before),
            positionals(after),
        ),
        forall|k: int|
            0 <= k < positionals(after).len() ==> (#[trigger] positionals(after)[k]).value != Some(
                terminator(),
            ),
{
    assert(without_program_name(seq![program] + before) =~= before);
    assert(without_program_name(seq![program] + before + seq![terminator()] + after) =~= before
        + seq![terminator()] + after);
    lemma_terminator_in_pass(catalog, before, after, true);
    lemma_positionals_hold_no_terminator(after);
}

/// Tokenizing keeps no state: two passes over the same arguments with the
/// same catalog agree, in their tokens or in their error, whichever parser
/// made them.
pub proof fn theorem_tokenize_is_repeatable(
    one: Parser,
    other: Parser,
    first: Result<Vec<Token>, ParseError>,
    second: Result<Vec<Token>, ParseError>,
)
    requires
        one.catalog() == other.catalog(),
        one.arguments() == other.arguments(),
        outcome_view(first) == tokenization(one.catalog(), one.arguments()),
        outcome_view(second) == tokenization(other.catalog(), other.arguments()),
    ensures
        outcome_view(first) == outcome_view(second),
{
}

/// The four ways to hand a flag its value agree: `-oVALUE`, `-o VALUE`,
/// `--out=VALUE` and `--out VALUE` each give the one option token of the flag
/// with that value, and the pass goes on behind them in the same way.
pub proof fn theorem_value_spellings_agree(
    catalog: Seq<FlagView>,
    flag: FlagView,
    short: char,
    long: Seq<char>,
    value: Seq<char>,
    rest: Seq<Seq<char>>,
)
    requires
        lookup(catalog, Some(short), None) == Some(flag),
        lookup(catalog, None, Some(long)) == Some(flag),
        flag.takes_value,
        short != '-',
        long.len() > 0,
        forall|j: int| 0 <= j < long.len() ==> #[trigger] long[j] != '=',
        value.len() > 0,
    ensures
        ({
            let expected = followed_by(
                seq![option_token(flag, Some(value))],
                tokens_from(catalog, rest, true),
            );
            &&& tokens_from(catalog, seq![seq!['-', short] + value] + rest, true) == expected
            &&& tokens_from(catalog, seq![seq!['-', short], value] + rest, true) == expected
            &&& tokens_from(catalog, seq![seq!['-', '-'] + long + seq!['='] + value] + rest, true)
                == expected
            &&& tokens_from(catalog, seq![seq!['-', '-'] + long, value] + rest, true) == expected
        }),
{
    let inline = seq!['-', short] + value;
    assert((seq![inline] + rest).skip(1) =~= rest);
    assert(inline.skip(1) =~= seq![short] + value);
    assert(inline.skip(1).skip(1) =~= value);

    let bare = seq!['-', short];
    assert((seq![bare, value] + rest).skip(1) =~= seq![value] + rest);
    assert((seq![value] + rest).skip(1) =~= rest);
    assert(bare.skip(1) =~= seq![short]);

    let joined = seq!['-', '-'] + long + seq!['='] + value;
    let text = joined.skip(2);
    assert((seq![joined] + rest).skip(1) =~= rest);
    assert(text =~= long + seq!['='] + value);
    assert(is_first_equals(text, long.len() as int)) by {
        assert forall|j: int| 0 <= j < long.len() implies #[trigger] text[j] != '=' by {
            assert(text[j] == long[j]);
        }
    }
    lemma_first_equals_found(text, long.len() as int);
    assert(text.subrange(0, long.len() as int) =~= long);
    assert(text.subrange(long.len() as int + 1, text.len() as int) =~= value);

    let word = seq!['-', '-'] + long;
    assert((seq![word, value] + rest).skip(1) =~= seq![value] + rest);
    assert(word.skip(2) =~= long);
    lemma_first_equals_absent(long);
}

/// Bundling: a flag without value at the front of a cluster may as well stand
/// alone in front of the rest of the cluster. `-ab` reads as `-a -b`.
pub proof fn theorem_bundle_splits(
    catalog: Seq<FlagView>,
    flag: FlagView,
    short: char,
    more: Seq<char>,
    rest: Seq<Seq<char>>,
)
    requires
        lookup(catalog, Some(short), None) == Some(flag),
        !flag.takes_value,
        short != '-',
        more.len() > 0,
        more[0] != '-',
    ensures
        tokens_from(catalog, seq![seq!['-', short] + more] + rest, true) == tokens_from(
            catalog,
            seq![seq!['-', short], seq!['-'] + more] + rest,
            true,
        ),
{
    let token = seq![option_token(flag, None)];
    let others_read = short_cluster(catalog, more, front(rest));

    let bundle = seq!['-', short] + more;
    assert((seq![bundle] + rest).skip(1) =~= rest);
    assert(bundle.skip(1) =~= seq![short] + more);
    assert(bundle.skip(1).skip(1) =~= more);
    assert(option_element(catalog, bundle, front(rest)) == after_tokens(token, others_read));

    let alone = seq!['-', short];
    let others = seq!['-'] + more;
    let split = seq![alone, others] + rest;
    let behind = seq![others] + rest;
    assert(split.skip(1) =~= behind);
    assert(behind.skip(1) =~= rest);
    assert(others.skip(1) =~= more);
    assert(alone.skip(1) =~= seq![short]);
    assert(alone.skip(1).skip(1) =~= Seq::<char>::empty());
    assert(short_cluster(catalog, alone.skip(1).skip(1), front(behind)) == Ok::<Step, ErrorView>(
        Step { tokens: Seq::empty(), took_next: false },
    ));
    assert(token + Seq::<TokenView>::empty() =~= token);
    assert(option_element(catalog, alone, front(behind)) == Ok::<Step, ErrorView>(
        Step { tokens: token, took_next: false },
    ));
    assert(option_element(catalog, others, front(rest)) == others_read);
    assert(tokens_from(catalog, split, true) == followed_by(
        token,
        tokens_from(catalog, behind, true),
    ));
    if let Ok(step) = others_read {
        if let Ok(later) = tokens_from(catalog, after_value(rest, step.took_next), true) {
            assert(token + (step.tokens + later) =~= (token + step.tokens) + later);
        }
    }
}

/// In a valid catalog a short form belongs to one definition, and lookup
/// finds that definition wherever it stands.
pub proof fn theorem_short_form_finds_its_flag(catalog: Seq<FlagView>, i: int)
    requires
        valid_catalog(catalog),
        0 <= i < catalog.len(),
        catalog[i].short is Some,
    ensures
        lookup(catalog, catalog[i].short, None) == Some(catalog[i]),
        forall|j: int|
            0 <= j < catalog.len() && (#[trigger] catalog[j]).short == catalog[i].short ==> j == i,
{
    assert(is_first_match(catalog, catalog[i].short, None, i));
    lemma_first_match_is_lookup(catalog, catalog[i].short, None, i);
}

/// In a valid catalog a long form belongs to one definition, and lookup finds
/// that definition wherever it stands.
pub proof fn theorem_long_form_finds_its_flag(catalog: Seq<FlagView>, i: int)
    requires
        valid_catalog(catalog),
        0 <= i < catalog.len(),
        catalog[i].long is Some,
    ensures
        lookup(catalog, None, catalog[i].long) == Some(catalog[i]),
        forall|j: int|
            0 <= j < catalog.len() && (#[trigger] catalog[j]).long == catalog[i].long ==> j == i,
{
    assert(is_first_match(catalog, None, catalog[i].long, i));
    lemma_first_match_is_lookup(catalog, None, catalog[i].long, i);
}

/// A positional token: the reserved name, and the raw text as the value.
pub open spec fn is_positional_token(token: TokenView) -> bool {
    token.name == positional_name() && token.value is Some
}

/// An option token of `flag`: its name, and a value exactly where it takes one.
pub open spec fn is_token_of(flag: FlagView, token: TokenView) -> bool {
    token.name == flag.name && (token.value is Some <==> flag.takes_value)
}

/// A token that a pass may give: a positional one, or the option token of a
/// definition in the catalog.
pub open spec fn well_formed_token(catalog: Seq<FlagView>, token: TokenView) -> bool {
    is_positional_token(token) || exists|i: int|
        0 <= i < catalog.len() && is_token_of(#[trigger] catalog[i], token)
}

/// What lookup finds stands in the catalog and answers to the key.
proof fn lemma_lookup_is_member(
    catalog: Seq<FlagView>,
    short: Option<char>,
    long: Option<Seq<char>>,
)
    ensures
        lookup(catalog, short, long) matches Some(flag) ==> flag_matches(flag, short, long)
            && exists|i: int| 0 <= i < catalog.len() && #[trigger] catalog[i] == flag,
{
    if let Some(i) = lookup_index(catalog, short, long) {
        assert(is_first_match(catalog, short, long, i));
    }
}

/// Every token of a cluster is the option token of a definition.
proof fn lemma_cluster_tokens(catalog: Seq<FlagView>, text: Seq<char>, next: Option<Seq<char>>)
    ensures
        short_cluster(catalog, text, next) matches Ok(step) ==> forall|k: int|
            0 <= k < step.tokens.len() ==> well_formed_token(catalog, #[trigger] step.tokens[k]),
    decreases text.len(),
{
    if text.len() > 0 {
        lemma_lookup_is_member(catalog, Some(text[0]), None);
        lemma_cluster_tokens(catalog, text.skip(1), next);
    }
}

/// Every token of a long option is the option token of a definition.
proof fn lemma_long_option_tokens(
    catalog: Seq<FlagView>,
    text: Seq<char>,
    next: Option<Seq<char>>,
)
    ensures
        long_option(catalog, text, next) matches Ok(step) ==> forall|k: int|
            0 <= k < step.tokens.len() ==> well_formed_token(catalog, #[trigger] step.tokens[k]),
{
    match first_equals(text) {
        None => lemma_lookup_is_member(catalog, None, Some(text)),
        Some(i) => lemma_lookup_is_member(catalog, None, Some(text.subrange(0, i))),
    }
}

/// Every token of a pass is well formed.
proof fn lemma_pass_tokens(catalog: Seq<FlagView>, args: Seq<Seq<char>>, accept: bool)
    ensures
        tokens_from(catalog, args, accept) matches Ok(tokens) ==> forall|k: int|
            0 <= k < tokens.len() ==> well_formed_token(catalog, #[trigger] tokens[k]),
    decreases args.len(),
{
    if args.len() > 0 {
        let arg = args[0];
        let rest = args.skip(1);
        if is_terminator(arg) {
            lemma_pass_tokens(catalog, rest, false);
        } else if accept && is_short_cluster(arg) {
            if is_long_option(arg) {
                lemma_long_option_tokens(catalog, arg.skip(2), front(rest));
            } else {
                lemma_cluster_tokens(catalog, arg.skip(1), front(rest));
            }
            if let Ok(step) = option_element(catalog, arg, front(rest)) {
                lemma_pass_tokens(catalog, after_value(rest, step.took_next), accept);
            }
        } else {
            lemma_pass_tokens(catalog, rest, accept);
        }
    }
}

/// Every token that tokenizing gives is either a positional token, with the
/// raw text as its value, or carries the name of a definition in the catalog,
/// with a value exactly where that definition takes one.
pub proof fn theorem_tokens_are_well_formed(catalog: Seq<FlagView>, args: Seq<Seq<char>>)
    ensures
        tokenization(catalog, args) matches Ok(tokens) ==> forall|k: int|
            0 <= k < tokens.len() ==> well_formed_token(catalog, #[trigger] tokens[k]),
{
    lemma_pass_tokens(catalog, without_program_name(args), true);
}

} // verus!
