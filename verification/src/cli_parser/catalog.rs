//! Flag definitions and the lookup of a key among them.

use crate::cli_parser::syntax::{
    clash, flag_matches, has_form, is_first_match, lemma_first_match_is_lookup,
    lemma_no_match_no_lookup, lookup_index, valid_catalog, FlagView,
};
use crate::cli_parser::text::str_eq;
use vstd::prelude::*;

verus! {

/// The definition of one flag: its symbolic name, the character and the word
/// it answers to, and whether it takes a value. Either form may be absent.
#[derive(Debug, Clone, Copy, PartialEq, Eq)]
pub struct Flag {
    pub name: &'static str,
    pub short: Option<char>,
    pub long: Option<&'static str>,
    pub takes_value: bool,
}

impl View for Flag {
    type V = FlagView;

    open spec fn view(&self) -> FlagView {
        FlagView {
            name: self.name@,
            short: self.short,
            long: match self.long {
                Some(word) => Some(word@),
                None => None,
            },
            takes_value: self.takes_value,
        }
    }
}

impl DeepView for Flag {
    type V = FlagView;

    open spec fn deep_view(&self) -> FlagView {
        self@
    }
}

/// The characters of a key, where there is one.
pub open spec fn key_view(key: Option<&str>) -> Option<Seq<char>> {
    match key {
        Some(word) => Some(word@),
        None => None,
    }
}

/// Whether `flag` answers to one of the keys.
fn answers_to(flag: &Flag, short: Option<char>, long: Option<&str>) -> (yes: bool)
    ensures
        yes == flag_matches(flag@, short, key_view(long)),
{
    let by_short = match (short, flag.short) {
        (Some(wanted), Some(own)) => wanted == own,
        _ => false,
    };
    let by_long = match (long, flag.long) {
        (Some(wanted), Some(own)) => str_eq(wanted, own),
        _ => false,
    };
    by_short || by_long
}

/// Finds the first definition in `options` that answers to the short
/// character or to the long word given; an absent key matches nothing.
///
/// Fails with the words `unknown option` where no definition answers.
pub fn find_option<'a>(options: &'a [Flag], short: Option<char>, long: Option<&'a str>) -> (found:
    Result<&'a Flag, &'static str>)
    ensures
        match lookup_index(options.deep_view(), short, key_view(long)) {
            Some(i) => found == Ok::<&Flag, &str>(&options[i]),
            None => found is Err && found->Err_0@ == "unknown option"@,
        },
{
    let ghost catalog = options.deep_view();
    let ghost key = key_view(long);
    let mut i: usize = 0;
    while i < options.len()
        invariant
            i <= options.len(),
            catalog == options.deep_view(),
            key == key_view(long),
            forall|j: int| 0 <= j < i ==> !flag_matches(#[trigger] catalog[j], short, key),
        decreases options.len() - i,
    {
        let option = &options[i];
        if answers_to(option, short, long) {
            proof {
                assert(catalog[i as int] == option@);
                assert(is_first_match(catalog, short, key, i as int));
                lemma_first_match_is_lookup(catalog, short, key, i as int);
            }
            return Ok(option);
        }
        assert(catalog[i as int] == option@);
        i = i + 1;
    }
    proof {
        lemma_no_match_no_lookup(catalog, short, key);
    }
    Err("unknown option")
}

/// Whether two definitions share their name, their short form or their long form.
fn clashes(a: &Flag, b: &Flag) -> (yes: bool)
    ensures
        yes == clash(a@, b@),
{
    let same_short = match (a.short, b.short) {
        (Some(x), Some(y)) => x == y,
        _ => false,
    };
    let same_long = match (a.long, b.long) {
        (Some(x), Some(y)) => str_eq(x, y),
        _ => false,
    };
    str_eq(a.name, b.name) || same_short || same_long
}

/// Tells whether a catalog is fit for use: every definition has a short or a
/// long form, and no two definitions share a name, a short form or a long form.
pub fn catalog_is_valid(options: &[Flag]) -> (valid: bool)
    ensures
        valid == valid_catalog(options.deep_view()),
{
    let ghost catalog = options.deep_view();
    let mut j: usize = 0;
    while j < options.len()
        invariant
            j <= options.len(),
            catalog == options.deep_view(),
            forall|k: int| 0 <= k < j ==> has_form(#[trigger] catalog[k]),
            forall|i: int, k: int|
                0 <= i < k < j ==> !clash(#[trigger] catalog[i], #[trigger] catalog[k]),
        decreases options.len() - j,
    {
        let later = &options[j];
        assert(catalog[j as int] == later@);
        if later.short.is_none() && later.long.is_none() {
            assert(!has_form(catalog[j as int]));
            return false;
        }
        let mut i: usize = 0;
        while i < j
            invariant
                i <= j,
                j < options.len(),
                catalog == options.deep_view(),
                catalog[j as int] == later@,
                forall|m: int| 0 <= m < i ==> !clash(#[trigger] catalog[m], catalog[j as int]),
            decreases j - i,
        {
            let earlier = &options[i];
            assert(catalog[i as int] == earlier@);
            if clashes(earlier, later) {
                assert(clash(catalog[i as int], catalog[j as int]));
                return false;
            }
            i = i + 1;
        }
        j = j + 1;
    }
    true
}

} // verus!
