use seap::cli_parser::{ParseError, Parser, Token};

fn argv(items: &[&str]) -> Vec<String> {
    items.iter().map(|item| item.to_string()).collect()
}

fn option(name: &'static str, value: Option<&str>) -> Token {
    Token { name, value: value.map(|text| text.to_string()) }
}

fn positional(raw: &str) -> Token {
    Token { name: "arg", value: Some(raw.to_string()) }
}

/// A parser over `items` that knows `-o`/`--out` (with value) and the plain
/// flags `-a`/`--all` and `-b`/`--brief`.
fn parser(items: &[&str]) -> Parser {
    let mut parser = Parser::new(argv(items));
    parser.flag("out", 'o', "out", true).flag("all", 'a', "all", false).flag(
        "brief",
        'b',
        "brief",
        false,
    );
    parser
}

#[test]
fn plain_arguments_become_positional_tokens_in_order() {
    let tokens = parser(&["prog", "one", "two", "three"]).tokenize();
    assert_eq!(tokens, Ok(vec![positional("one"), positional("two"), positional("three")]));
}

#[test]
fn plain_arguments_need_no_catalog() {
    let tokens = Parser::new(argv(&["prog", "a=b", "x-y", ""])).tokenize();
    assert_eq!(tokens, Ok(vec![positional("a=b"), positional("x-y"), positional("")]));
}

#[test]
fn program_name_gives_no_token() {
    assert_eq!(parser(&["prog"]).tokenize(), Ok(vec![]));
    assert_eq!(parser(&["-o"]).tokenize(), Ok(vec![]));
    assert_eq!(parser(&["--nonsense=", "x"]).tokenize(), Ok(vec![positional("x")]));
}

#[test]
fn empty_argument_list_gives_no_token() {
    assert_eq!(parser(&[]).tokenize(), Ok(vec![]));
}

#[test]
fn terminator_turns_later_options_into_positionals() {
    let tokens = parser(&["prog", "-a", "--", "-b", "--out=FILE", "-z", "plain"]).tokenize();
    assert_eq!(
        tokens,
        Ok(vec![
            option("all", None),
            positional("-b"),
            positional("--out=FILE"),
            positional("-z"),
            positional("plain"),
        ])
    );
}

#[test]
fn terminator_is_never_a_token_even_when_repeated() {
    let tokens = parser(&["prog", "--", "x", "--", "-a", "--"]).tokenize();
    assert_eq!(tokens, Ok(vec![positional("x"), positional("-a")]));
}

#[test]
fn terminator_alone_gives_no_token() {
    assert_eq!(parser(&["prog", "--"]).tokenize(), Ok(vec![]));
}

#[test]
fn terminator_taken_as_a_value_does_not_end_options() {
    let tokens = parser(&["prog", "-o", "--", "-a"]).tokenize();
    assert_eq!(tokens, Ok(vec![option("out", Some("--")), option("all", None)]));
    let tokens = parser(&["prog", "--out", "--", "-a"]).tokenize();
    assert_eq!(tokens, Ok(vec![option("out", Some("--")), option("all", None)]));
}

#[test]
fn short_flag_with_inline_value() {
    assert_eq!(parser(&["prog", "-oFILE"]).tokenize(), Ok(vec![option("out", Some("FILE"))]));
}

#[test]
fn short_flag_with_separate_value() {
    assert_eq!(parser(&["prog", "-o", "FILE"]).tokenize(), Ok(vec![option("out", Some("FILE"))]));
}

#[test]
fn long_flag_with_equals_value() {
    assert_eq!(parser(&["prog", "--out=FILE"]).tokenize(), Ok(vec![option("out", Some("FILE"))]));
}

#[test]
fn long_flag_with_separate_value() {
    assert_eq!(
        parser(&["prog", "--out", "FILE"]).tokenize(),
        Ok(vec![option("out", Some("FILE"))])
    );
}

#[test]
fn bundled_short_flags_give_one_token_each() {
    assert_eq!(
        parser(&["prog", "-ab"]).tokenize(),
        Ok(vec![option("all", None), option("brief", None)])
    );
    assert_eq!(
        parser(&["prog", "-ba"]).tokenize(),
        Ok(vec![option("brief", None), option("all", None)])
    );
}

#[test]
fn bundle_equals_separate_flags() {
    assert_eq!(parser(&["prog", "-aab"]).tokenize(), parser(&["prog", "-a", "-a", "-b"]).tokenize());
}

#[test]
fn value_flag_ends_its_cluster_with_inline_value() {
    assert_eq!(
        parser(&["prog", "-aoFILE", "rest"]).tokenize(),
        Ok(vec![option("all", None), option("out", Some("FILE")), positional("rest")])
    );
}

#[test]
fn value_flag_at_cluster_end_takes_next_element() {
    assert_eq!(
        parser(&["prog", "-abo", "FILE", "rest"]).tokenize(),
        Ok(vec![
            option("all", None),
            option("brief", None),
            option("out", Some("FILE")),
            positional("rest"),
        ])
    );
}

#[test]
fn inline_value_is_not_read_as_flags() {
    assert_eq!(parser(&["prog", "-oab"]).tokenize(), Ok(vec![option("out", Some("ab"))]));
    assert_eq!(parser(&["prog", "-ozzz"]).tokenize(), Ok(vec![option("out", Some("zzz"))]));
    assert_eq!(parser(&["prog", "-o=x"]).tokenize(), Ok(vec![option("out", Some("=x"))]));
}

#[test]
fn value_is_taken_verbatim_whatever_it_looks_like() {
    assert_eq!(parser(&["prog", "-o", "-a"]).tokenize(), Ok(vec![option("out", Some("-a"))]));
    assert_eq!(
        parser(&["prog", "--out", "--all"]).tokenize(),
        Ok(vec![option("out", Some("--all"))])
    );
    assert_eq!(parser(&["prog", "-o", ""]).tokenize(), Ok(vec![option("out", Some(""))]));
}

#[test]
fn long_value_splits_at_first_equals() {
    assert_eq!(parser(&["prog", "--out=a=b"]).tokenize(), Ok(vec![option("out", Some("a=b"))]));
    assert_eq!(parser(&["prog", "--out=="]).tokenize(), Ok(vec![option("out", Some("="))]));
}

#[test]
fn long_flag_without_value_leaves_next_element_alone() {
    assert_eq!(
        parser(&["prog", "--all", "FILE"]).tokenize(),
        Ok(vec![option("all", None), positional("FILE")])
    );
}

#[test]
fn tokens_keep_the_order_of_their_elements() {
    let tokens =
        parser(&["prog", "in", "-a", "--out", "x", "mid", "-boy", "--brief", "end"]).tokenize();
    assert_eq!(
        tokens,
        Ok(vec![
            positional("in"),
            option("all", None),
            option("out", Some("x")),
            positional("mid"),
            option("brief", None),
            option("out", Some("y")),
            option("brief", None),
            positional("end"),
        ])
    );
}

#[test]
fn single_hyphen_is_positional() {
    assert_eq!(parser(&["prog", "-"]).tokenize(), Ok(vec![positional("-")]));
    assert_eq!(parser(&["prog", "-o", "-"]).tokenize(), Ok(vec![option("out", Some("-"))]));
}

#[test]
fn three_hyphens_are_a_long_option_named_hyphen() {
    assert_eq!(
        parser(&["prog", "---"]).tokenize(),
        Err(ParseError::UnknownFlag("-".to_string()))
    );
}

#[test]
fn characters_are_counted_not_bytes() {
    let mut parser = Parser::new(argv(&["prog", "-éüFILE", "é", "--größe=1€", "-ü", "日本"]));
    parser.flag("acute", 'é', "aigu", false).flag("umlaut", 'ü', "größe", true);
    assert_eq!(
        parser.tokenize(),
        Ok(vec![
            option("acute", None),
            option("umlaut", Some("FILE")),
            positional("é"),
            option("umlaut", Some("1€")),
            option("umlaut", Some("日本")),
        ])
    );
}

#[test]
fn unknown_wide_character_is_reported_whole() {
    assert_eq!(
        parser(&["prog", "-a€b"]).tokenize(),
        Err(ParseError::UnknownFlag("€".to_string()))
    );
}

#[test]
fn tokenizing_twice_gives_the_same() {
    let mut parser = parser(&["prog", "-a", "--out=x", "y", "--", "-b"]);
    let first = parser.tokenize();
    let second = parser.tokenize();
    assert_eq!(first, second);
    assert_eq!(
        first,
        Ok(vec![option("all", None), option("out", Some("x")), positional("y"), positional("-b")])
    );
}

#[test]
fn failing_twice_gives_the_same_error() {
    let mut parser = parser(&["prog", "-a", "--nope"]);
    let first = parser.tokenize();
    let second = parser.tokenize();
    assert_eq!(first, Err(ParseError::UnknownFlag("nope".to_string())));
    assert_eq!(first, second);
}

#[test]
fn two_parsers_over_the_same_input_agree() {
    let items = ["prog", "-ab", "--out", "f", "g"];
    assert_eq!(parser(&items).tokenize(), parser(&items).tokenize());
}

#[test]
fn predefined_flags_answer_to_both_forms() {
    let mut parser = Parser::new(argv(&[
        "prog", "-h", "--help", "-V", "--verbose", "-v", "--version", "-d", "--debug", "-hVvd",
    ]));
    parser.help().verbose().version().debug();
    assert_eq!(
        parser.tokenize(),
        Ok(vec![
            option("help", None),
            option("help", None),
            option("verbose", None),
            option("verbose", None),
            option("version", None),
            option("version", None),
            option("debug", None),
            option("debug", None),
            option("help", None),
            option("verbose", None),
            option("version", None),
            option("debug", None),
        ])
    );
}

#[test]
fn predefined_flags_take_no_value() {
    let mut parser = Parser::new(argv(&["prog", "--help=yes"]));
    parser.help();
    assert_eq!(parser.tokenize(), Err(ParseError::BadSyntax("help=yes".to_string())));
}

#[test]
fn builders_chain_from_a_fresh_parser() {
    let tokens = Parser::new(argv(&["prog", "-v", "x"])).help().version().tokenize();
    assert_eq!(tokens, Ok(vec![option("version", None), positional("x")]));
}
