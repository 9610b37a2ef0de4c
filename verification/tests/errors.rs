use seap::cli_parser::{ParseError, Parser};

fn argv(items: &[&str]) -> Vec<String> {
    items.iter().map(|item| item.to_string()).collect()
}

fn parser(items: &[&str]) -> Parser {
    let mut parser = Parser::new(argv(items));
    parser.flag("out", 'o', "out", true).flag("all", 'a', "all", false);
    parser
}

#[test]
fn unknown_short_flag() {
    assert_eq!(parser(&["prog", "-z"]).tokenize(), Err(ParseError::UnknownFlag("z".to_string())));
}

#[test]
fn unknown_short_flag_inside_a_cluster() {
    assert_eq!(
        parser(&["prog", "-azo", "x"]).tokenize(),
        Err(ParseError::UnknownFlag("z".to_string()))
    );
}

#[test]
fn unknown_long_flag() {
    assert_eq!(
        parser(&["prog", "--output"]).tokenize(),
        Err(ParseError::UnknownFlag("output".to_string()))
    );
}

#[test]
fn unknown_long_flag_with_value() {
    assert_eq!(
        parser(&["prog", "--output=FILE"]).tokenize(),
        Err(ParseError::UnknownFlag("output".to_string()))
    );
}

#[test]
fn long_form_is_not_a_short_form() {
    assert_eq!(parser(&["prog", "--o"]).tokenize(), Err(ParseError::UnknownFlag("o".to_string())));
    assert_eq!(parser(&["prog", "-all"]).tokenize(), Err(ParseError::UnknownFlag("l".to_string())));
}

#[test]
fn missing_value_for_short_flag() {
    assert_eq!(
        parser(&["prog", "-o"]).tokenize(),
        Err(ParseError::MissingValue("out".to_string()))
    );
}

#[test]
fn missing_value_for_short_flag_at_cluster_end() {
    assert_eq!(
        parser(&["prog", "x", "-ao"]).tokenize(),
        Err(ParseError::MissingValue("out".to_string()))
    );
}

#[test]
fn missing_value_for_long_flag() {
    assert_eq!(
        parser(&["prog", "--out"]).tokenize(),
        Err(ParseError::MissingValue("out".to_string()))
    );
}

#[test]
fn missing_value_names_the_flag_not_the_key() {
    let mut parser = Parser::new(argv(&["prog", "-f"]));
    parser.flag("input-file", 'f', "file", true);
    assert_eq!(parser.tokenize(), Err(ParseError::MissingValue("input-file".to_string())));
}

#[test]
fn empty_value_after_equals() {
    assert_eq!(
        parser(&["prog", "--out="]).tokenize(),
        Err(ParseError::BadSyntax("out=".to_string()))
    );
}

#[test]
fn empty_key_before_equals() {
    assert_eq!(
        parser(&["prog", "--=FILE"]).tokenize(),
        Err(ParseError::BadSyntax("=FILE".to_string()))
    );
}

#[test]
fn lone_equals_is_bad_syntax() {
    assert_eq!(parser(&["prog", "--="]).tokenize(), Err(ParseError::BadSyntax("=".to_string())));
}

#[test]
fn empty_side_is_reported_before_the_key_is_looked_up() {
    assert_eq!(
        parser(&["prog", "--nope="]).tokenize(),
        Err(ParseError::BadSyntax("nope=".to_string()))
    );
}

#[test]
fn equals_value_for_flag_without_value() {
    assert_eq!(
        parser(&["prog", "--all=yes"]).tokenize(),
        Err(ParseError::BadSyntax("all=yes".to_string()))
    );
}

#[test]
fn first_error_wins() {
    assert_eq!(
        parser(&["prog", "-z", "--out=", "--out"]).tokenize(),
        Err(ParseError::UnknownFlag("z".to_string()))
    );
    assert_eq!(
        parser(&["prog", "--out=", "-z"]).tokenize(),
        Err(ParseError::BadSyntax("out=".to_string()))
    );
}

#[test]
fn error_after_tokens_gives_only_the_error() {
    assert_eq!(
        parser(&["prog", "ok", "-a", "--out", "x", "-q"]).tokenize(),
        Err(ParseError::UnknownFlag("q".to_string()))
    );
}

#[test]
fn errors_behind_the_terminator_do_not_count() {
    assert!(parser(&["prog", "--", "-z", "--out=", "--out"]).tokenize().is_ok());
}

#[test]
fn message_of_unknown_flag() {
    assert_eq!(ParseError::UnknownFlag("z".to_string()).message(), "flag unknown \"z\"");
}

#[test]
fn message_of_missing_value() {
    assert_eq!(
        ParseError::MissingValue("out".to_string()).message(),
        "missing value for flag \"out\""
    );
}

#[test]
fn message_of_bad_syntax() {
    assert_eq!(ParseError::BadSyntax("out=".to_string()).message(), "bad syntax for flag \"out=\"");
}

#[test]
fn message_quotes_an_empty_subject() {
    assert_eq!(ParseError::UnknownFlag(String::new()).message(), "flag unknown \"\"");
}

#[test]
fn message_of_a_tokenizer_error() {
    let error = parser(&["prog", "--größe"]).tokenize().unwrap_err();
    assert_eq!(error.message(), "flag unknown \"größe\"");
}
