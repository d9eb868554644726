use stackcheck::error::Error;
use stackcheck::scanner::{print_tokens, scan};

#[test]
fn scans_simple_string() {
    let tokens = scan("\"Hello, world!\"").unwrap();
    assert_eq!(tokens.len(), 1);
    assert_eq!(tokens[0].value, "\"Hello, world!\"");
}

#[test]
fn scans_simple_string_with_escapes() {
    let tokens = scan("\"Hello, \\nworld!\"").unwrap();
    assert_eq!(tokens.len(), 1);
    assert_eq!(tokens[0].value, "\"Hello, \\nworld!\"");
}

#[test]
fn brackets_are_their_own_tokens() {
    let tokens = scan("[Hello, world!]").unwrap();
    assert_eq!(tokens.len(), 5);
    assert_eq!(tokens[0].value, "[");
    assert_eq!(tokens[1].value, "Hello");
    assert_eq!(tokens[2].value, ",");
    assert_eq!(tokens[3].value, "world!");
    assert_eq!(tokens[4].value, "]");
}

#[test]
fn parens_are_their_own_tokens() {
    let tokens = scan("(Hello, world!)").unwrap();
    assert_eq!(tokens.len(), 5);
    assert_eq!(tokens[0].value, "(");
    assert_eq!(tokens[1].value, "Hello");
    assert_eq!(tokens[2].value, ",");
    assert_eq!(tokens[3].value, "world!");
    assert_eq!(tokens[4].value, ")");
}

#[test]
fn braces_are_their_own_tokens() {
    let tokens = scan("{Hello, world!}").unwrap();
    assert_eq!(tokens.len(), 5);
    assert_eq!(tokens[0].value, "{");
    assert_eq!(tokens[1].value, "Hello");
    assert_eq!(tokens[2].value, ",");
    assert_eq!(tokens[3].value, "world!");
    assert_eq!(tokens[4].value, "}");
}

#[test]
fn unterminated_string_is_a_parse_error_on_its_line() {
    let err = scan("\"oops").unwrap_err();
    match err {
        Error::ParseError(message, token) => {
            assert_eq!(message, "Unterminated string");
            assert_eq!(token.line, 1);
        }
        other => panic!("Expected ParseError, got {:?}", other),
    }
}

#[test]
fn unterminated_string_on_later_line() {
    let err = scan("one two\n\"oops").unwrap_err();
    match err {
        Error::ParseError(message, token) => {
            assert_eq!(message, "Unterminated string");
            assert_eq!(token.line, 2);
        }
        other => panic!("Expected ParseError, got {:?}", other),
    }
}

#[test]
fn raw_newline_inside_string_is_a_parse_error() {
    let err = scan("\"broken\nstring\"").unwrap_err();
    match err {
        Error::ParseError(message, token) => {
            assert_eq!(message, "Unterminated string");
            assert_eq!(token.line, 1);
        }
        other => panic!("Expected ParseError, got {:?}", other),
    }
}

#[test]
fn tokens_carry_lines_and_columns() {
    let tokens = scan("ab cd\nx").unwrap();
    assert_eq!(tokens.len(), 3);
    assert_eq!(tokens[0].value, "ab");
    assert_eq!(tokens[0].line, 1);
    assert_eq!(tokens[0].col, 1);
    assert_eq!(tokens[1].value, "cd");
    assert_eq!(tokens[1].line, 1);
    assert_eq!(tokens[1].col, 4);
    assert_eq!(tokens[2].value, "x");
    assert_eq!(tokens[2].line, 2);
    assert_eq!(tokens[2].col, 1);
}

#[test]
fn columns_advance_past_punctuation() {
    let tokens = scan("[ab].cd").unwrap();
    assert_eq!(tokens.len(), 5);
    assert_eq!(tokens[0].value, "[");
    assert_eq!(tokens[0].col, 1);
    assert_eq!(tokens[1].value, "ab");
    assert_eq!(tokens[1].col, 2);
    assert_eq!(tokens[2].value, "]");
    assert_eq!(tokens[2].col, 4);
    assert_eq!(tokens[3].value, ".");
    assert_eq!(tokens[3].col, 5);
    assert_eq!(tokens[4].value, "cd");
    assert_eq!(tokens[4].col, 6);
}

#[test]
fn token_after_a_string_starts_fresh() {
    let tokens = scan("\"ab\"cd").unwrap();
    assert_eq!(tokens.len(), 2);
    assert_eq!(tokens[0].value, "\"ab\"");
    assert_eq!(tokens[0].col, 1);
    assert_eq!(tokens[1].value, "cd");
    assert_eq!(tokens[1].col, 5);
}

#[test]
fn string_tokens_carry_their_opening_column() {
    let tokens = scan("x \"hi\"").unwrap();
    assert_eq!(tokens.len(), 2);
    assert_eq!(tokens[1].value, "\"hi\"");
    assert_eq!(tokens[1].line, 1);
    assert_eq!(tokens[1].col, 3);
}

#[test]
fn scan_of_printed_tokens_gives_back_the_values() {
    let tokens = scan("1 [ dup ] call \"hi there\" swap").unwrap();
    let printed = print_tokens(&tokens);
    let again = scan(printed.as_str()).unwrap();
    assert_eq!(again.len(), tokens.len());
    for i in 0..tokens.len() {
        assert_eq!(again[i].value, tokens[i].value);
    }
}

#[test]
fn merged_word_and_string_token_round_trips() {
    // A pending word running straight into a string merges into one token,
    // and that token still survives the print-and-rescan round trip.
    let tokens = scan("ab\"cd\" x").unwrap();
    assert_eq!(tokens.len(), 2);
    assert_eq!(tokens[0].value, "ab\"cd\"");
    assert_eq!(tokens[1].value, "x");
    let printed = print_tokens(&tokens);
    let again = scan(printed.as_str()).unwrap();
    assert_eq!(again.len(), tokens.len());
    for i in 0..tokens.len() {
        assert_eq!(again[i].value, tokens[i].value);
    }
}

#[test]
fn printed_tokens_use_canonical_spacing() {
    let tokens = scan("  1   2\n+ ").unwrap();
    let printed = print_tokens(&tokens);
    assert_eq!(printed, "1 2 +");
}

#[test]
fn empty_source_scans_to_no_tokens() {
    let tokens = scan("").unwrap();
    assert_eq!(tokens.len(), 0);
}
