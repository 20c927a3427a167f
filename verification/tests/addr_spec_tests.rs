use std::str::FromStr;

use addr_spec::AddrSpec;
use addr_spec::ParseError;
use addr_spec::ParseOptions;
use addr_spec::Parser;

fn no_white_spaces() -> ParseOptions {
    let mut options = ParseOptions::all();
    options.white_spaces = false;
    options
}

#[test]
fn test_addr_spec_from_str() {
    let addr_spec = AddrSpec::from_str("jdoe@machine.example").unwrap();
    assert_eq!(addr_spec.local_part(), "jdoe");
    assert_eq!(addr_spec.domain(), "machine.example");
    assert_eq!(addr_spec.to_string(), "jdoe@machine.example");
}

#[test]
fn test_addr_spec_from_str_with_white_space_before_local_part() {
    let addr_spec = AddrSpec::from_str(" jdoe@machine.example").unwrap();
    assert_eq!(addr_spec.local_part(), "jdoe");
    assert_eq!(addr_spec.domain(), "machine.example");
    assert_eq!(addr_spec.to_string(), "jdoe@machine.example");
}

#[test]
fn test_addr_spec_from_str_with_white_space_before_at() {
    let addr_spec = AddrSpec::from_str("jdoe @machine.example").unwrap();
    assert_eq!(addr_spec.local_part(), "jdoe");
    assert_eq!(addr_spec.domain(), "machine.example");
    assert_eq!(addr_spec.to_string(), "jdoe@machine.example");
}

#[test]
fn test_addr_spec_from_str_with_white_space_after_at() {
    let addr_spec = AddrSpec::from_str("jdoe@ machine.example").unwrap();
    assert_eq!(addr_spec.local_part(), "jdoe");
    assert_eq!(addr_spec.domain(), "machine.example");
    assert_eq!(addr_spec.to_string(), "jdoe@machine.example");
}

#[test]
fn test_addr_spec_from_str_with_white_space_after_domain() {
    let addr_spec = AddrSpec::from_str("jdoe@machine.example ").unwrap();
    assert_eq!(addr_spec.local_part(), "jdoe");
    assert_eq!(addr_spec.domain(), "machine.example");
    assert_eq!(addr_spec.to_string(), "jdoe@machine.example");
}

#[test]
fn test_addr_spec_from_str_with_comments_before_local_part() {
    let addr_spec = AddrSpec::from_str("(John Doe)jdoe@machine.example").unwrap();
    assert_eq!(addr_spec.local_part(), "jdoe");
    assert_eq!(addr_spec.domain(), "machine.example");
    assert_eq!(addr_spec.to_string(), "jdoe@machine.example");
}

#[test]
fn test_addr_spec_from_str_with_comments_before_at() {
    let addr_spec = AddrSpec::from_str("jdoe(John Doe)@machine.example").unwrap();
    assert_eq!(addr_spec.local_part(), "jdoe");
    assert_eq!(addr_spec.domain(), "machine.example");
    assert_eq!(addr_spec.to_string(), "jdoe@machine.example");
}

#[test]
fn test_addr_spec_from_str_with_comments_after_at() {
    let addr_spec = AddrSpec::from_str("jdoe@(John Doe)machine.example").unwrap();
    assert_eq!(addr_spec.local_part(), "jdoe");
    assert_eq!(addr_spec.domain(), "machine.example");
    assert_eq!(addr_spec.to_string(), "jdoe@machine.example");
}

#[test]
fn test_addr_spec_from_str_with_comments_after_domain() {
    let addr_spec = AddrSpec::from_str("jdoe@machine.example(John Doe)").unwrap();
    assert_eq!(addr_spec.local_part(), "jdoe");
    assert_eq!(addr_spec.domain(), "machine.example");
    assert_eq!(addr_spec.to_string(), "jdoe@machine.example");
}

#[test]
fn test_addr_spec_from_str_with_nested_comments_before_local_part() {
    let addr_spec = AddrSpec::from_str("(John Doe (The Adventurer))jdoe@machine.example").unwrap();
    assert_eq!(addr_spec.local_part(), "jdoe");
    assert_eq!(addr_spec.domain(), "machine.example");
    assert_eq!(addr_spec.to_string(), "jdoe@machine.example");
}

#[test]
fn test_addr_spec_from_str_with_nested_comments_before_at() {
    let addr_spec = AddrSpec::from_str("jdoe(John Doe (The Adventurer))@machine.example").unwrap();
    assert_eq!(addr_spec.local_part(), "jdoe");
    assert_eq!(addr_spec.domain(), "machine.example");
    assert_eq!(addr_spec.to_string(), "jdoe@machine.example");
}

#[test]
fn test_addr_spec_from_str_with_nested_comments_after_at() {
    let addr_spec = AddrSpec::from_str("jdoe@(John Doe (The Adventurer))machine.example").unwrap();
    assert_eq!(addr_spec.local_part(), "jdoe");
    assert_eq!(addr_spec.domain(), "machine.example");
    assert_eq!(addr_spec.to_string(), "jdoe@machine.example");
}

#[test]
fn test_addr_spec_from_str_with_nested_comments_after_domain() {
    let addr_spec = AddrSpec::from_str("jdoe@machine.example(John Doe (The Adventurer))").unwrap();
    assert_eq!(addr_spec.local_part(), "jdoe");
    assert_eq!(addr_spec.domain(), "machine.example");
    assert_eq!(addr_spec.to_string(), "jdoe@machine.example");
}

#[test]
fn test_addr_spec_from_str_with_empty_labels() {
    let addr_spec = AddrSpec::from_str("\"..\"@machine.example").unwrap();
    assert_eq!(addr_spec.local_part(), "..");
    assert_eq!(addr_spec.domain(), "machine.example");
    assert_eq!(addr_spec.to_string(), "\"..\"@machine.example");
}

#[test]
fn test_addr_spec_from_str_with_quote() {
    let addr_spec = AddrSpec::from_str("\"jdoe\"@machine.example").unwrap();
    assert_eq!(addr_spec.local_part(), "jdoe");
    assert_eq!(addr_spec.domain(), "machine.example");
    assert_eq!(addr_spec.to_string(), "jdoe@machine.example");
}

#[test]
fn test_addr_spec_from_str_with_escape_and_quote() {
    let addr_spec = AddrSpec::from_str("\"jdoe\\\"\"@machine.example").unwrap();
    assert_eq!(addr_spec.local_part(), "jdoe\"");
    assert_eq!(addr_spec.domain(), "machine.example");
    assert_eq!(addr_spec.to_string(), "\"jdoe\\\"\"@machine.example");
}

#[test]
fn test_addr_spec_from_str_with_white_space_escape_and_quote() {
    let addr_spec = AddrSpec::from_str("\"jdoe\\ \"@machine.example").unwrap();
    assert_eq!(addr_spec.local_part(), "jdoe ");
    assert_eq!(addr_spec.domain(), "machine.example");
    assert_eq!(addr_spec.to_string(), "\"jdoe\\ \"@machine.example");
}

#[test]
fn test_addr_spec_from_str_with_white_spaces_and_white_space_escape_and_quote() {
    assert_eq!(
        Parser::with_options("\"jdoe \\  \"@machine.example", no_white_spaces())
            .parse()
            .unwrap_err(),
        ParseError("invalid character in quoted local part", 5)
    );
}

#[test]
fn lib_test_addr_spec_from_str_with_white_spaces_and_white_space_escape_and_quote() {
    let addr_spec = AddrSpec::from_str("\"jdoe \\  \"@machine.example").unwrap();
    assert_eq!(addr_spec.local_part(), "jdoe ");
    assert_eq!(addr_spec.domain(), "machine.example");
    assert_eq!(addr_spec.to_string(), "\"jdoe\\ \"@machine.example");
}

#[test]
fn test_addr_spec_from_str_with_domain_literal() {
    let addr_spec = AddrSpec::from_str("jdoe@[machine.example]").unwrap();
    assert_eq!(addr_spec.local_part(), "jdoe");
    assert_eq!(addr_spec.domain(), "machine.example");
    assert_eq!(addr_spec.to_string(), "jdoe@[machine.example]");
}

#[test]
fn test_addr_spec_from_str_with_escape_and_domain_literal() {
    let addr_spec = AddrSpec::from_str("\"jdoe\"@[machine.example]").unwrap();
    assert_eq!(addr_spec.local_part(), "jdoe");
    assert_eq!(addr_spec.domain(), "machine.example");
    assert_eq!(addr_spec.to_string(), "jdoe@[machine.example]");
}

#[test]
fn test_addr_spec_from_str_with_unicode() {
    let addr_spec = AddrSpec::from_str("😄😄😄@😄😄😄").unwrap();
    assert_eq!(addr_spec.local_part(), "😄😄😄");
    assert_eq!(addr_spec.domain(), "😄😄😄");
    assert_eq!(addr_spec.to_string(), "😄😄😄@😄😄😄");
}

#[test]
fn test_addr_spec_from_str_with_escape_and_unicode() {
    let addr_spec = AddrSpec::from_str("\"😄😄😄\"@😄😄😄").unwrap();
    assert_eq!(addr_spec.local_part(), "😄😄😄");
    assert_eq!(addr_spec.domain(), "😄😄😄");
    assert_eq!(addr_spec.to_string(), "😄😄😄@😄😄😄");
}

#[test]
fn test_addr_spec_from_str_with_escape_and_unicode_and_quote() {
    let addr_spec = AddrSpec::from_str("\"😄😄😄\\\"\"@😄😄😄").unwrap();
    assert_eq!(addr_spec.local_part(), "😄😄😄\"");
    assert_eq!(addr_spec.domain(), "😄😄😄");
    assert_eq!(addr_spec.to_string(), "\"😄😄😄\\\"\"@😄😄😄");
}

#[test]
fn test_addr_spec_from_str_with_escape_and_unicode_and_domain_literal() {
    let addr_spec = AddrSpec::from_str("\"😄😄😄\"@[😄😄😄]").unwrap();
    assert_eq!(addr_spec.local_part(), "😄😄😄");
    assert_eq!(addr_spec.domain(), "😄😄😄");
    assert_eq!(addr_spec.to_string(), "😄😄😄@[😄😄😄]");
}
