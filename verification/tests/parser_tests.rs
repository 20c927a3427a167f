use addr_spec::ParseError;
use addr_spec::ParseOptions;
use addr_spec::Parser;

fn no_white_spaces() -> ParseOptions {
    let mut options = ParseOptions::all();
    options.white_spaces = false;
    options
}

#[test]
fn test_parse_local_part() {
    assert_eq!(&Parser::new("test").parse_local_part().unwrap(), "test")
}

#[test]
fn test_parse_empty_local_part() {
    assert_eq!(
        Parser::new("").parse_local_part().unwrap_err(),
        ParseError("empty label in local part", 0)
    )
}

#[test]
fn test_parse_local_part_with_empty_label_in_front() {
    assert_eq!(
        Parser::new(".test").parse_local_part().unwrap_err(),
        ParseError("empty label in local part", 0)
    )
}

#[test]
fn test_parse_local_part_with_empty_label_in_middle() {
    assert_eq!(
        Parser::new("te..st").parse_local_part().unwrap_err(),
        ParseError("empty label in local part", 3)
    )
}

#[test]
fn test_parse_local_part_with_empty_label_in_back() {
    assert_eq!(
        Parser::new("test.").parse_local_part().unwrap_err(),
        ParseError("empty label in local part", 4)
    )
}

#[test]
fn test_parse_domain() {
    assert_eq!(
        Parser::new("test").parse_domain().unwrap(),
        ("test".to_string(), false)
    )
}

#[test]
fn test_parse_empty_domain() {
    assert_eq!(
        Parser::new("").parse_domain().unwrap_err(),
        ParseError("empty label in domain", 0)
    )
}

#[test]
fn test_parse_domain_with_empty_label_in_front() {
    assert_eq!(
        Parser::new(".test").parse_domain().unwrap_err(),
        ParseError("empty label in domain", 0)
    )
}

#[test]
fn test_parse_domain_with_empty_label_in_middle() {
    assert_eq!(
        Parser::new("te..st").parse_domain().unwrap_err(),
        ParseError("empty label in domain", 3)
    )
}

#[test]
fn test_parse_domain_with_empty_label_in_back() {
    assert_eq!(
        Parser::new("test.").parse_domain().unwrap_err(),
        ParseError("empty label in domain", 4)
    )
}

#[test]
fn test_parse_literal_domain() {
    assert_eq!(
        Parser::new("[test]").parse_domain().unwrap(),
        ("test".to_string(), true)
    )
}

#[test]
fn test_parse_literal_domain_without_bracket() {
    assert_eq!(
        Parser::new("[test").parse_domain().unwrap_err(),
        ParseError("expected ']' for domain literal", 5)
    )
}

#[test]
fn test_parse_empty_literal_domain() {
    assert_eq!(
        Parser::new("[]").parse_domain().unwrap(),
        ("".to_string(), true)
    )
}

#[test]
fn test_parse_empty_literal_domain_without_bracket() {
    assert_eq!(
        Parser::new("[").parse_domain().unwrap_err(),
        ParseError("expected ']' for domain literal", 1)
    )
}

#[test]
fn test_parse_literal_domain_with_white_spaces() {
    assert_eq!(
        Parser::with_options("[te st]", no_white_spaces())
            .parse_domain()
            .unwrap_err(),
        ParseError("expected ']' for domain literal", 3)
    )
}

#[test]
fn parser_test_parse_literal_domain_with_white_spaces() {
    assert_eq!(
        Parser::new("[te st]").parse_domain().unwrap(),
        ("test".to_string(), true)
    )
}

#[test]
fn test_parse_literal_domain_with_fws_in_front() {
    assert_eq!(
        Parser::new("[\r\ntest]").parse_domain().unwrap(),
        ("test".to_string(), true)
    )
}

#[test]
fn test_parse_literal_domain_with_fws_in_middle() {
    assert_eq!(
        Parser::new("[te\r\nst]").parse_domain().unwrap(),
        ("test".to_string(), true)
    )
}

#[test]
fn test_parse_literal_domain_with_fws_in_back() {
    assert_eq!(
        Parser::new("[test\r\n]").parse_domain().unwrap(),
        ("test".to_string(), true)
    )
}
