use std::str::FromStr;

use addr_spec::escape;
use addr_spec::normalize;
use addr_spec::quote;
use addr_spec::AddrSpec;
use addr_spec::ParseError;
use addr_spec::ParseOptions;
use addr_spec::Parser;

#[test]
fn test_escape() {
    assert_eq!(escape("", &['\\', '"']), "");
    assert_eq!(escape("abc", &['\\', '"']), "abc");
    assert_eq!(escape("a\\b", &['\\', '"']), "a\\\\b");
    assert_eq!(escape("a\"b", &['\\', '"']), "a\\\"b");
    assert_eq!(escape("a\\\"b", &['\\', '"']), "a\\\\\\\"b");
    assert_eq!(escape("😄\"😄😄", &['\\', '"']), "😄\\\"😄😄");
    assert_eq!(escape("😄😄😄\"", &['\\', '"']), "😄😄😄\\\"");
}

#[test]
fn test_quote_escapes_spaces_and_tabs() {
    assert_eq!(quote("a b\tc\\d\"e"), "a\\ b\\\tc\\\\d\\\"e");
}

#[test]
fn test_round_trip_plain() {
    let first = AddrSpec::from_str("jdoe@machine.example").unwrap();
    let again = AddrSpec::from_str(&first.to_string()).unwrap();
    assert_eq!(first, again);
}

#[test]
fn test_round_trip_quoted() {
    let first = AddrSpec::from_str("\"jdoe\\\"x \"@machine.example").unwrap();
    let again = AddrSpec::from_str(&first.to_string()).unwrap();
    assert_eq!(first.local_part(), again.local_part());
    assert_eq!(first.domain(), again.domain());
    assert_eq!(first.is_literal(), again.is_literal());
}

#[test]
fn test_round_trip_literal() {
    let first = AddrSpec::from_str("\"a b\"@[machine example]").unwrap();
    let again = AddrSpec::from_str(&first.to_string()).unwrap();
    assert_eq!(first, again);
    assert!(again.is_literal());
}

#[test]
fn test_round_trip_normalized_unicode() {
    let first = AddrSpec::from_str("jose\u{0301}@exa\u{0301}mple.com").unwrap();
    assert_eq!(first.local_part(), "jos\u{00e9}");
    assert_eq!(first.domain(), "ex\u{00e1}mple.com");
    let again = AddrSpec::from_str(&first.to_string()).unwrap();
    assert_eq!(first, again);
}

#[test]
fn test_normalize_address() {
    assert_eq!(
        &AddrSpec::normalize("\"test\"@example.com").unwrap(),
        "test@example.com"
    );
    assert_eq!(
        AddrSpec::normalize("te..st@example.com").unwrap_err(),
        ParseError("empty label in local part", 3)
    );
}

#[test]
fn test_normalize_idempotent() {
    // U+0065 U+0301 composes to U+00E9 under NFC; the result then
    // normalizes to itself, byte for byte.
    let once = normalize("jose\u{0301}");
    assert_eq!(once, "jos\u{00e9}");
    let twice = normalize(&once);
    assert_eq!(twice, once);
}

#[test]
fn test_parse_applies_nfc() {
    let addr_spec = AddrSpec::from_str("jose\u{0301}@example.com").unwrap();
    assert_eq!(addr_spec.local_part(), "jos\u{00e9}");
    assert_eq!(addr_spec.to_string(), "jos\u{00e9}@example.com");
}

#[test]
fn test_is_quoted_cases() {
    let plain = AddrSpec::new("a.b", "example.com").unwrap();
    assert!(!plain.is_quoted());
    let empty = AddrSpec::from_str("\"\"@example.com").unwrap();
    assert_eq!(empty.local_part(), "");
    assert!(empty.is_quoted());
    assert_eq!(empty.to_string(), "\"\"@example.com");
    let spaced = AddrSpec::new("a b", "example.com").unwrap();
    assert!(spaced.is_quoted());
}

#[test]
fn test_new_validates() {
    let addr_spec = AddrSpec::new("test", "example.com").unwrap();
    assert_eq!(addr_spec.local_part(), "test");
    assert_eq!(addr_spec.domain(), "example.com");
    assert!(!addr_spec.is_literal());
    assert_eq!(addr_spec.to_string(), "test@example.com");
    assert_eq!(
        AddrSpec::new("te\x01st", "example.com").unwrap_err(),
        ParseError("invalid character in local part", 2)
    );
    assert_eq!(
        AddrSpec::new("test", "exa..mple.com").unwrap_err(),
        ParseError("empty label in domain", 4)
    );
    assert_eq!(
        AddrSpec::new("test", "example.com ").unwrap_err(),
        ParseError("invalid character in domain", 11)
    );
    assert_eq!(
        AddrSpec::new("test", "example.com.").unwrap_err(),
        ParseError("empty label in domain", 11)
    );
}

#[test]
fn test_with_literal_validates() {
    let addr_spec = AddrSpec::with_literal("test", "IPv6:2001:db8::1").unwrap();
    assert_eq!(addr_spec.domain(), "IPv6:2001:db8::1");
    assert!(addr_spec.is_literal());
    assert_eq!(addr_spec.to_string(), "test@[IPv6:2001:db8::1]");
    assert_eq!(
        AddrSpec::with_literal("test", "a]b").unwrap_err(),
        ParseError("invalid character in literal domain", 1)
    );
}

#[test]
fn test_unchecked_constructors() {
    let plain = AddrSpec::new_unchecked("test".to_string(), "example.com".to_string());
    assert_eq!(plain.local_part(), "test");
    assert_eq!(plain.domain(), "example.com");
    assert!(!plain.is_literal());
    let literal = AddrSpec::with_literal_unchecked("test".to_string(), "example.com".to_string());
    assert!(literal.is_literal());
    assert_eq!(literal.to_string(), "test@[example.com]");
}

#[test]
fn test_into_parts() {
    let addr_spec = AddrSpec::from_str("\"a\\ b\"@[x y]").unwrap();
    let (local_part, domain) = addr_spec.into_parts();
    assert_eq!(local_part, "a b");
    assert_eq!(domain, "xy");
}

#[test]
fn test_into_serialized_parts() {
    let plain = AddrSpec::new("test", "example.com").unwrap();
    assert_eq!(
        plain.into_serialized_parts(),
        ("test".to_string(), "example.com".to_string())
    );
    let quoted = AddrSpec::new("a b", "example.com").unwrap();
    assert_eq!(
        quoted.into_serialized_parts(),
        ("\"a\\ b\"".to_string(), "example.com".to_string())
    );
    let literal = AddrSpec::with_literal("test", "example.com").unwrap();
    assert_eq!(
        literal.into_serialized_parts(),
        ("test".to_string(), "[example.com]".to_string())
    );
    let both = AddrSpec::with_literal("a\"b", "example.com").unwrap();
    assert_eq!(
        both.into_serialized_parts(),
        ("\"a\\\"b\"".to_string(), "[example.com]".to_string())
    );
}

#[test]
fn test_structural_errors() {
    assert_eq!(
        AddrSpec::from_str("jdoe").unwrap_err(),
        ParseError("expected '@'", 4)
    );
    assert_eq!(
        AddrSpec::from_str("\"jdoe@machine.example").unwrap_err(),
        ParseError("expected '\"' for quoted local part", 21)
    );
    assert_eq!(
        AddrSpec::from_str("(jdoe@machine.example").unwrap_err(),
        ParseError("expected ')' for comment", 21)
    );
    assert_eq!(
        AddrSpec::from_str("jdoe@[machine.example").unwrap_err(),
        ParseError("expected ']' for domain literal", 21)
    );
    assert_eq!(
        AddrSpec::from_str("jdoe@machine.example@x").unwrap_err(),
        ParseError("expected end of address", 20)
    );
    assert_eq!(
        AddrSpec::from_str("te..st@example.com").unwrap_err(),
        ParseError("empty label in local part", 3)
    );
    assert_eq!(
        AddrSpec::from_str("jdoe@machine.example.").unwrap_err(),
        ParseError("empty label in domain", 20)
    );
    assert_eq!(
        AddrSpec::from_str("\"a\\\x01b\"@example.com").unwrap_err(),
        ParseError("invalid character in quoted pair", 3)
    );
    assert_eq!(
        AddrSpec::from_str("\"ab\\").unwrap_err(),
        ParseError("unexpected end of quoted pair", 4)
    );
    assert_eq!(
        AddrSpec::from_str("(a\x01)jdoe@example.com").unwrap_err(),
        ParseError("invalid character in comment", 2)
    );
}

#[test]
fn test_options_disable_sub_grammars() {
    let mut no_literals = ParseOptions::all();
    no_literals.literals = false;
    assert_eq!(
        Parser::with_options("jdoe@[machine.example]", no_literals)
            .parse()
            .unwrap_err(),
        ParseError("empty label in domain", 5)
    );
    let mut no_ws = ParseOptions::all();
    no_ws.white_spaces = false;
    assert_eq!(
        Parser::with_options(" jdoe@machine.example", no_ws)
            .parse()
            .unwrap_err(),
        ParseError("empty label in local part", 0)
    );
    let mut raw = ParseOptions::all();
    raw.normalization = false;
    let addr_spec = Parser::with_options("jose\u{0301}@example.com", raw)
        .parse()
        .unwrap();
    assert_eq!(addr_spec.local_part(), "jose\u{0301}");
}

#[test]
fn test_check_end() {
    let mut parser = Parser::new("test rest");
    parser.parse_dot_atom("empty label in local part").unwrap();
    assert_eq!(
        parser.check_end("expected end of address").unwrap_err(),
        ParseError("expected end of address", 4)
    );
}

#[test]
fn test_character_classes() {
    assert!(addr_spec::is_ascii_control_and_not_htab('\x00'));
    assert!(!addr_spec::is_ascii_control_and_not_htab('\t'));
    assert!(addr_spec::is_ascii_control_or_space(' '));
    assert!(addr_spec::is_ascii_control_or_space('\x7f'));
    assert!(addr_spec::is_not_atext('@'));
    assert!(addr_spec::is_not_atext('"'));
    assert!(!addr_spec::is_not_atext('.'));
    assert!(addr_spec::is_not_dtext('['));
    assert!(!addr_spec::is_not_dtext('('));
}

#[test]
fn test_escaped_embedded_quote() {
    let addr_spec = AddrSpec::from_str("\"jdoe\\\"\"@example.com").unwrap();
    assert_eq!(addr_spec.local_part(), "jdoe\"");
    assert_eq!(addr_spec.to_string(), "\"jdoe\\\"\"@example.com");
}

#[test]
fn test_escaped_trailing_space_without_folding() {
    let mut no_ws = ParseOptions::all();
    no_ws.white_spaces = false;
    let addr_spec = Parser::with_options("\"jdoe\\ \"@machine.example", no_ws)
        .parse()
        .unwrap();
    assert_eq!(addr_spec.local_part(), "jdoe ");
    assert!(!addr_spec.is_literal());
    assert_eq!(addr_spec.to_string(), "\"jdoe\\ \"@machine.example");
}

#[test]
fn test_literal_domain_scenario() {
    let addr_spec = AddrSpec::from_str("test@[example.com]").unwrap();
    assert_eq!(addr_spec.local_part(), "test");
    assert_eq!(addr_spec.domain(), "example.com");
    assert!(addr_spec.is_literal());
    assert_eq!(addr_spec.to_string(), "test@[example.com]");
}

#[test]
fn test_parse_error_accessors() {
    let error = AddrSpec::from_str("te..st@example.com").unwrap_err();
    assert_eq!(error.message(), "empty label in local part");
    assert_eq!(error.index(), 3);
}
