use json_parser::data::{
    JsonArray, JsonData, JsonElement, JsonMember, JsonNumber, JsonObject, JsonString, JsonValue,
    Token,
};
use json_parser::lex::{lex, LexError};
use json_parser::parse::{parse, ParseError};

fn parse_text(text: &str) -> Result<JsonData, ParseError> {
    parse(&lex(text).unwrap())
}

fn value_of(text: &str) -> JsonValue {
    parse_text(text).unwrap().element.value
}

fn number_of(text: &str) -> JsonNumber {
    match value_of(text) {
        JsonValue::Number(n) => n,
        other => panic!("expected a number, got {:?}", other),
    }
}

#[test]
fn empty_input_is_an_error() {
    assert!(matches!(parse_text(""), Err(ParseError::EmptyInput)));
}

#[test]
fn empty_object_has_zero_members() {
    let d = parse_text("{}").unwrap();
    match d.element.value {
        JsonValue::Object(o) => assert_eq!(o.members.len(), 0),
        other => panic!("expected an object, got {:?}", other),
    }
}

#[test]
fn empty_array_has_zero_elements() {
    let d = parse_text("[]").unwrap();
    match d.element.value {
        JsonValue::Array(a) => assert_eq!(a.elements.len(), 0),
        other => panic!("expected an array, got {:?}", other),
    }
}

#[test]
fn integer_maximum_is_accepted() {
    let n = number_of("9223372036854775807");
    assert_eq!(n.integer, i64::MAX);
    assert_eq!(n.fraction, None);
    assert_eq!(n.exponent, None);
}

#[test]
fn integer_beyond_maximum_overflows() {
    assert!(matches!(parse_text("9223372036854775808"), Err(ParseError::IntegerOverflow)));
}

#[test]
fn leading_zero_is_rejected() {
    assert!(matches!(parse_text("01"), Err(ParseError::LeadingZero)));
}

#[test]
fn leading_zero_inside_object_is_rejected() {
    assert!(matches!(parse_text("{\"k\":01}"), Err(ParseError::LeadingZero)));
}

#[test]
fn zero_alone_is_valid() {
    let n = number_of("0");
    assert_eq!(n.integer, 0);
    assert_eq!(n.fraction, None);
    assert_eq!(n.exponent, None);
}

#[test]
fn zero_point_five_is_valid() {
    let n = number_of("0.5");
    assert_eq!(n.integer, 0);
    assert_eq!(n.fraction, Some(5));
    assert_eq!(n.exponent, None);
}

#[test]
fn negative_zero_is_zero() {
    let n = number_of("-0");
    assert_eq!(n.integer, 0);
}

#[test]
fn negative_magnitude_is_bounded_by_the_positive_maximum() {
    let n = number_of("-9223372036854775807");
    assert_eq!(n.integer, -i64::MAX);
    assert!(matches!(parse_text("-9223372036854775808"), Err(ParseError::IntegerOverflow)));
}

#[test]
fn empty_string_literal_is_valid() {
    match value_of("\"\"") {
        JsonValue::String(s) => assert_eq!(s.string, ""),
        other => panic!("expected a string, got {:?}", other),
    }
}

#[test]
fn full_number_keeps_all_parts() {
    let n = number_of("-12.34e-56");
    assert_eq!(n.integer, -12);
    assert_eq!(n.fraction, Some(34));
    assert_eq!(n.exponent, Some(-56));
}

#[test]
fn plus_sign_is_no_integer_prefix() {
    assert!(matches!(parse_text("+5"), Err(ParseError::NoElement)));
}

#[test]
fn trailing_comma_in_object_fails() {
    assert!(matches!(parse_text("{\"a\":1,}"), Err(ParseError::MembersFailed)));
}

#[test]
fn trailing_comma_in_array_fails() {
    assert!(matches!(parse_text("[1,]"), Err(ParseError::ElementsFailed)));
}

#[test]
fn triple_nested_empty_arrays() {
    let expected = JsonData {
        element: JsonElement {
            value: JsonValue::Array(
                JsonArray {
                    elements: vec![
                        JsonElement {
                            value: JsonValue::Array(
                                JsonArray {
                                    elements: vec![
                                        JsonElement {
                                            value: JsonValue::Array(JsonArray { elements: vec![] }),
                                        },
                                    ],
                                },
                            ),
                        },
                    ],
                },
            ),
        },
    };
    assert_eq!(parse_text("[[[]]]").unwrap(), expected);
}

#[test]
fn whitespace_is_insignificant() {
    let spaced = parse_text("{ \"a\" : 1 }").unwrap();
    let dense = parse_text("{\"a\":1}").unwrap();
    assert_eq!(spaced, dense);
}

#[test]
fn two_top_level_elements_are_trailing_data() {
    assert!(matches!(parse_text("{\"a\":1}{\"b\":2}"), Err(ParseError::TrailingData)));
}

#[test]
fn single_member_object() {
    let expected = JsonData {
        element: JsonElement {
            value: JsonValue::Object(
                JsonObject {
                    members: vec![
                        JsonMember {
                            string: JsonString { string: String::from("key") },
                            element: JsonElement {
                                value: JsonValue::String(
                                    JsonString { string: String::from("value") },
                                ),
                            },
                        },
                    ],
                },
            ),
        },
    };
    assert_eq!(parse_text("{\"key\":\"value\"}").unwrap(), expected);
}

#[test]
fn duplicate_keys_are_both_retained_in_order() {
    let d = parse_text("{\"a\":1,\"a\":2}").unwrap();
    match d.element.value {
        JsonValue::Object(o) => {
            assert_eq!(o.members.len(), 2);
            assert_eq!(o.members[0].string.string, "a");
            assert_eq!(o.members[1].string.string, "a");
            match (&o.members[0].element.value, &o.members[1].element.value) {
                (JsonValue::Number(x), JsonValue::Number(y)) => {
                    assert_eq!(x.integer, 1);
                    assert_eq!(y.integer, 2);
                },
                other => panic!("expected two numbers, got {:?}", other),
            }
        },
        other => panic!("expected an object, got {:?}", other),
    }
}

#[test]
fn member_order_follows_the_source() {
    let d = parse_text("{\"z\":1,\"a\":2,\"m\":3}").unwrap();
    match d.element.value {
        JsonValue::Object(o) => {
            let keys: Vec<&str> = o.members.iter().map(|m| m.string.string.as_str()).collect();
            assert_eq!(keys, vec!["z", "a", "m"]);
        },
        other => panic!("expected an object, got {:?}", other),
    }
}

#[test]
fn invalid_character_is_a_lex_error() {
    assert!(matches!(lex("@"), Err(LexError::InvalidCharacter)));
}

#[test]
fn control_character_in_string_is_rejected() {
    assert!(matches!(lex("\"a\u{1}b\""), Err(LexError::InvalidUnicodeCharacter)));
}

#[test]
fn unterminated_string_is_rejected() {
    assert!(matches!(lex("\"abc"), Err(LexError::InvalidUnicodeCharacter)));
}

#[test]
fn unknown_escape_is_rejected() {
    assert!(matches!(lex("\"a\\x\""), Err(LexError::InvalidEscapeCharacter)));
}

#[test]
fn short_hex_escape_is_rejected() {
    assert!(matches!(lex("\"\\u12\""), Err(LexError::InvalidEscapeHex)));
}

#[test]
fn bad_hex_escape_is_rejected() {
    assert!(matches!(lex("\"\\uzzzz\""), Err(LexError::InvalidEscapeHex)));
}

#[test]
fn escapes_are_retained_as_written() {
    match value_of("\"a\\nb\"") {
        JsonValue::String(s) => assert_eq!(s.string, "a\\nb"),
        other => panic!("expected a string, got {:?}", other),
    }
}

#[test]
fn hex_escape_is_retained_as_written() {
    match value_of("\"\\u0041\"") {
        JsonValue::String(s) => assert_eq!(s.string, "\\u0041"),
        other => panic!("expected a string, got {:?}", other),
    }
}

#[test]
fn unclosed_object_is_reported() {
    assert!(matches!(parse_text("{"), Err(ParseError::UnclosedObject)));
}

#[test]
fn unclosed_array_is_reported() {
    assert!(matches!(parse_text("[1"), Err(ParseError::UnclosedArray)));
}

#[test]
fn missing_colon_is_reported() {
    assert!(matches!(parse_text("{\"a\" 1}"), Err(ParseError::MissingColon)));
}

#[test]
fn missing_value_after_colon_is_reported() {
    assert!(matches!(parse_text("{\"a\":}"), Err(ParseError::NoElementForKey)));
}

#[test]
fn colon_alone_is_no_element() {
    assert!(matches!(parse_text(":"), Err(ParseError::NoElement)));
}

#[test]
fn bare_minus_has_no_digits() {
    assert!(matches!(parse_text("-"), Err(ParseError::NoDigitsAfterSign)));
}

#[test]
fn fraction_marker_needs_digits() {
    assert!(matches!(parse_text("1."), Err(ParseError::NoDigitsAfterFractionMarker)));
}

#[test]
fn exponent_marker_needs_digits() {
    assert!(matches!(parse_text("1e"), Err(ParseError::NoDigitsAfterExponent)));
}

#[test]
fn signed_exponent_needs_digits() {
    assert!(matches!(parse_text("1e+"), Err(ParseError::NoDigitsAfterSign)));
}

#[test]
fn fraction_overflow_is_reported() {
    assert!(matches!(parse_text("1.18446744073709551616"), Err(ParseError::IntegerOverflow)));
}

#[test]
fn tokens_carry_digit_values() {
    let tokens = lex("70").unwrap();
    assert_eq!(tokens, vec![Token::Digit(7), Token::Digit(0)]);
}

#[test]
fn whitespace_is_never_a_token() {
    let tokens = lex(" \t\r\n").unwrap();
    assert!(tokens.is_empty());
}

#[test]
fn structural_tokens_in_order() {
    let tokens = lex("{}[],:").unwrap();
    assert_eq!(
        tokens,
        vec![
            Token::OpenParen,
            Token::CloseParen,
            Token::OpenBracket,
            Token::CloseBracket,
            Token::Comma,
            Token::Colon,
        ],
    );
}

#[test]
fn string_token_carries_its_content() {
    let tokens = lex("\"hello\"").unwrap();
    assert_eq!(tokens, vec![Token::String(String::from("hello"))]);
}

#[test]
fn number_primitives_are_atomic_tokens() {
    let tokens = lex("-1.2e+3").unwrap();
    assert_eq!(
        tokens,
        vec![
            Token::SignNeg,
            Token::Digit(1),
            Token::FractionMarker,
            Token::Digit(2),
            Token::ExponentMarker,
            Token::SignPos,
            Token::Digit(3),
        ],
    );
}

#[test]
fn error_messages_match_their_variants() {
    assert_eq!(ParseError::EmptyInput.message(), "Empty Json");
    assert_eq!(ParseError::TrailingData.message(), "Invalid Json: Additional Data Left Over");
    assert_eq!(LexError::InvalidCharacter.message(), "Invalid Character");
}
