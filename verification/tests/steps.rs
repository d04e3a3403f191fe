use json_parser::data::{
    JsonArray, JsonData, JsonElement, JsonMember, JsonNumber, JsonObject, JsonString, JsonValue,
};
use json_parser::lex::lex;
use json_parser::parse::parse;

/// Tokenize and parse a full text, reporting the first error's message.
fn run(text: &str) -> Result<JsonData, String> {
    match lex(text) {
        Err(e) => Err(e.message()),
        Ok(tokens) => match parse(&tokens) {
            Err(e) => Err(e.message()),
            Ok(d) => Ok(d),
        },
    }
}

fn string_member(key: &str, value: &str) -> JsonMember {
    JsonMember {
        string: JsonString { string: String::from(key) },
        element: JsonElement {
            value: JsonValue::String(JsonString { string: String::from(value) }),
        },
    }
}

fn number_member(key: &str, integer: i64, fraction: Option<u64>, exponent: Option<i64>) -> JsonMember {
    JsonMember {
        string: JsonString { string: String::from(key) },
        element: JsonElement {
            value: JsonValue::Number(JsonNumber { integer, fraction, exponent }),
        },
    }
}

#[test]
fn test_step_1_valid() {
    let expected = JsonData {
        element: JsonElement { value: JsonValue::Object(JsonObject { members: vec![] }) },
    };

    let json_result = run("{}");
    assert!(json_result.is_ok());
    assert_eq!(json_result.unwrap(), expected);
}

#[test]
fn test_step_1_invalid() {
    let json_result = run("");
    assert!(json_result.is_err());
    assert!(json_result.err().unwrap() == "Empty Json");
}

#[test]
fn test_step_2_valid() {
    let expected = JsonData {
        element: JsonElement {
            value: JsonValue::Object(JsonObject { members: vec![string_member("key", "value")] }),
        },
    };

    let json_result = run("{\"key\": \"value\"}");
    assert!(json_result.is_ok());
    assert_eq!(json_result.unwrap(), expected);
}

#[test]
fn test_step_2_invalid() {
    let json_result = run("{\"key\": \"value\",}");
    assert!(json_result.is_err());
    assert!(json_result.err().unwrap() == "Failed to parse members");
}

#[test]
fn test_step_2_valid_2() {
    let expected = JsonData {
        element: JsonElement {
            value: JsonValue::Object(
                JsonObject {
                    members: vec![string_member("key", "value"), string_member("key2", "value")],
                },
            ),
        },
    };

    let json_result = run("{\n  \"key\": \"value\",\n  \"key2\": \"value\"\n}");
    assert!(json_result.is_ok());
    assert_eq!(json_result.unwrap(), expected);
}

#[test]
fn test_step_2_invalid_2() {
    let json_result = run("{\n  \"key\": \"value\",\n  key2: \"value\"\n}");
    assert!(json_result.is_err());
    assert!(json_result.err().unwrap() == "Invalid Character");
}

#[test]
fn test_step_3_valid() {
    let expected = JsonData {
        element: JsonElement {
            value: JsonValue::Object(
                JsonObject {
                    members: vec![
                        JsonMember {
                            string: JsonString { string: String::from("key1") },
                            element: JsonElement { value: JsonValue::True },
                        },
                        JsonMember {
                            string: JsonString { string: String::from("key2") },
                            element: JsonElement { value: JsonValue::False },
                        },
                        JsonMember {
                            string: JsonString { string: String::from("key3") },
                            element: JsonElement { value: JsonValue::Null },
                        },
                        string_member("key4", "value"),
                        number_member("key5", 101, None, None),
                    ],
                },
            ),
        },
    };

    let json_result = run(
        "{\n  \"key1\": true,\n  \"key2\": false,\n  \"key3\": null,\n  \"key4\": \"value\",\n  \"key5\": 101\n}",
    );
    assert!(json_result.is_ok());
    assert_eq!(json_result.unwrap(), expected);
}

#[test]
fn test_step_3_invalid() {
    let json_result = run(
        "{\n  \"key1\": true,\n  \"key2\": False,\n  \"key3\": null,\n  \"key4\": \"value\",\n  \"key5\": 101\n}",
    );
    assert!(json_result.is_err());
    assert!(json_result.err().unwrap() == "Invalid Character");
}

#[test]
fn test_step_4_valid() {
    assert!(run("{\n  \"key\": \"value\",\n  \"key-n\": 101,\n  \"key-o\": {},\n  \"key-l\": []\n}").is_ok());
}

#[test]
fn test_step_4_valid_2() {
    assert!(
        run(
            "{\n  \"key\": \"value\",\n  \"key-n\": 101,\n  \"key-o\": {\n    \"inner key\": \"inner value\"\n  },\n  \"key-l\": [\"list value\"]\n}",
        ).is_ok(),
    );
}

#[test]
fn test_step_4_invalid() {
    assert!(
        run(
            "{\n  \"key\": \"value\",\n  \"key-n\": 101,\n  \"key-o\": {\n    \"inner key\": \"inner value\"\n  },\n  \"key-l\": ['list value']\n}",
        ).is_err(),
    );
}

#[test]
fn test_step_5_valid() {
    let expected = JsonData {
        element: JsonElement {
            value: JsonValue::Object(
                JsonObject {
                    members: vec![
                        number_member("key1", 100, None, None),
                        number_member("key2", 100, Some(0), None),
                        number_member("key3", 100, Some(0), Some(10)),
                        number_member("key4", 100, Some(0), Some(-10)),
                        number_member("key5", 100, Some(0), Some(10)),
                        number_member("key6", 999, Some(9999), Some(999)),
                        number_member("key7", 0, Some(0), Some(0)),
                        number_member("key8", 100, None, Some(8)),
                        number_member("key9", 9_223_372_036_854_775_807i64, None, None),
                    ],
                },
            ),
        },
    };

    let json_result = run(
        "{\n  \"key1\": 100,\n  \"key2\": 100.0,\n  \"key3\": 100.0e10,\n  \"key4\": 100.0e-10,\n  \"key5\": 100.0E+10,\n  \"key6\": 999.9999e999,\n  \"key7\": 0.0e0,\n  \"key8\": 100e8,\n  \"key9\": 9223372036854775807\n}",
    );
    assert!(json_result.is_ok());
    assert_eq!(json_result.unwrap(), expected);
}

#[test]
fn test_step_5_valid_2() {
    let expected = JsonData {
        element: JsonElement {
            value: JsonValue::Array(
                JsonArray {
                    elements: vec![
                        JsonElement { value: JsonValue::True },
                        JsonElement { value: JsonValue::False },
                        JsonElement { value: JsonValue::Null },
                    ],
                },
            ),
        },
    };
    let json_result = run("[true, false, null]");
    assert!(json_result.is_ok());
    assert_eq!(json_result.unwrap(), expected);
}
