use core_engine::lexer::{JsonLexer, ReserveCode, Token, TokenType};
use core_engine::numeric::Decimal;
use core_engine::parser::parse_json;
use core_engine::value::{JsonArray, JsonNode, JsonObject, JsonValue, JsonValueOps};

const HAPPY_TEST: &str = r#"{
        "glossary": {
            "title": "example glossary",
            "GlossDiv": {
                "title": "S",
                "count": 5.123,
                "hours": -1,
                "is_true": false,
                "test_null": null
            }
        },
        "array": [1234567890123, -12.1, "S"]
        }"#;

const SAD_TEST_UNTERMINATED_STR: &str = r#"{
        "glossary: {
            "title": "example glossary",
            "GlossDiv": {
                "title": "S",
                "count": 5.123,
                "hours": -1
            }
        },
        "array": [1234567890123, -12.1, "S"]
        }"#;

// The exponent of "count" has a sign and no digit.
const SAD_TEST_INVALID_FLT: &str = r#"{
            "glossary": {
                "title": "example glossary",
                "GlossDiv": {
                    "title": "S",
                    "count": 5123e-,
                    "hours": -1
                }
            },
            "array": [1234567890123, -12.1, "S"]
        }"#;

fn dec(mantissa: i64, exponent: i64) -> Decimal {
    Decimal { mantissa, exponent }
}

fn float_node(mantissa: i64, exponent: i64) -> JsonNode {
    JsonNode::Float(JsonValue::new(dec(mantissa, exponent)))
}

fn as_f64(d: &Decimal) -> f64 {
    format!("{}e{}", d.mantissa, d.exponent).parse::<f64>().unwrap()
}

fn parse_str(text: &str) -> Option<JsonNode> {
    let mut lexer = JsonLexer::from_raw_json(text).unwrap();
    parse_json(&mut lexer)
}

fn string_node(s: &str) -> JsonNode {
    JsonNode::String(JsonValue::new(s.to_string()))
}

fn number_node(n: i64) -> JsonNode {
    JsonNode::Number(JsonValue::new(n))
}

fn happy_expected() -> JsonObject {
    let mut expected_object = JsonObject::default();
    let mut glossary_object = JsonObject::default();
    let mut glossary_div_object = JsonObject::default();

    glossary_object.add("title", string_node("example glossary"));
    glossary_div_object.add("title", string_node("S"));
    glossary_div_object.add("count", float_node(5123, -3));
    glossary_div_object.add("hours", number_node(-1));
    glossary_div_object.add("is_true", JsonNode::Bool(JsonValue::new(false)));
    glossary_div_object.add("test_null", JsonNode::Null);
    glossary_object.add("GlossDiv", JsonNode::Object(glossary_div_object));
    expected_object.add("glossary", JsonNode::Object(glossary_object));

    let mut expected_array = JsonArray::default();
    expected_array.add(number_node(1234567890123));
    expected_array.add(float_node(-121, -1));
    expected_array.add(string_node("S"));
    expected_object.add("array", JsonNode::Array(expected_array));
    expected_object
}

fn token_types(text: &str) -> Vec<TokenType> {
    let mut lexer = JsonLexer::from_raw_json(text).unwrap();
    let mut token = Token::default();
    let mut found = Vec::new();
    lexer.next_token(&mut token);
    while token.get_type() != TokenType::Undefined {
        found.push(token.get_type());
        lexer.next_token(&mut token);
    }
    found
}

fn reserve(code: ReserveCode) -> TokenType {
    TokenType::Reserve { reserve_id: code }
}

fn string_token(s: &str) -> TokenType {
    TokenType::String { value: s.to_string() }
}

#[test]
fn test_with_empty_objets() {
    let expected_array = JsonArray::new();
    let expected_object = JsonObject::new();

    match parse_str("[]") {
        Some(JsonNode::Array(array)) => {
            assert!(array.eq(&expected_array));
        }
        _ => assert!(false),
    }

    match parse_str("{}") {
        Some(JsonNode::Object(object)) => {
            assert!(object.eq(&expected_object));
        }
        _ => assert!(false),
    }
}

#[test]
fn test_parser_simple() {
    match parse_str(r#""test string""#) {
        Some(JsonNode::String(value)) => {
            assert_eq!(value.get(), "test string");
        }
        _ => {
            assert!(false);
        }
    }

    match parse_str("-100123") {
        Some(JsonNode::Number(value)) => {
            assert_eq!(*value.get(), -100123);
        }
        _ => {
            assert!(false);
        }
    }

    match parse_str("-10.0123e2") {
        Some(JsonNode::Float(value)) => {
            assert_eq!(as_f64(value.get()), -1001.23);
        }
        _ => {
            assert!(false);
        }
    }

    let json_file = parse_str(r#"[1, 2, 3.12, 4, 5, 6, ["test", 12]]"#);
    let mut expected_array = JsonArray::default();
    expected_array.add(number_node(1));
    expected_array.add(number_node(2));
    expected_array.add(float_node(312, -2));
    expected_array.add(number_node(4));
    expected_array.add(number_node(5));
    expected_array.add(number_node(6));
    let mut expected_sub_arr = JsonArray::default();
    expected_sub_arr.add(string_node("test"));
    expected_sub_arr.add(number_node(12));
    expected_array.add(JsonNode::Array(expected_sub_arr));
    assert!(match json_file {
        Some(JsonNode::Array(array)) => array.eq(&expected_array),
        _ => false,
    });

    match parse_str(HAPPY_TEST) {
        Some(JsonNode::Object(json_node)) => {
            assert!(json_node.eq(&happy_expected()));
        }
        _ => assert!(false),
    }
}

#[test]
fn test_unterminated_str() {
    let expected_token_types: Vec<TokenType> = vec![reserve(ReserveCode::OpenBrace), TokenType::Undefined];
    let found = token_types(SAD_TEST_UNTERMINATED_STR);
    for (current_token, t) in found.iter().enumerate() {
        assert_eq!(*t, expected_token_types[current_token]);
    }
    assert_eq!(found.len(), 1);
    assert!(parse_str(SAD_TEST_UNTERMINATED_STR).is_none());
}

#[test]
fn test_invalid_flt() {
    let expected_token_types: Vec<TokenType> = vec![
        reserve(ReserveCode::OpenBrace),
        string_token("glossary"),
        reserve(ReserveCode::Colon),
        reserve(ReserveCode::OpenBrace),
        string_token("title"),
        reserve(ReserveCode::Colon),
        string_token("example glossary"),
        reserve(ReserveCode::Comma),
        string_token("GlossDiv"),
        reserve(ReserveCode::Colon),
        reserve(ReserveCode::OpenBrace),
        string_token("title"),
        reserve(ReserveCode::Colon),
        string_token("S"),
        reserve(ReserveCode::Comma),
        string_token("count"),
        reserve(ReserveCode::Colon),
    ];
    let found = token_types(SAD_TEST_INVALID_FLT);
    assert_eq!(found, expected_token_types);
    assert!(parse_str(SAD_TEST_INVALID_FLT).is_none());
}

#[test]
fn test_json_to_string() {
    let expected_object = happy_expected();
    let string = expected_object.to_string();
    match parse_str(string.as_str()) {
        Some(JsonNode::Object(json_object)) => assert!(json_object.eq(&expected_object)),
        _ => assert!(false),
    }
}

#[test]
fn test_happy_lexer() {
    let expected_token_types: Vec<TokenType> = vec![
        reserve(ReserveCode::OpenBrace),
        string_token("glossary"),
        reserve(ReserveCode::Colon),
        reserve(ReserveCode::OpenBrace),
        string_token("title"),
        reserve(ReserveCode::Colon),
        string_token("example glossary"),
        reserve(ReserveCode::Comma),
        string_token("GlossDiv"),
        reserve(ReserveCode::Colon),
        reserve(ReserveCode::OpenBrace),
        string_token("title"),
        reserve(ReserveCode::Colon),
        string_token("S"),
        reserve(ReserveCode::Comma),
        string_token("count"),
        reserve(ReserveCode::Colon),
        TokenType::Float { value: dec(5123, -3) },
        reserve(ReserveCode::Comma),
        string_token("hours"),
        reserve(ReserveCode::Colon),
        TokenType::Number { value: -1 },
        reserve(ReserveCode::Comma),
        string_token("is_true"),
        reserve(ReserveCode::Colon),
        TokenType::Boolean { value: false },
        reserve(ReserveCode::Comma),
        string_token("test_null"),
        reserve(ReserveCode::Colon),
        TokenType::Null,
        reserve(ReserveCode::CloseBrace),
        reserve(ReserveCode::CloseBrace),
        reserve(ReserveCode::Comma),
        string_token("array"),
        reserve(ReserveCode::Colon),
        reserve(ReserveCode::OpenBracket),
        TokenType::Number { value: 1234567890123 },
        reserve(ReserveCode::Comma),
        TokenType::Float { value: dec(-121, -1) },
        reserve(ReserveCode::Comma),
        string_token("S"),
        reserve(ReserveCode::CloseBracket),
        reserve(ReserveCode::CloseBrace),
    ];
    let found = token_types(HAPPY_TEST);
    assert_eq!(found, expected_token_types);
}
