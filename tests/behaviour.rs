use core_engine::glmath::{FourDimVec, ThreeDimVec, TwoDimVec, Vec2, Vec3, Vec4};
use core_engine::lexer::{JsonLexer, ReserveCode, Token, TokenType};
use core_engine::numeric::Decimal;
use core_engine::parser::parse_json;
use core_engine::resources::{Framebuffer, ResourceDestroy, ResourceManager};
use core_engine::rootable::{Rootable, floor_sqrt};
use core_engine::timer::{Stopwatch, whole_units};
use core_engine::value::{JsonArray, JsonNode, JsonObject, JsonValue, JsonValueOps};

fn parse_str(text: &str) -> Option<JsonNode> {
    let mut lexer = JsonLexer::from_raw_json(text).unwrap();
    parse_json(&mut lexer)
}

fn first_token(text: &str) -> TokenType {
    let mut lexer = JsonLexer::from_raw_json(text).unwrap();
    let mut token = Token::default();
    lexer.next_token(&mut token);
    token.get_type()
}

fn number_node(n: i64) -> JsonNode {
    JsonNode::Number(JsonValue::new(n))
}

fn text_of(text: &str) -> String {
    parse_str(text).unwrap().to_string()
}

#[test]
fn empty_containers_have_size_zero() {
    match parse_str("{}") {
        Some(JsonNode::Object(o)) => assert_eq!(o.size(), 0),
        _ => panic!("expected an object"),
    }
    match parse_str("[]") {
        Some(JsonNode::Array(a)) => assert_eq!(a.size(), 0),
        _ => panic!("expected an array"),
    }
}

#[test]
fn nested_array_is_read_in_order() {
    match parse_str(r#"[1, 2, 3.12, 4, 5, 6, ["test", 12]]"#) {
        Some(JsonNode::Array(a)) => {
            assert_eq!(a.size(), 7);
            match a.get(6) {
                Some(JsonNode::Array(inner)) => {
                    assert_eq!(inner.size(), 2);
                    match inner.get(0) {
                        Some(JsonNode::String(s)) => assert_eq!(s.get(), "test"),
                        _ => panic!("expected a string"),
                    }
                    match inner.get(1) {
                        Some(JsonNode::Number(n)) => assert_eq!(*n.get(), 12),
                        _ => panic!("expected a number"),
                    }
                }
                _ => panic!("expected an array"),
            }
            match a.get(2) {
                Some(JsonNode::Float(f)) => assert_eq!(*f.get(), Decimal { mantissa: 312, exponent: -2 }),
                _ => panic!("expected a decimal"),
            }
        }
        _ => panic!("expected an array"),
    }
}

#[test]
fn float_literal_decodes_exactly() {
    match parse_str("-10.0123e2") {
        Some(JsonNode::Float(f)) => {
            assert_eq!(*f.get(), Decimal { mantissa: -100123, exponent: -2 })
        }
        _ => panic!("expected a decimal"),
    }
    assert_eq!(first_token("1.50"), TokenType::Float { value: Decimal { mantissa: 15, exponent: -1 } });
    assert_eq!(first_token("0.0"), TokenType::Float { value: Decimal { mantissa: 0, exponent: 0 } });
    assert_eq!(first_token("-0.000"), TokenType::Float { value: Decimal { mantissa: 0, exponent: 0 } });
    assert_eq!(first_token("2500E+1"), TokenType::Float { value: Decimal { mantissa: 25, exponent: 3 } });
    assert_eq!(first_token("7e-0"), TokenType::Float { value: Decimal { mantissa: 7, exponent: 0 } });
}

#[test]
fn integers_at_the_edges_of_i64() {
    assert_eq!(first_token("9223372036854775807"), TokenType::Number { value: i64::MAX });
    assert_eq!(first_token("-9223372036854775808"), TokenType::Number { value: i64::MIN });
    assert_eq!(first_token("9223372036854775808"), TokenType::Undefined);
    assert_eq!(first_token("007"), TokenType::Number { value: 7 });
}

#[test]
fn malformed_numbers_are_undefined() {
    assert_eq!(first_token("-"), TokenType::Undefined);
    assert_eq!(first_token("12."), TokenType::Undefined);
    assert_eq!(first_token("12.e3"), TokenType::Undefined);
    assert_eq!(first_token("5e"), TokenType::Undefined);
    assert_eq!(first_token("5e+"), TokenType::Undefined);
    assert_eq!(first_token("1e99999999999999999999999"), TokenType::Undefined);
    assert_eq!(first_token("12345678901234567890.5"), TokenType::Undefined);
    assert!(parse_str("5123e-").is_none());
}

#[test]
fn literals_punctuation_and_unknown_characters() {
    assert_eq!(first_token("  true"), TokenType::Boolean { value: true });
    assert_eq!(first_token("false"), TokenType::Boolean { value: false });
    assert_eq!(first_token("null"), TokenType::Null);
    assert_eq!(first_token(":"), TokenType::Reserve { reserve_id: ReserveCode::Colon });
    assert_eq!(first_token("@"), TokenType::Undefined);
    assert_eq!(first_token("nul"), TokenType::Undefined);
    assert_eq!(first_token(""), TokenType::Undefined);
    assert_eq!(first_token(" \t\r\n "), TokenType::Undefined);
}

#[test]
fn strings_keep_escapes_verbatim() {
    assert_eq!(first_token(r#""a\"b""#), TokenType::String { value: r#"a\"b"#.to_string() });
    assert_eq!(first_token("\"caf\u{e9} \u{1F600}\""), TokenType::String { value: "caf\u{e9} \u{1F600}".to_string() });
    assert_eq!(first_token("\"open"), TokenType::Undefined);
    assert_eq!(first_token("\"a\nb\""), TokenType::Undefined);
}

#[test]
fn undefined_ends_the_token_stream() {
    let mut lexer = JsonLexer::from_raw_json("[@, 1]").unwrap();
    let mut token = Token::default();
    lexer.next_token(&mut token);
    assert_eq!(token.get_type(), TokenType::Reserve { reserve_id: ReserveCode::OpenBracket });
    lexer.next_token(&mut token);
    assert_eq!(token.get_type(), TokenType::Undefined);
    lexer.next_token(&mut token);
    assert_eq!(token.get_type(), TokenType::Undefined);
}

#[test]
fn grammar_violations_give_no_tree() {
    assert!(parse_str("").is_none());
    assert!(parse_str(r#"{"a" 1}"#).is_none());
    assert!(parse_str(r#"{"a": 1"#).is_none());
    assert!(parse_str("[1, 2").is_none());
    assert!(parse_str("[1,]").is_none());
    assert!(parse_str("{1: 2}").is_none());
    assert!(parse_str("]").is_none());
    assert!(parse_str(r#"{"a": }"#).is_none());
}

#[test]
fn only_the_first_value_is_read() {
    match parse_str("1 2") {
        Some(JsonNode::Number(n)) => assert_eq!(*n.get(), 1),
        _ => panic!("expected a number"),
    }
}

#[test]
fn repeated_key_takes_the_last_value() {
    match parse_str(r#"{"a": 1, "b": 2, "a": 3}"#) {
        Some(JsonNode::Object(o)) => {
            assert_eq!(o.size(), 2);
            match o.get("a") {
                Some(JsonNode::Number(n)) => assert_eq!(*n.get(), 3),
                _ => panic!("expected a number"),
            }
            assert_eq!(o.keys(), vec!["a".to_string(), "b".to_string()]);
        }
        _ => panic!("expected an object"),
    }
}

#[test]
fn compact_text_is_exact() {
    assert_eq!(text_of(r#"{ "a" : 1, "b" : [ true, false, null ], "c" : "x" }"#), r#"{"a":1,"b":[true,false,null],"c":"x"}"#);
    assert_eq!(text_of("[]"), "[]");
    assert_eq!(text_of("{}"), "{}");
    assert_eq!(text_of("-10.0123e2"), "-1001.23");
    assert_eq!(text_of("5000"), "5000");
    assert_eq!(text_of("5e3"), "5e3");
    assert_eq!(text_of("0.005"), "5e-3");
    assert_eq!(text_of("3.0"), "3.0");
    assert_eq!(text_of("-0.0"), "0.0");
    assert_eq!(text_of("-9223372036854775808"), "-9223372036854775808");
}

#[test]
fn strings_are_escaped_on_output() {
    let node = JsonNode::String(JsonValue::new("q\"b\\n\nt\t\u{1}".to_string()));
    assert_eq!(node.to_string(), "\"q\\\"b\\\\n\\nt\\t\\u0001\"");
    let mut o = JsonObject::new();
    o.add("k\"", JsonNode::Null);
    assert_eq!(o.to_string(), "{\"k\\\"\":null}");
}

#[test]
fn reparsing_compact_text_gives_the_same_tree() {
    let text = r#"{"glossary": {"title": "example glossary", "n": [1, -2.50, 3e-7, {"x": null}]}, "flag": true}"#;
    let first = parse_str(text).unwrap();
    let compact = first.to_string();
    let second = parse_str(&compact).unwrap();
    assert!(first.eq(&second));
    assert_eq!(second.to_string(), compact);
}

#[test]
fn equality_ignores_member_order() {
    let a = parse_str(r#"{"a": 1, "b": [1, 2]}"#).unwrap();
    let b = parse_str(r#"{"b": [1, 2], "a": 1}"#).unwrap();
    let c = parse_str(r#"{"b": [2, 1], "a": 1}"#).unwrap();
    assert!(a == b);
    assert!(a != c);
    assert!(number_node(1) != JsonNode::Null);
}

#[test]
fn object_accessors() {
    let mut o = JsonObject::new();
    o.add("a", number_node(1));
    o.add("b", number_node(2));
    o.add("a", number_node(3));
    assert_eq!(o.size(), 2);
    assert!(o.contains_key("b"));
    assert!(!o.contains_key("z"));
    if let Some(JsonNode::Number(n)) = o.get_mut("b") {
        n.set(20);
    }
    match o.get("b") {
        Some(JsonNode::Number(n)) => assert_eq!(*n.get(), 20),
        _ => panic!("expected a number"),
    }
    assert!(o.get_mut("z").is_none());
    match o.remove("a") {
        Some(JsonNode::Number(n)) => assert_eq!(*n.get(), 3),
        _ => panic!("expected a number"),
    }
    assert!(o.remove("a").is_none());
    assert_eq!(o.size(), 1);
}

#[test]
fn array_accessors() {
    let mut a = JsonArray::new();
    a.add(number_node(1));
    a.add(number_node(2));
    a.add(number_node(3));
    assert!(a.get(3).is_none());
    assert!(a.get_mut(5).is_none());
    if let Some(JsonNode::Number(n)) = a.get_mut(0) {
        *n.get_mut() = 10;
    }
    match a.remove(1) {
        Some(JsonNode::Number(n)) => assert_eq!(*n.get(), 2),
        _ => panic!("expected a number"),
    }
    assert!(a.remove(2).is_none());
    assert_eq!(a.size(), 2);
    assert_eq!(JsonNode::Array(a).to_string(), "[10,3]");
}

#[test]
fn decimal_new_normalizes() {
    assert_eq!(Decimal::new(1500, 0), Some(Decimal { mantissa: 15, exponent: 2 }));
    assert_eq!(Decimal::new(-120, -3), Some(Decimal { mantissa: -12, exponent: -2 }));
    assert_eq!(Decimal::new(0, 9), Some(Decimal { mantissa: 0, exponent: 0 }));
    assert_eq!(Decimal::new(5, i64::MAX), Some(Decimal { mantissa: 5, exponent: i64::MAX }));
    assert_eq!(Decimal::new(50, i64::MAX), None);
}

#[test]
fn vector_swizzles() {
    let v = Vec4::new(1, 2, 3, 4);
    assert_eq!(*v.w(), 4);
    let s = v.wzyx();
    assert_eq!((s.x, s.y, s.z, s.w), (4, 3, 2, 1));
    let t = v.zxy();
    assert_eq!((t.x, t.y, t.z), (3, 1, 2));
    let u = Vec3::new(7, 8, 9).yx();
    assert_eq!((u.x, u.y), (8, 7));
    let p = Vec2::new(5, 6).yx();
    assert_eq!((p.x, p.y), (6, 5));
    assert_eq!(*Vec2::new(5, 6).x(), 5);
}

#[test]
fn whole_square_roots() {
    assert_eq!(floor_sqrt(0), 0);
    assert_eq!(floor_sqrt(15), 3);
    assert_eq!(floor_sqrt(16), 4);
    assert_eq!(floor_sqrt(u64::MAX), 4294967295);
    assert_eq!(99u32.sqrt(), 9);
    assert_eq!((-4i32).sqrt(), 0);
    assert_eq!(1_000_000i64.sqrt(), 1000);
    assert_eq!(u64::MAX.sqrt(), 4294967295);
}

#[test]
fn stopwatch_units() {
    assert_eq!(whole_units(Some(2_500_000), 1_000_000), 2);
    assert_eq!(whole_units(Some(1_999), 1_000), 1);
    assert_eq!(whole_units(None, 1), 0);
    let mut watch = Stopwatch::new();
    watch.start();
    assert!(watch.elapsed_nanos() >= 0);
    assert!(watch.elapsed_micros() >= 0);
    assert!(watch.elapsed_millis() >= 0);
}

struct Counted {
    destroyed: u32,
}

impl ResourceDestroy for Counted {
    fn destroy(&mut self) {
        self.destroyed += 1;
    }
}

#[test]
fn resource_registry() {
    let mut textures: ResourceManager<Counted> = ResourceManager::new("Textures");
    assert_eq!(textures.get_name(), "Textures");
    textures.add_registry("a", Counted { destroyed: 0 });
    textures.add_registry("b", Counted { destroyed: 5 });
    textures.add_registry("a", Counted { destroyed: 7 });
    assert_eq!(textures.get_registry("a").unwrap().destroyed, 7);
    assert!(textures.get_registry("c").is_none());
    textures.destroy_all();
    assert_eq!(textures.get_registry("a").unwrap().destroyed, 8);
    assert_eq!(textures.get_registry("b").unwrap().destroyed, 6);
    let mut buffers: ResourceManager<Framebuffer> = ResourceManager::new("Framebuffers");
    buffers.add_registry("main", Framebuffer {});
    buffers.destroy_all();
    assert!(buffers.get_registry("main").is_some());
}
