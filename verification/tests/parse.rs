use json_parser::parser::JsonParser;
use json_parser::reader::JsonReader;
use json_parser::token::JsonTokenizer;
use json_parser::token::Token;
use json_parser::value::Number;
use json_parser::value::Value;
use json_parser::JsonError;

fn parse(text: &str) -> Value {
    JsonParser::parse_from_bytes(text.as_bytes()).expect("input should parse")
}

fn float_value(n: &Number) -> f64 {
    match n {
        Number::Integer(_) => panic!("expected a float"),
        Number::Float { mantissa, exponent } => {
            let base: f64 = mantissa.parse().unwrap();
            match exponent {
                Some(e) => base * 10f64.powf(e.parse().unwrap()),
                None => base,
            }
        }
    }
}

#[test]
fn duplicate_keys_resolve_to_last_occurrence() {
    let v = parse("{\"a\":1,\"a\":2}");
    match v {
        Value::Object(entries) => {
            assert_eq!(entries.len(), 1);
            assert_eq!(entries[0].0, "a");
            assert_eq!(entries[0].1, Value::Number(Number::Integer(2)));
        }
        other => panic!("expected an object, got {:?}", other),
    }
}

#[test]
fn array_elements_keep_source_order() {
    let v = parse("[1,\"x\",true]");
    assert_eq!(
        v,
        Value::Array(vec![
            Value::Number(Number::Integer(1)),
            Value::String("x".to_string()),
            Value::Boolean(true),
        ])
    );
}

#[test]
fn number_tagging_integer() {
    assert_eq!(parse("123"), Value::Number(Number::Integer(123)));
    assert_eq!(parse("-5"), Value::Number(Number::Integer(-5)));
}

#[test]
fn number_tagging_plain_float() {
    match parse("123.45") {
        Value::Number(n) => {
            assert_eq!(
                n,
                Number::Float {
                    mantissa: "123.45".to_string(),
                    exponent: None
                }
            );
            assert_eq!(float_value(&n), 123.45);
        }
        other => panic!("expected a number, got {:?}", other),
    }
}

#[test]
fn number_tagging_scientific_float() {
    match parse("1e2") {
        Value::Number(n) => {
            assert_eq!(
                n,
                Number::Float {
                    mantissa: "1".to_string(),
                    exponent: Some("2".to_string())
                }
            );
            assert_eq!(float_value(&n), 100.0);
        }
        other => panic!("expected a number, got {:?}", other),
    }
}

#[test]
fn number_tagging_negative_scientific_float() {
    match parse("-1.5e-2") {
        Value::Number(n) => {
            assert_eq!(
                n,
                Number::Float {
                    mantissa: "-1.5".to_string(),
                    exponent: Some("-2".to_string())
                }
            );
            assert_eq!(float_value(&n), -0.015);
        }
        other => panic!("expected a number, got {:?}", other),
    }
}

#[test]
fn nested_object_and_array() {
    let v = parse("{\"a\":[1,{\"b\":2}]}");
    match v {
        Value::Object(entries) => {
            assert_eq!(entries.len(), 1);
            assert_eq!(entries[0].0, "a");
            match &entries[0].1 {
                Value::Array(els) => {
                    assert_eq!(els.len(), 2);
                    assert_eq!(els[0], Value::Number(Number::Integer(1)));
                    match &els[1] {
                        Value::Object(inner) => {
                            assert_eq!(inner.len(), 1);
                            assert_eq!(inner[0].0, "b");
                            assert_eq!(inner[0].1, Value::Number(Number::Integer(2)));
                        }
                        other => panic!("expected an object, got {:?}", other),
                    }
                }
                other => panic!("expected an array, got {:?}", other),
            }
        }
        other => panic!("expected an object, got {:?}", other),
    }
}

#[test]
fn trailing_token_overrides_top_level_candidate() {
    // The comma ends the first number, so two literals reach the top level
    // and the later one silently overrides the earlier.
    assert_eq!(parse("1,2"), Value::Number(Number::Integer(2)));
    assert_eq!(parse("\"a\" 2"), Value::Number(Number::Integer(2)));
}

#[test]
fn whitespace_inside_a_number_does_not_end_it() {
    // Whitespace is skipped inside number lexing, so two whitespace-separated
    // numbers lex as one numeric token.
    assert_eq!(parse("1 2"), Value::Number(Number::Integer(12)));
}

#[test]
fn multibyte_character_across_read_boundary() {
    // The two-byte character straddles the fixed 4-byte read, forcing the
    // reader's rewind-on-partial-decode path.
    let v = parse("\"aa\u{e9}\"");
    assert_eq!(v, Value::String("aa\u{e9}".to_string()));
}

#[test]
fn reader_rewinds_partial_chunk() {
    let mut r = JsonReader::from_bytes("aaa\u{e9}x".as_bytes());
    assert_eq!(r.next(), Some('a'));
    assert_eq!(r.next(), Some('a'));
    assert_eq!(r.next(), Some('a'));
    assert_eq!(r.next(), Some('\u{e9}'));
    assert_eq!(r.next(), Some('x'));
}

#[test]
fn reader_owns_its_bytes() {
    let mut r = JsonReader::new(vec![b'o', b'k']);
    assert_eq!(r.next(), Some('o'));
    assert_eq!(r.next(), Some('k'));
}

#[test]
fn malformed_true_keyword_aborts() {
    let r = JsonParser::parse_from_bytes(b"tru3");
    assert_eq!(r, Err(JsonError::MalformedLiteral));
}

#[test]
fn malformed_false_and_null_keywords_abort() {
    assert_eq!(
        JsonParser::parse_from_bytes(b"falze"),
        Err(JsonError::MalformedLiteral)
    );
    assert_eq!(
        JsonParser::parse_from_bytes(b"nul"),
        Err(JsonError::MalformedLiteral)
    );
}

#[test]
fn unexpected_character_aborts() {
    assert_eq!(
        JsonParser::parse_from_bytes(b"x"),
        Err(JsonError::UnexpectedCharacter)
    );
    // A bare dot starts no token.
    assert_eq!(
        JsonParser::parse_from_bytes(b".5"),
        Err(JsonError::UnexpectedCharacter)
    );
}

#[test]
fn double_exponent_marker_aborts() {
    assert_eq!(
        JsonParser::parse_from_bytes(b"1e2e2"),
        Err(JsonError::DoubleExponent)
    );
}

#[test]
fn unparseable_number_text_aborts() {
    assert_eq!(
        JsonParser::parse_from_bytes(b"--1"),
        Err(JsonError::InvalidNumber)
    );
    assert_eq!(
        JsonParser::parse_from_bytes(b"1.2.3"),
        Err(JsonError::InvalidNumber)
    );
    // One past the largest signed 64-bit integer.
    assert_eq!(
        JsonParser::parse_from_bytes(b"9223372036854775808"),
        Err(JsonError::InvalidNumber)
    );
}

#[test]
fn smallest_integer_parses() {
    assert_eq!(
        parse("-9223372036854775808"),
        Value::Number(Number::Integer(i64::MIN))
    );
}

#[test]
fn empty_object_and_empty_array() {
    assert_eq!(parse("{}"), Value::Object(vec![]));
    assert_eq!(parse("[]"), Value::Array(vec![]));
}

#[test]
fn empty_input_yields_null() {
    assert_eq!(parse(""), Value::Null);
}

#[test]
fn literals_parse() {
    assert_eq!(parse(" true "), Value::Boolean(true));
    assert_eq!(parse("false"), Value::Boolean(false));
    assert_eq!(parse("null"), Value::Null);
}

#[test]
fn backslash_is_an_ordinary_character() {
    assert_eq!(parse("\"a\\b\""), Value::String("a\\b".to_string()));
}

#[test]
fn nul_byte_ends_tokenizing() {
    // Everything after the sentinel is never looked at.
    assert_eq!(
        JsonParser::parse_from_bytes(b"true\0x"),
        Ok(Value::Boolean(true))
    );
}

#[test]
fn plain_decimal_keeps_trailing_dot_form() {
    match parse("5.") {
        Value::Number(n) => {
            assert_eq!(
                n,
                Number::Float {
                    mantissa: "5.".to_string(),
                    exponent: None
                }
            );
            assert_eq!(float_value(&n), 5.0);
        }
        other => panic!("expected a number, got {:?}", other),
    }
}

#[test]
fn leading_plus_is_dropped_inside_numbers() {
    assert_eq!(parse("[1e+2]"), {
        Value::Array(vec![Value::Number(Number::Float {
            mantissa: "1".to_string(),
            exponent: Some("2".to_string()),
        })])
    });
}

#[test]
fn tokenizer_produces_document_order_tokens() {
    let mut t = JsonTokenizer::from_bytes(b"{\"a\":1}");
    let toks = t.tokenize_json().expect("should tokenize");
    assert_eq!(
        toks,
        vec![
            Token::CurlyOpen,
            Token::Quotes,
            Token::String("a".to_string()),
            Token::Quotes,
            Token::Colon,
            Token::Number(Number::Integer(1)),
            Token::CurlyClose,
        ]
    );
}

#[test]
fn object_values_of_every_kind() {
    let v = parse("{\"a\":true,\"b\":null,\"c\":\"s\",\"d\":[2],\"e\":{\"f\":3}}");
    match v {
        Value::Object(entries) => {
            assert_eq!(entries.len(), 5);
            assert_eq!(entries[0], ("a".to_string(), Value::Boolean(true)));
            assert_eq!(entries[1], ("b".to_string(), Value::Null));
            assert_eq!(
                entries[2],
                ("c".to_string(), Value::String("s".to_string()))
            );
            assert_eq!(
                entries[3],
                (
                    "d".to_string(),
                    Value::Array(vec![Value::Number(Number::Integer(2))])
                )
            );
            assert_eq!(
                entries[4],
                (
                    "e".to_string(),
                    Value::Object(vec![(
                        "f".to_string(),
                        Value::Number(Number::Integer(3))
                    )])
                )
            );
        }
        other => panic!("expected an object, got {:?}", other),
    }
}
