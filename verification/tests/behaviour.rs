//! Behaviour of the tokenizer and of deserialization on chosen inputs.
use serde_lite::{
    skip_value, Error, JsonTokenizer, Number, StreamDeserialize, StreamError, Token, Tokenizer,
};

fn tok(json: &str) -> JsonTokenizer {
    JsonTokenizer::new(json.as_bytes().to_vec())
}

fn invalid_json(r: Result<Token, StreamError>) -> String {
    match r {
        Err(StreamError::InvalidJson(m)) => m,
        other => panic!("expected an invalid-JSON error, got {:?}", other),
    }
}

fn invalid_value<V: std::fmt::Debug>(r: Result<V, Error>) -> String {
    match r {
        Err(Error::InvalidValue(m)) => m,
        other => panic!("expected an invalid-value error, got {:?}", other),
    }
}

#[test]
fn string_escapes_are_decoded() {
    let mut t = tok(r#""a\nb\"c\/d\\e\tf\bg\fh\ri""#);
    assert_eq!(
        t.next_token().unwrap(),
        Token::String("a\nb\"c/d\\e\tf\u{8}g\u{c}h\ri".to_string())
    );
    assert_eq!(t.next_token().unwrap(), Token::Eof);
}

#[test]
fn invalid_escape_is_reported() {
    let mut t = tok(r#""a\x""#);
    assert_eq!(invalid_json(t.next_token()), "Invalid escape sequence: \\x");
}

#[test]
fn unicode_escapes_name_characters() {
    let mut t = tok(r#""a\u0041\u00e9\u00E9""#);
    assert_eq!(t.next_token().unwrap(), Token::String("aA\u{e9}\u{e9}".to_string()));
    // A surrogate pair names one character.
    let mut t = tok(r#""\ud83d\ude00""#);
    assert_eq!(t.next_token().unwrap(), Token::String("\u{1F600}".to_string()));
}

#[test]
fn bad_unicode_escapes_are_refused() {
    assert_eq!(invalid_json(tok(r#""\u00G1""#).next_token()), "Invalid unicode escape");
    assert_eq!(
        invalid_json(tok(r#""\ud83d x""#).next_token()),
        "Lone surrogate in unicode escape"
    );
    assert_eq!(
        invalid_json(tok(r#""\ude00""#).next_token()),
        "Lone surrogate in unicode escape"
    );
    assert_eq!(
        invalid_json(tok(r#""\ud83d\u0041""#).next_token()),
        "Lone surrogate in unicode escape"
    );
    assert!(matches!(tok(r#""\u00"#).next_token(), Err(StreamError::UnexpectedEof)));
}

#[test]
fn unterminated_string_is_unexpected_eof() {
    let mut t = tok(r#""abc"#);
    assert!(matches!(t.next_token(), Err(StreamError::UnexpectedEof)));
    assert_eq!(t.next_token().unwrap(), Token::Eof);
}

#[test]
fn strings_are_decoded_as_utf8() {
    let mut t = tok("\"é€😀\"");
    assert_eq!(t.next_token().unwrap(), Token::String("é€😀".to_string()));
    let mut t = JsonTokenizer::new(vec![b'"', 0xC3, 0xA9, b'"']);
    assert_eq!(t.next_token().unwrap(), Token::String("é".to_string()));
}

#[test]
fn malformed_utf8_is_refused() {
    for bytes in [
        vec![b'"', 0xFF, b'"'],
        vec![b'"', 0xC3, b'"'],
        vec![b'"', 0xC0, 0x80, b'"'],
        vec![b'"', 0xED, 0xA0, 0x80, b'"'],
        vec![b'"', 0xF4, 0x90, 0x80, 0x80, b'"'],
    ] {
        let mut t = JsonTokenizer::new(bytes);
        assert_eq!(invalid_json(t.next_token()), "Invalid UTF-8 in string");
    }
}

#[test]
fn end_of_input_repeats() {
    let mut t = tok("  \n\t ");
    assert_eq!(t.next_token().unwrap(), Token::Eof);
    assert_eq!(t.next_token().unwrap(), Token::Eof);
    assert_eq!(t.peek_token().unwrap(), &Token::Eof);
    assert_eq!(t.next_token().unwrap(), Token::Eof);
}

#[test]
fn separators_are_skipped() {
    let mut a = tok("[1,,2 : 3]");
    let mut b = tok("[1 2 3]");
    for _ in 0..6 {
        assert_eq!(a.next_token().unwrap(), b.next_token().unwrap());
    }
}

#[test]
fn unexpected_character_then_reading_goes_on() {
    let mut t = tok("@ 7");
    assert_eq!(invalid_json(t.next_token()), "Unexpected character: '@'");
    assert_eq!(t.next_token().unwrap(), Token::Number(Number::UnsignedInt(7)));
}

#[test]
fn literals() {
    let mut t = tok("null true false");
    assert_eq!(t.next_token().unwrap(), Token::Null);
    assert_eq!(t.next_token().unwrap(), Token::Bool(true));
    assert_eq!(t.next_token().unwrap(), Token::Bool(false));
    assert_eq!(invalid_json(tok("nux").next_token()), "Expected 'null', found 'nx'");
    assert_eq!(invalid_json(tok("fals3").next_token()), "Expected 'false', found 'f3'");
    assert!(matches!(tok("tru").next_token(), Err(StreamError::UnexpectedEof)));
}

#[test]
fn integers() {
    let n = |s: &str| tok(s).next_token();
    assert_eq!(n("-17").unwrap(), Token::Number(Number::SignedInt(-17)));
    assert_eq!(n("-0").unwrap(), Token::Number(Number::SignedInt(0)));
    assert_eq!(n("007").unwrap(), Token::Number(Number::UnsignedInt(7)));
    assert_eq!(
        n("-9223372036854775808").unwrap(),
        Token::Number(Number::SignedInt(i64::MIN))
    );
    assert_eq!(
        invalid_json(n("-9223372036854775809")),
        "Invalid integer: -9223372036854775809"
    );
    assert_eq!(
        n("18446744073709551615").unwrap(),
        Token::Number(Number::UnsignedInt(u64::MAX))
    );
    assert_eq!(
        invalid_json(n("18446744073709551616")),
        "Invalid number: 18446744073709551616"
    );
    assert_eq!(invalid_json(n("-")), "Invalid integer: -");
}

#[test]
fn floats_are_kept_by_their_text() {
    let n = |s: &str| tok(s).next_token();
    assert_eq!(
        n("1.5e-3").unwrap(),
        Token::Number(Number::Float("1.5e-3".to_string()))
    );
    assert_eq!(n("-2.").unwrap(), Token::Number(Number::Float("-2.".to_string())));
    assert_eq!(n("3E+2").unwrap(), Token::Number(Number::Float("3E+2".to_string())));
    assert_eq!(n("-.5").unwrap(), Token::Number(Number::Float("-.5".to_string())));
    assert_eq!(invalid_json(n("1e")), "Invalid float: 1e");
    assert_eq!(invalid_json(n("-.")), "Invalid float: -.");
    assert_eq!(invalid_json(n("1e+")), "Invalid float: 1e+");
}

#[test]
fn a_number_ends_where_its_characters_end() {
    let mut t = tok("1.2.3");
    assert_eq!(
        t.next_token().unwrap(),
        Token::Number(Number::Float("1.2".to_string()))
    );
    assert_eq!(invalid_json(t.next_token()), "Unexpected character: '.'");
    assert_eq!(t.next_token().unwrap(), Token::Number(Number::UnsignedInt(3)));
    let mut t = tok("12]");
    assert_eq!(t.next_token().unwrap(), Token::Number(Number::UnsignedInt(12)));
    assert_eq!(t.next_token().unwrap(), Token::ArrayEnd);
}

#[test]
fn peek_does_not_consume() {
    let mut t = tok(r#"["x"]"#);
    assert_eq!(t.peek_token().unwrap(), &Token::ArrayStart);
    assert_eq!(t.peek_token().unwrap(), &Token::ArrayStart);
    assert_eq!(t.next_token().unwrap(), Token::ArrayStart);
    assert_eq!(t.peek_token().unwrap(), &Token::String("x".to_string()));
    assert_eq!(t.next_token().unwrap(), Token::String("x".to_string()));
    assert_eq!(t.next_token().unwrap(), Token::ArrayEnd);
}

#[test]
fn a_failed_peek_consumes_the_bad_input() {
    let mut t = tok("@ 1");
    assert!(t.peek_token().is_err());
    assert_eq!(t.next_token().unwrap(), Token::Number(Number::UnsignedInt(1)));
}

#[test]
fn expect_token_consumes_only_the_expected_token() {
    let mut t = tok("[ 5 true ]");
    assert!(t.expect_token(Token::ArrayStart).is_ok());
    // Another token, even of the same kind, is refused and left in place.
    match t.expect_token(Token::Number(Number::UnsignedInt(6))) {
        Err(StreamError::UnexpectedToken { expected, found }) => {
            assert_eq!(expected, "UnsignedInt(6)");
            assert_eq!(found, Token::Number(Number::UnsignedInt(5)));
        }
        other => panic!("unexpected {:?}", other),
    }
    assert!(t.expect_token(Token::Number(Number::UnsignedInt(5))).is_ok());
    match t.expect_token(Token::Bool(false)) {
        Err(StreamError::UnexpectedToken { expected, found }) => {
            assert_eq!(expected, "false");
            assert_eq!(found, Token::Bool(true));
        }
        other => panic!("unexpected {:?}", other),
    }
    assert_eq!(t.next_token().unwrap(), Token::Bool(true));
    assert!(t.expect_token(Token::ArrayEnd).is_ok());
    assert!(t.expect_token(Token::Eof).is_ok());
}

#[test]
fn expect_token_takes_a_failed_read() {
    let mut t = tok("@ null");
    assert!(matches!(t.expect_token(Token::Null), Err(StreamError::InvalidJson(_))));
    assert!(t.expect_token(Token::Null).is_ok());
}

#[test]
fn expect_key_takes_a_string() {
    let mut t = tok(r#""k" 1"#);
    assert_eq!(t.expect_key().unwrap(), "k");
    match t.expect_key() {
        Err(StreamError::UnexpectedToken { expected, found }) => {
            assert_eq!(expected, "object key");
            assert_eq!(found, Token::Number(Number::UnsignedInt(1)));
        }
        other => panic!("unexpected {:?}", other),
    }
}

#[test]
fn skip_value_skips_scalars_and_arrays() {
    let mut t = tok(r#"[1, [2, "3"], null, {}] 5"#);
    skip_value(&mut t).unwrap();
    assert_eq!(t.next_token().unwrap(), Token::Number(Number::UnsignedInt(5)));
    let mut t = tok(r#""s" true"#);
    skip_value(&mut t).unwrap();
    assert_eq!(t.next_token().unwrap(), Token::Bool(true));
}

#[test]
fn skip_value_skips_objects() {
    let mut t = tok(r#"{"a": 1} 2"#);
    skip_value(&mut t).unwrap();
    assert_eq!(t.next_token().unwrap(), Token::Number(Number::UnsignedInt(2)));
    let mut t = tok(r#"{"a": {"b": [1, {}]}, "c": null} "x""#);
    skip_value(&mut t).unwrap();
    assert_eq!(t.next_token().unwrap(), Token::String("x".to_string()));
    let mut t = tok(r#"{1: 2}"#);
    assert_eq!(invalid_value(skip_value(&mut t)), "object key or end");
    let mut t = tok("]");
    assert_eq!(invalid_value(skip_value(&mut t)), "value");
}

#[test]
fn integer_conversions() {
    assert!(matches!(
        u8::deserialize_from_tokens(&mut tok("300")),
        Err(Error::OutOfBounds)
    ));
    assert!(matches!(
        u32::deserialize_from_tokens(&mut tok("-1")),
        Err(Error::OutOfBounds)
    ));
    assert!(matches!(
        i32::deserialize_from_tokens(&mut tok("1.5")),
        Err(Error::UnsupportedConversion)
    ));
    assert_eq!(i8::deserialize_from_tokens(&mut tok("-128")).unwrap(), -128);
    assert_eq!(u64::deserialize_from_tokens(&mut tok("18446744073709551615")).unwrap(), u64::MAX);
    assert_eq!(
        invalid_value(i32::deserialize_from_tokens(&mut tok(r#""x""#))),
        "expected i32, found \"x\""
    );
    assert_eq!(
        invalid_value(bool::deserialize_from_tokens(&mut tok("7"))),
        "expected bool, found UnsignedInt(7)"
    );
    assert_eq!(
        invalid_value(String::deserialize_from_tokens(&mut tok("-3"))),
        "expected string, found SignedInt(-3)"
    );
}

#[test]
fn tokenizer_errors_become_custom_errors() {
    match bool::deserialize_from_tokens(&mut tok("nope")) {
        Err(Error::Custom(m)) => assert_eq!(m, "Invalid JSON: Expected 'null', found 'no'"),
        other => panic!("unexpected {:?}", other),
    }
    let e: Error = StreamError::UnexpectedEof.into();
    assert!(matches!(e, Error::Custom(ref m) if m == "Unexpected end of input"));
}

#[test]
fn tokenizer_errors_are_passed_on_and_reading_stops() {
    let mut t = tok("[1, @, 2]");
    match skip_value(&mut t) {
        Err(Error::Custom(m)) => assert_eq!(m, "Invalid JSON: Unexpected character: '@'"),
        other => panic!("unexpected {:?}", other),
    }
    assert_eq!(t.next_token().unwrap(), Token::Number(Number::UnsignedInt(2)));
    let mut t = tok(r#"{"a": "b"#);
    match skip_value(&mut t) {
        Err(Error::Custom(m)) => assert_eq!(m, "Unexpected end of input"),
        other => panic!("unexpected {:?}", other),
    }
    match String::deserialize_from_tokens(&mut tok(r#""\q""#)) {
        Err(Error::Custom(m)) => assert_eq!(m, "Invalid JSON: Invalid escape sequence: \\q"),
        other => panic!("unexpected {:?}", other),
    }
    let mut t = tok("[true, ?] false");
    match Vec::<bool>::deserialize_from_tokens(&mut t) {
        Err(Error::Custom(m)) => assert_eq!(m, "Invalid JSON: Unexpected character: '?'"),
        other => panic!("unexpected {:?}", other),
    }
    assert_eq!(t.next_token().unwrap(), Token::ArrayEnd);
}

#[test]
fn vec_errors() {
    assert_eq!(
        invalid_value(Vec::<i32>::deserialize_from_tokens(&mut tok("[1, true]"))),
        "expected i32, found true"
    );
    assert_eq!(
        invalid_value(Vec::<i32>::deserialize_from_tokens(&mut tok("{"))),
        "expected array, found {"
    );
    assert!(Vec::<i32>::deserialize_from_tokens(&mut tok("[1, 2")).is_err());
    let nested: Vec<Vec<u8>> = Vec::deserialize_from_tokens(&mut tok("[[1], [], [2, 3]]")).unwrap();
    assert_eq!(nested, vec![vec![1], vec![], vec![2, 3]]);
}

#[test]
fn option_of_values() {
    let v: Vec<Option<bool>> =
        Vec::deserialize_from_tokens(&mut tok("[true, null, false]")).unwrap();
    assert_eq!(v, vec![Some(true), None, Some(false)]);
}

#[test]
fn fixed_array_error_messages() {
    assert_eq!(
        invalid_value(<[u32; 3]>::deserialize_from_tokens(&mut tok("[1, 2]"))),
        "expected array of length 3, found array of length 2"
    );
    assert_eq!(
        invalid_value(<[u32; 3]>::deserialize_from_tokens(&mut tok("[1, 2, 3, 4]"))),
        "expected array of length 3, found longer array"
    );
    assert_eq!(
        invalid_value(<[u32; 3]>::deserialize_from_tokens(&mut tok("42"))),
        "expected array, found UnsignedInt(42)"
    );
}

#[test]
fn fixed_array_agrees_with_vec() {
    let json = "[4, 5, 6] 9";
    let mut a = tok(json);
    let mut b = tok(json);
    let fixed = <[u8; 3]>::deserialize_from_tokens(&mut a).unwrap();
    let var = Vec::<u8>::deserialize_from_tokens(&mut b).unwrap();
    assert_eq!(fixed.to_vec(), var);
    assert_eq!(a.next_token().unwrap(), b.next_token().unwrap());
}

#[test]
fn char_needs_exactly_one_character() {
    assert_eq!(
        invalid_value(char::deserialize_from_tokens(&mut tok(r#""AB""#))),
        "expected char, found \"AB\""
    );
}

#[test]
fn token_texts() {
    assert_eq!(Token::Null.display_text(), "null");
    assert_eq!(Token::Bool(false).display_text(), "false");
    assert_eq!(Token::Number(Number::UnsignedInt(30)).display_text(), "UnsignedInt(30)");
    assert_eq!(Token::Number(Number::SignedInt(-5)).display_text(), "SignedInt(-5)");
    assert_eq!(
        Token::Number(Number::Float("2.5".to_string())).display_text(),
        "Float(2.5)"
    );
    assert_eq!(Token::String("s".to_string()).display_text(), "\"s\"");
    assert_eq!(Token::Key("k".to_string()).display_text(), "\"k\":");
    assert_eq!(Token::ObjectStart.display_text(), "{");
    assert_eq!(Token::ObjectEnd.display_text(), "}");
    assert_eq!(Token::ArrayStart.display_text(), "[");
    assert_eq!(Token::ArrayEnd.display_text(), "]");
    assert_eq!(Token::Eof.display_text(), "EOF");
}

#[test]
fn stream_error_texts() {
    assert_eq!(StreamError::Io("x".to_string()).display_text(), "IO error: x");
    assert_eq!(StreamError::Parse("y".to_string()).display_text(), "Parse error: y");
    assert_eq!(
        StreamError::UnexpectedToken { expected: "null".to_string(), found: Token::Eof }
            .display_text(),
        "Expected null, found EOF"
    );
    assert_eq!(StreamError::UnexpectedEof.display_text(), "Unexpected end of input");
    assert_eq!(StreamError::InvalidJson("z".to_string()).display_text(), "Invalid JSON: z");
}

#[test]
fn error_constructors() {
    assert!(matches!(Error::invalid_value("a".to_string()), Error::InvalidValue(ref m) if m == "a"));
    assert!(matches!(Error::invalid_value_static("b"), Error::InvalidValue(ref m) if m == "b"));
    assert!(matches!(Error::custom("c".to_string()), Error::Custom(ref m) if m == "c"));
}
