use serde_lite::{
    skip_value, DeepView, Error, JsonTokenizer, Number, StreamDeserialize, Token, Tokenizer,
};

fn tokenizer(json: &str) -> JsonTokenizer {
    JsonTokenizer::new(json.as_bytes().to_vec())
}

#[test]
fn test_json_tokenizer_basic() {
    let json = r#"{"name": "John", "age": 30, "active": true}"#;
    let mut tokenizer = tokenizer(json);

    assert_eq!(tokenizer.next_token().unwrap(), Token::ObjectStart);
    assert_eq!(
        tokenizer.next_token().unwrap(),
        Token::String("name".to_string())
    );
    assert_eq!(
        tokenizer.next_token().unwrap(),
        Token::String("John".to_string())
    );
    assert_eq!(
        tokenizer.next_token().unwrap(),
        Token::String("age".to_string())
    );
    // Note: JSON numbers are parsed as tokens, so 30 will be a Number token
    assert_eq!(
        tokenizer.next_token().unwrap(),
        Token::Number(Number::UnsignedInt(30))
    );
    assert_eq!(
        tokenizer.next_token().unwrap(),
        Token::String("active".to_string())
    );
    assert_eq!(tokenizer.next_token().unwrap(), Token::Bool(true));
    assert_eq!(tokenizer.next_token().unwrap(), Token::ObjectEnd);
}

#[test]
fn test_stream_deserialize_primitives() {
    // Test string
    let json = r#""hello world""#;
    let mut tokenizer = tokenizer(json);
    let result: String = String::deserialize_from_tokens(&mut tokenizer).unwrap();
    assert_eq!(result, "hello world");

    // Test boolean
    let json = r#"true"#;
    let mut tokenizer = crate::tokenizer(json);
    let result: bool = bool::deserialize_from_tokens(&mut tokenizer).unwrap();
    assert_eq!(result, true);

    // Test integer
    let json = r#"42"#;
    let mut tokenizer = crate::tokenizer(json);
    let result: i32 = i32::deserialize_from_tokens(&mut tokenizer).unwrap();
    assert_eq!(result, 42);
}

#[test]
fn test_stream_deserialize_array() {
    let json = r#"[1, 2, 3, 4, 5]"#;
    let mut tokenizer = tokenizer(json);
    let result: Vec<i32> = Vec::deserialize_from_tokens(&mut tokenizer).unwrap();
    assert_eq!(result, vec![1, 2, 3, 4, 5]);
}

#[test]
fn test_stream_deserialize_fixed_array() {
    // Test [u32; 3]
    let json = r#"[1, 2, 3]"#;
    let mut tokenizer = tokenizer(json);
    let result: [u32; 3] = <[u32; 3]>::deserialize_from_tokens(&mut tokenizer).unwrap();
    assert_eq!(result, [1, 2, 3]);

    // Test [String; 2]
    let json = r#"["hello", "world"]"#;
    let mut tokenizer = crate::tokenizer(json);
    let result: [String; 2] = <[String; 2]>::deserialize_from_tokens(&mut tokenizer).unwrap();
    assert_eq!(result, ["hello".to_string(), "world".to_string()]);

    // Test empty array [i32; 0]
    let json = r#"[]"#;
    let mut tokenizer = crate::tokenizer(json);
    let result: [i32; 0] = <[i32; 0]>::deserialize_from_tokens(&mut tokenizer).unwrap();
    assert_eq!(result, []);
}

#[test]
fn test_stream_deserialize_fixed_array_errors() {
    // Test array too short
    let json = r#"[1, 2]"#;
    let mut tokenizer = tokenizer(json);
    let result: Result<[u32; 3], _> = <[u32; 3]>::deserialize_from_tokens(&mut tokenizer);
    assert!(result.is_err());

    // Test array too long
    let json = r#"[1, 2, 3, 4]"#;
    let mut tokenizer = crate::tokenizer(json);
    let result: Result<[u32; 3], _> = <[u32; 3]>::deserialize_from_tokens(&mut tokenizer);
    assert!(result.is_err());

    // Test not an array
    let json = r#"42"#;
    let mut tokenizer = crate::tokenizer(json);
    let result: Result<[u32; 3], _> = <[u32; 3]>::deserialize_from_tokens(&mut tokenizer);
    assert!(result.is_err());
}

#[test]
fn test_stream_deserialize_option() {
    // Test Some
    let json = r#"42"#;
    let mut tokenizer = tokenizer(json);
    let result: Option<i32> = Option::deserialize_from_tokens(&mut tokenizer).unwrap();
    assert_eq!(result, Some(42));

    // Test None
    let json = r#"null"#;
    let mut tokenizer = crate::tokenizer(json);
    let result: Option<i32> = Option::deserialize_from_tokens(&mut tokenizer).unwrap();
    assert_eq!(result, None);
}

// Simple struct for testing manual deserialization
struct Person {
    name: String,
    age: i32,
    active: bool,
}

impl DeepView for Person {
    type V = (String, i32, bool);

    fn deep_view(&self) -> Self::V {
        (self.name.clone(), self.age, self.active)
    }
}

impl StreamDeserialize for Person {
    fn deserialize_from_tokens<T: Tokenizer>(tokenizer: &mut T) -> Result<Self, Error>
    where
        T::Error: Into<Error>,
    {
        // Expect object start
        match tokenizer.next_token().map_err(|e| e.into())? {
            Token::ObjectStart => {}
            token => {
                return Err(Error::invalid_value(format!(
                    "expected object, found {}",
                    token.display_text()
                )))
            }
        }

        let mut name = None;
        let mut age = None;
        let mut active = None;

        // Read object fields
        loop {
            match tokenizer.next_token().map_err(|e| e.into())? {
                Token::ObjectEnd => break,
                Token::String(key) => {
                    match key.as_str() {
                        "name" => {
                            name = Some(String::deserialize_from_tokens(tokenizer)?);
                        }
                        "age" => {
                            age = Some(i32::deserialize_from_tokens(tokenizer)?);
                        }
                        "active" => {
                            active = Some(bool::deserialize_from_tokens(tokenizer)?);
                        }
                        _ => {
                            // Skip unknown field
                            skip_value(tokenizer)?;
                        }
                    }
                }
                token => {
                    return Err(Error::invalid_value(format!(
                        "expected object key, found {}",
                        token.display_text()
                    )))
                }
            }
        }

        Ok(Person {
            name: name.ok_or(Error::MissingField)?,
            age: age.ok_or(Error::MissingField)?,
            active: active.ok_or(Error::MissingField)?,
        })
    }
}

#[test]
fn test_stream_deserialize_struct() {
    let json = r#"{"name": "John", "age": 30, "active": true}"#;
    let mut tokenizer = tokenizer(json);
    let result: Person = Person::deserialize_from_tokens(&mut tokenizer).unwrap();

    assert_eq!(result.name, "John");
    assert_eq!(result.age, 30);
    assert_eq!(result.active, true);
}

#[test]
fn test_stream_deserialize_unit() {
    let json = r#"null"#;
    let mut tokenizer = tokenizer(json);
    let result: () = <()>::deserialize_from_tokens(&mut tokenizer).unwrap();

    assert_eq!(result, ());
}

#[test]
fn test_stream_deserialize_box() {
    let json = r#"42"#;
    let mut tokenizer = tokenizer(json);
    let result: Box<i32> = Box::deserialize_from_tokens(&mut tokenizer).unwrap();

    assert_eq!(*result, 42);
}

#[test]
fn test_stream_deserialize_char() {
    let json = r#""A""#;
    let mut tokenizer = tokenizer(json);
    let result: char = char::deserialize_from_tokens(&mut tokenizer).unwrap();

    assert_eq!(result, 'A');
}

#[test]
fn test_stream_deserialize_i128_u128() {
    // Test i128
    let json = r#"123456789"#;
    let mut tokenizer = tokenizer(json);
    let result: i128 = i128::deserialize_from_tokens(&mut tokenizer).unwrap();
    assert_eq!(result, 123456789i128);

    // Test u128
    let json = r#"987654321"#;
    let mut tokenizer = crate::tokenizer(json);
    let result: u128 = u128::deserialize_from_tokens(&mut tokenizer).unwrap();
    assert_eq!(result, 987654321u128);
}
