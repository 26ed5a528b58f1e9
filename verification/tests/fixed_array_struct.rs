//! A structure with a fixed-size array field, read from a token stream.
use serde_lite::{skip_value, DeepView, Error, JsonTokenizer, StreamDeserialize, Token, Tokenizer};

#[derive(Debug)]
struct Config {
    pub version: [u32; 3],
}

impl DeepView for Config {
    type V = [u32; 3];

    fn deep_view(&self) -> Self::V {
        self.version
    }
}

impl StreamDeserialize for Config {
    fn deserialize_from_tokens<T: Tokenizer>(tokenizer: &mut T) -> Result<Self, Error>
    where
        T::Error: Into<Error>,
    {
        // Expect object start
        match tokenizer.next_token().map_err(|e| e.into())? {
            Token::ObjectStart => {}
            token => {
                return Err(Error::invalid_value(format!(
                    "expected object, found {}",
                    token.display_text()
                )))
            }
        }

        let mut version = None;

        // Read object fields
        loop {
            match tokenizer.next_token().map_err(|e| e.into())? {
                Token::ObjectEnd => break,
                Token::String(key) => {
                    match key.as_str() {
                        "version" => {
                            version = Some(<[u32; 3]>::deserialize_from_tokens(tokenizer)?);
                        }
                        _ => {
                            // Skip unknown field
                            skip_value(tokenizer)?;
                        }
                    }
                }
                token => {
                    return Err(Error::invalid_value(format!(
                        "expected object key, found {}",
                        token.display_text()
                    )))
                }
            }
        }

        Ok(Config {
            version: version.ok_or(Error::MissingField)?,
        })
    }
}

#[test]
fn config_with_fixed_array_field() {
    let json = r#"{"version": [1, 2, 3]}"#;
    let mut tokenizer = JsonTokenizer::new(json.as_bytes().to_vec());
    let config = Config::deserialize_from_tokens(&mut tokenizer).unwrap();
    assert_eq!(config.version, [1, 2, 3]);
}

#[test]
fn config_skips_unknown_fields() {
    let json = r#"{"name": "x", "extra": {"a": [1, 2]}, "version": [4, 5, 6]}"#;
    let mut tokenizer = JsonTokenizer::new(json.as_bytes().to_vec());
    let config = Config::deserialize_from_tokens(&mut tokenizer).unwrap();
    assert_eq!(config.version, [4, 5, 6]);
}

#[test]
fn config_missing_field() {
    let json = r#"{}"#;
    let mut tokenizer = JsonTokenizer::new(json.as_bytes().to_vec());
    let result = Config::deserialize_from_tokens(&mut tokenizer);
    assert!(matches!(result, Err(Error::MissingField)));
}
