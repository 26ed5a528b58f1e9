# serde_lite (streaming part)

Token-based streaming deserialization of JSON, verified with Verus.

- `src/json_tokenizer.rs` — `JsonTokenizer`: reads a JSON text (as bytes) and
  hands out `Token`s. The text's grammar is stated by spec functions
  (`json_token_at`, `scan_string`, `scan_literal`, `scan_number`, `number_of`),
  and every read is proved to give what they say.
- `src/streaming.rs` — the `Tokenizer` trait (a tokenizer is modelled by the
  entries it still has to hand out, and the errors that failing entries give),
  `StreamError`, `skip_value`, and the
  `StreamDeserialize` trait, whose `spec_from_tokens` states how reading a value
  ends and how many tokens it takes; a failed read ends it with the tokenizer's
  error, converted by `Into<Error>`.
- `src/deserialize.rs` — `StreamDeserialize` for `bool`, `String`, `char`, `()`,
  the integer types, `Option`, `Box`, `Vec` and fixed-size arrays.
- `src/unicode.rs` — UTF-8 decoding and `\u` escapes inside JSON strings.
- `src/number.rs` — the syntax of decimal float literals and the value of digit
  strings.
- `src/token.rs`, `src/error.rs`, `src/text.rs` — tokens, errors, and the texts
  by which they are shown.
- `app/lib.rs` — what stays outside the verified library: reading from an
  `io::Read`, `f32`/`f64`, and `Display` / `std::error::Error`.
