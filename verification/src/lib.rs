//! Streaming JSON tokenization and token-based deserialization.
//!
//! A [`JsonTokenizer`] reads a JSON text and hands out [`Token`]s; types that
//! implement [`StreamDeserialize`] are read directly from such a token stream,
//! without an intermediate representation.
use vstd::prelude::*;

pub mod deserialize;
pub mod error;
pub mod json_tokenizer;
pub mod number;
pub mod streaming;
pub mod text;
pub mod token;
pub mod unicode;

pub use error::{Error, ErrorView};
pub use json_tokenizer::JsonTokenizer;
pub use streaming::{skip_value, Outcome, StreamDeserialize, StreamError, StreamErrorView, Tokenizer};
pub use token::{Number, NumberView, Token, TokenView};
pub use vstd::view::DeepView;

verus! {
} // verus!
